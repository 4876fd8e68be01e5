//! The typed ordered-list view. A `CandyTypedList<L, K, V>` addresses one
//! list per L-typed identifier (composed into the list-key namespace) and
//! holds any number of distinct (K-typed item key, V-typed value) pairs in
//! insertion order. Writes keep an existing item's place; only promotion
//! moves an item, to the most-recently-touched end (the back).

use core::marker::PhantomData;
use vstd::prelude::*;

use crate::codec::Codec;
use crate::keys::{build_list_key, typed_list_key, CandyTypedKey};
use crate::store::{
    bump_holes, CandyStore, ListCompactionParams, ReplaceStatus, SetStatus,
};
use crate::table::{tbl_get, tbl_idx};
use crate::CandyError;

verus! {

/// One scanned prefix of a retention pass: each row decodes to the typed
/// pair held at its position, and the predicate, called once on that pair,
/// may return `Ok` of the verdict recorded for it.
pub open spec fn retain_scan_ok<
    K: Codec,
    V: Codec,
    F: Fn(&K, &V) -> Result<bool, CandyError>,
>(func: F, rows: Seq<(Seq<u8>, Seq<u8>)>, keep: Seq<bool>, ks: Seq<K>, vs: Seq<V>) -> bool {
    &&& keep.len() == rows.len()
    &&& ks.len() == rows.len()
    &&& vs.len() == rows.len()
    &&& forall|i: int|
        0 <= i < rows.len() ==> {
            &&& K::dec_of(rows[i].0) == Some((#[trigger] ks[i])@)
            &&& V::dec_of(rows[i].1) == Some(vs[i]@)
            &&& call_ensures(func, (&ks[i], &vs[i]), Ok(keep[i]))
        }
}

/// The rows a verdict sequence selects, in order.
pub open spec fn seq_filter_by<T>(s: Seq<T>, keep: Seq<bool>) -> Seq<T>
    decreases s.len(),
{
    if s.len() == 0 || keep.len() == 0 {
        Seq::empty()
    } else if keep[0] {
        seq![s[0]] + seq_filter_by(s.drop_first(), keep.drop_first())
    } else {
        seq_filter_by(s.drop_first(), keep.drop_first())
    }
}

/// Extending a scan by one row extends its selection at the back.
pub proof fn lemma_seq_filter_by_push<T>(s: Seq<T>, keep: Seq<bool>, x: T, b: bool)
    requires
        s.len() == keep.len(),
    ensures
        seq_filter_by(s.push(x), keep.push(b)) == seq_filter_by(s, keep) + (if b {
            seq![x]
        } else {
            Seq::<T>::empty()
        }),
    decreases s.len(),
{
    let s2 = s.push(x);
    let k2 = keep.push(b);
    let tail: Seq<T> = if b {
        seq![x]
    } else {
        Seq::<T>::empty()
    };
    if s.len() == 0 {
        assert(s2.drop_first() =~= Seq::<T>::empty());
        assert(k2.drop_first() =~= Seq::<bool>::empty());
        assert(seq_filter_by(Seq::<T>::empty(), Seq::<bool>::empty()) == Seq::<T>::empty());
        assert(seq_filter_by(s2, k2) =~= seq_filter_by(s, keep) + tail);
    } else {
        assert(s2.drop_first() =~= s.drop_first().push(x));
        assert(k2.drop_first() =~= keep.drop_first().push(b));
        lemma_seq_filter_by_push(s.drop_first(), keep.drop_first(), x, b);
        if keep[0] {
            assert(seq![s[0]] + (seq_filter_by(s.drop_first(), keep.drop_first()) + tail) =~= (
            seq![s[0]] + seq_filter_by(s.drop_first(), keep.drop_first())) + tail);
        }
    }
}

/// A completed retention pass: every row decoded, the predicate judged each
/// pair once, in order, and exactly the accepted rows survive, their order
/// kept.
pub open spec fn retain_ok_outcome<
    K: Codec,
    V: Codec,
    F: Fn(&K, &V) -> Result<bool, CandyError>,
>(func: F, rows: Seq<(Seq<u8>, Seq<u8>)>, rows2: Seq<(Seq<u8>, Seq<u8>)>) -> bool {
    exists|keep: Seq<bool>, ks: Seq<K>, vs: Seq<V>|
        #[trigger] retain_scan_ok(func, rows, keep, ks, vs) && rows2 == seq_filter_by(rows, keep)
}

/// A retention pass stopped by its first failure, at scan position `i`: the
/// rows before it were decoded and judged (the rejected ones are gone, the
/// accepted ones stand), row `i` either does not decode (then the error is
/// the decode error) or decodes to a pair on which the predicate may return
/// this error, and the rows from `i` on are unvisited and unchanged.
pub open spec fn retain_err_outcome<
    K: Codec,
    V: Codec,
    F: Fn(&K, &V) -> Result<bool, CandyError>,
>(
    func: F,
    rows: Seq<(Seq<u8>, Seq<u8>)>,
    rows2: Seq<(Seq<u8>, Seq<u8>)>,
    e: CandyError,
) -> bool {
    exists|i: int, keep: Seq<bool>, ks: Seq<K>, vs: Seq<V>|
        {
            &&& 0 <= i < rows.len()
            &&& #[trigger] retain_scan_ok(func, rows.take(i), keep, ks, vs)
            &&& rows2 == seq_filter_by(rows.take(i), keep) + rows.skip(i)
            &&& ({
                ||| ((K::dec_of(rows[i].0) is None || V::dec_of(rows[i].1) is None) && e
                    == CandyError::Decode)
                ||| (exists|k: K, v: V|
                    K::dec_of(rows[i].0) == Some(k@) && V::dec_of(rows[i].1) == Some(v@)
                        && #[trigger] call_ensures(func, (&k, &v), Err(e)))
            })
        }
}

/// A typed ordered collection over a shared untyped store.
pub struct CandyTypedList<L, K, V> {
    _phantom: PhantomData<(L, K, V)>,
}

impl<L, K, V> Clone for CandyTypedList<L, K, V> {
    /// Views are stateless, so a clone is just another handle.
    fn clone(&self) -> Self {
        CandyTypedList { _phantom: PhantomData }
    }
}

impl<L: CandyTypedKey, K: Codec, V: Codec> CandyTypedList<L, K, V> {
    /// Constructs a typed view; operations take the shared store.
    pub fn new() -> Self {
        CandyTypedList { _phantom: PhantomData }
    }

    /// The composite byte key this view stores list `l` under.
    pub open spec fn spec_list_key(l: L::V) -> Seq<u8> {
        typed_list_key::<L>(l)
    }

    /// Whether the typed item key exists in the list.
    pub fn contains(&self, store: &CandyStore, list_key: &L, item_key: &K) -> (r: Result<
        bool,
        CandyError,
    >)
        requires
            store.wf(),
            L::enc_ok(list_key@),
            K::enc_ok(item_key@),
        ensures
            r matches Ok(b) && b == (match store.list_at(Self::spec_list_key(list_key@)) {
                None => false,
                Some(lv) => tbl_get(lv.0, K::enc_of(item_key@)) is Some,
            }),
    {
        let lkb = build_list_key(list_key);
        let ikb = item_key.encode();
        Ok(store.owned_get_from_list(lkb.as_slice(), ikb.as_slice()).is_some())
    }

    /// Reads and decodes one item of the list.
    pub fn get(&self, store: &CandyStore, list_key: &L, item_key: &K) -> (r: Result<
        Option<V>,
        CandyError,
    >)
        requires
            store.wf(),
            L::enc_ok(list_key@),
            K::enc_ok(item_key@),
        ensures
            match store.list_at(Self::spec_list_key(list_key@)) {
                None => r matches Ok(o) && o is None,
                Some(lv) => match tbl_get(lv.0, K::enc_of(item_key@)) {
                    None => r matches Ok(o) && o is None,
                    Some(b) => match V::dec_of(b) {
                        Some(v) => r matches Ok(o) && o matches Some(x) && x@ == v,
                        None => r is Err,
                    },
                },
            },
    {
        let lkb = build_list_key(list_key);
        let ikb = item_key.encode();
        match store.owned_get_from_list(lkb.as_slice(), ikb.as_slice()) {
            None => Ok(None),
            Some(vb) => match V::decode(vb.as_slice()) {
                Ok(x) => Ok(Some(x)),
                Err(e) => Err(e),
            },
        }
    }

    /// The shared write path: a new item goes to the back; an existing one
    /// is overwritten in place, or moved to the back when promoting.
    fn set_inner(
        &self,
        store: &mut CandyStore,
        list_key: &L,
        item_key: &K,
        val: &V,
        promote: bool,
    ) -> (r: Result<Option<V>, CandyError>)
        requires
            old(store).wf(),
            L::enc_ok(list_key@),
            K::enc_ok(item_key@),
            V::enc_ok(val@),
        ensures
            final(store).wf(),
            final(store).map == old(store).map,
            final(store).big == old(store).big,
            final(store).queues == old(store).queues,
            forall|k2: Seq<u8>|
                k2 != Self::spec_list_key(list_key@) ==> #[trigger] final(store).list_at(k2)
                    == old(store).list_at(k2),
            match old(store).list_at(Self::spec_list_key(list_key@)) {
                None => {
                    &&& final(store).list_at(Self::spec_list_key(list_key@)) == Some(
                        (seq![(K::enc_of(item_key@), V::enc_of(val@))], 0nat),
                    )
                    &&& (r matches Ok(o) && o is None)
                },
                Some(lv) => match tbl_get(lv.0, K::enc_of(item_key@)) {
                    None => {
                        &&& final(store).list_at(Self::spec_list_key(list_key@)) == Some(
                            (lv.0.push((K::enc_of(item_key@), V::enc_of(val@))), lv.1),
                        )
                        &&& (r matches Ok(o) && o is None)
                    },
                    Some(prev) => {
                        &&& final(store).list_at(Self::spec_list_key(list_key@)) == Some(
                            (
                                if promote {
                                    lv.0.remove(tbl_idx(lv.0, K::enc_of(item_key@))).push(
                                        (K::enc_of(item_key@), V::enc_of(val@)),
                                    )
                                } else {
                                    lv.0.update(
                                        tbl_idx(lv.0, K::enc_of(item_key@)),
                                        (K::enc_of(item_key@), V::enc_of(val@)),
                                    )
                                },
                                lv.1,
                            ),
                        )
                        &&& match V::dec_of(prev) {
                            Some(v) => r matches Ok(o) && o matches Some(x) && x@ == v,
                            None => r is Err,
                        }
                    },
                },
            },
    {
        let lkb = build_list_key(list_key);
        let ikb = item_key.encode();
        let vb = val.encode();
        match store.owned_set_in_list(lkb.as_slice(), ikb.as_slice(), vb.as_slice(), promote) {
            SetStatus::CreatedNew => Ok(None),
            SetStatus::PrevValue(pb) => match V::decode(pb.as_slice()) {
                Ok(x) => Ok(Some(x)),
                Err(e) => Err(e),
            },
        }
    }

    /// Upsert without position change: a new item is appended at the back;
    /// an existing item is overwritten where it stands.
    pub fn set(&self, store: &mut CandyStore, list_key: &L, item_key: &K, val: &V) -> (r: Result<
        Option<V>,
        CandyError,
    >)
        requires
            old(store).wf(),
            L::enc_ok(list_key@),
            K::enc_ok(item_key@),
            V::enc_ok(val@),
        ensures
            final(store).wf(),
            final(store).map == old(store).map,
            final(store).big == old(store).big,
            final(store).queues == old(store).queues,
            forall|k2: Seq<u8>|
                k2 != Self::spec_list_key(list_key@) ==> #[trigger] final(store).list_at(k2)
                    == old(store).list_at(k2),
            match old(store).list_at(Self::spec_list_key(list_key@)) {
                None => {
                    &&& final(store).list_at(Self::spec_list_key(list_key@)) == Some(
                        (seq![(K::enc_of(item_key@), V::enc_of(val@))], 0nat),
                    )
                    &&& (r matches Ok(o) && o is None)
                },
                Some(lv) => match tbl_get(lv.0, K::enc_of(item_key@)) {
                    None => {
                        &&& final(store).list_at(Self::spec_list_key(list_key@)) == Some(
                            (lv.0.push((K::enc_of(item_key@), V::enc_of(val@))), lv.1),
                        )
                        &&& (r matches Ok(o) && o is None)
                    },
                    Some(prev) => {
                        &&& final(store).list_at(Self::spec_list_key(list_key@)) == Some(
                            (
                                lv.0.update(
                                    tbl_idx(lv.0, K::enc_of(item_key@)),
                                    (K::enc_of(item_key@), V::enc_of(val@)),
                                ),
                                lv.1,
                            ),
                        )
                        &&& match V::dec_of(prev) {
                            Some(v) => r matches Ok(o) && o matches Some(x) && x@ == v,
                            None => r is Err,
                        }
                    },
                },
            },
    {
        self.set_inner(store, list_key, item_key, val, false)
    }

    /// Upsert that also refreshes recency: the item ends up at the back of
    /// the order, whether it was new or existing.
    pub fn set_promoting(&self, store: &mut CandyStore, list_key: &L, item_key: &K, val: &V) -> (r:
        Result<Option<V>, CandyError>)
        requires
            old(store).wf(),
            L::enc_ok(list_key@),
            K::enc_ok(item_key@),
            V::enc_ok(val@),
        ensures
            final(store).wf(),
            final(store).map == old(store).map,
            final(store).big == old(store).big,
            final(store).queues == old(store).queues,
            forall|k2: Seq<u8>|
                k2 != Self::spec_list_key(list_key@) ==> #[trigger] final(store).list_at(k2)
                    == old(store).list_at(k2),
            match old(store).list_at(Self::spec_list_key(list_key@)) {
                None => {
                    &&& final(store).list_at(Self::spec_list_key(list_key@)) == Some(
                        (seq![(K::enc_of(item_key@), V::enc_of(val@))], 0nat),
                    )
                    &&& (r matches Ok(o) && o is None)
                },
                Some(lv) => match tbl_get(lv.0, K::enc_of(item_key@)) {
                    None => {
                        &&& final(store).list_at(Self::spec_list_key(list_key@)) == Some(
                            (lv.0.push((K::enc_of(item_key@), V::enc_of(val@))), lv.1),
                        )
                        &&& (r matches Ok(o) && o is None)
                    },
                    Some(prev) => {
                        &&& final(store).list_at(Self::spec_list_key(list_key@)) == Some(
                            (
                                lv.0.remove(tbl_idx(lv.0, K::enc_of(item_key@))).push(
                                    (K::enc_of(item_key@), V::enc_of(val@)),
                                ),
                                lv.1,
                            ),
                        )
                        &&& match V::dec_of(prev) {
                            Some(v) => r matches Ok(o) && o matches Some(x) && x@ == v,
                            None => r is Err,
                        }
                    },
                },
            },
    {
        self.set_inner(store, list_key, item_key, val, true)
    }

    /// Reads one item, first appending the default at the back if the item
    /// (or the whole list) is absent; the default then comes back as itself.
    pub fn get_or_create(
        &self,
        store: &mut CandyStore,
        list_key: &L,
        item_key: &K,
        default_val: &V,
    ) -> (r: Result<V, CandyError>)
        requires
            old(store).wf(),
            L::enc_ok(list_key@),
            K::enc_ok(item_key@),
            V::enc_ok(default_val@),
        ensures
            final(store).wf(),
            final(store).map == old(store).map,
            final(store).big == old(store).big,
            final(store).queues == old(store).queues,
            forall|k2: Seq<u8>|
                k2 != Self::spec_list_key(list_key@) ==> #[trigger] final(store).list_at(k2)
                    == old(store).list_at(k2),
            match old(store).list_at(Self::spec_list_key(list_key@)) {
                None => {
                    &&& final(store).list_at(Self::spec_list_key(list_key@)) == Some(
                        (seq![(K::enc_of(item_key@), V::enc_of(default_val@))], 0nat),
                    )
                    &&& (r matches Ok(x) && x@ == default_val@)
                },
                Some(lv) => match tbl_get(lv.0, K::enc_of(item_key@)) {
                    None => {
                        &&& final(store).list_at(Self::spec_list_key(list_key@)) == Some(
                            (lv.0.push((K::enc_of(item_key@), V::enc_of(default_val@))), lv.1),
                        )
                        &&& (r matches Ok(x) && x@ == default_val@)
                    },
                    Some(b) => {
                        &&& final(store).list_at(Self::spec_list_key(list_key@)) == Some(lv)
                        &&& match V::dec_of(b) {
                            Some(v) => r matches Ok(x) && x@ == v,
                            None => r is Err,
                        }
                    },
                },
            },
    {
        let lkb = build_list_key(list_key);
        let ikb = item_key.encode();
        let db = default_val.encode();
        proof {
            V::lemma_round_trip(default_val@);
        }
        let got = store.owned_get_or_create_in_list(
            lkb.as_slice(),
            ikb.as_slice(),
            db.as_slice(),
        ).value();
        match V::decode(got.as_slice()) {
            Ok(x) => Ok(x),
            Err(e) => Err(e),
        }
    }

    /// Compare-and-swap scoped to one item of one list, in place: the same
    /// semantics and the same collapsing of the mismatch case as the map's
    /// conditional upsert.
    pub fn replace(
        &self,
        store: &mut CandyStore,
        list_key: &L,
        item_key: &K,
        val: &V,
        expected_val: Option<&V>,
    ) -> (r: Result<Option<V>, CandyError>)
        requires
            old(store).wf(),
            L::enc_ok(list_key@),
            K::enc_ok(item_key@),
            V::enc_ok(val@),
            match expected_val {
                Some(e) => V::enc_ok(e@),
                None => true,
            },
        ensures
            final(store).wf(),
            final(store).map == old(store).map,
            final(store).big == old(store).big,
            final(store).queues == old(store).queues,
            forall|k2: Seq<u8>|
                k2 != Self::spec_list_key(list_key@) ==> #[trigger] final(store).list_at(k2)
                    == old(store).list_at(k2),
            match old(store).list_at(Self::spec_list_key(list_key@)) {
                None => final(store).list_at(Self::spec_list_key(list_key@)) is None && (r
                    matches Ok(o) && o is None),
                Some(lv) => match tbl_get(lv.0, K::enc_of(item_key@)) {
                    None => final(store).list_at(Self::spec_list_key(list_key@)) == Some(lv) && (
                    r matches Ok(o) && o is None),
                    Some(prev) => {
                        if (match expected_val {
                            None => true,
                            Some(e) => V::enc_of(e@) == prev,
                        }) {
                            &&& final(store).list_at(Self::spec_list_key(list_key@)) == Some(
                                (
                                    lv.0.update(
                                        tbl_idx(lv.0, K::enc_of(item_key@)),
                                        (K::enc_of(item_key@), V::enc_of(val@)),
                                    ),
                                    lv.1,
                                ),
                            )
                            &&& match V::dec_of(prev) {
                                Some(v) => r matches Ok(o) && o matches Some(x) && x@ == v,
                                None => r is Err,
                            }
                        } else {
                            &&& final(store).list_at(Self::spec_list_key(list_key@)) == Some(lv)
                            &&& (r matches Ok(o) && o is None)
                        }
                    },
                },
            },
    {
        let lkb = build_list_key(list_key);
        let ikb = item_key.encode();
        let vb = val.encode();
        let eb: Option<Vec<u8>> = match expected_val {
            Some(e) => Some(e.encode()),
            None => None,
        };
        let ebs: Option<&[u8]> = match &eb {
            Some(b) => Some(b.as_slice()),
            None => None,
        };
        match store.owned_replace_in_list(lkb.as_slice(), ikb.as_slice(), vb.as_slice(), ebs) {
            ReplaceStatus::DoesNotExist => Ok(None),
            ReplaceStatus::WrongValue(_) => Ok(None),
            ReplaceStatus::PrevValue(pb) => match V::decode(pb.as_slice()) {
                Ok(x) => Ok(Some(x)),
                Err(e) => Err(e),
            },
        }
    }

    /// Deletes one item, closing the gap; order of the others is kept.
    pub fn remove(&self, store: &mut CandyStore, list_key: &L, item_key: &K) -> (r: Result<
        Option<V>,
        CandyError,
    >)
        requires
            old(store).wf(),
            L::enc_ok(list_key@),
            K::enc_ok(item_key@),
        ensures
            final(store).wf(),
            final(store).map == old(store).map,
            final(store).big == old(store).big,
            final(store).queues == old(store).queues,
            forall|k2: Seq<u8>|
                k2 != Self::spec_list_key(list_key@) ==> #[trigger] final(store).list_at(k2)
                    == old(store).list_at(k2),
            match old(store).list_at(Self::spec_list_key(list_key@)) {
                None => final(store).list_at(Self::spec_list_key(list_key@)) is None && (r
                    matches Ok(o) && o is None),
                Some(lv) => match tbl_get(lv.0, K::enc_of(item_key@)) {
                    None => final(store).list_at(Self::spec_list_key(list_key@)) == Some(lv) && (
                    r matches Ok(o) && o is None),
                    Some(prev) => {
                        &&& final(store).list_at(Self::spec_list_key(list_key@)) == Some(
                            (
                                lv.0.remove(tbl_idx(lv.0, K::enc_of(item_key@))),
                                bump_holes(lv.1),
                            ),
                        )
                        &&& match V::dec_of(prev) {
                            Some(v) => r matches Ok(o) && o matches Some(x) && x@ == v,
                            None => r is Err,
                        }
                    },
                },
            },
    {
        let lkb = build_list_key(list_key);
        let ikb = item_key.encode();
        match store.owned_remove_from_list(lkb.as_slice(), ikb.as_slice()) {
            None => Ok(None),
            Some(pb) => match V::decode(pb.as_slice()) {
                Ok(x) => Ok(Some(x)),
                Err(e) => Err(e),
            },
        }
    }

    /// All items decoded, head to tail. Each element decodes independently:
    /// a failure surfaces as that element's error without hiding the others.
    pub fn iter(&self, store: &CandyStore, list_key: &L) -> (r: Vec<Result<(K, V), CandyError>>)
        requires
            store.wf(),
            L::enc_ok(list_key@),
        ensures
            match store.list_at(Self::spec_list_key(list_key@)) {
                None => r@.len() == 0,
                Some(lv) => {
                    &&& r@.len() == lv.0.len()
                    &&& forall|i: int|
                        0 <= i < lv.0.len() ==> (match (
                            K::dec_of(lv.0[i].0),
                            V::dec_of(lv.0[i].1),
                        ) {
                            (Some(k), Some(v)) => (#[trigger] r@[i]) matches Ok(p) && p.0@ == k
                                && p.1@ == v,
                            _ => r@[i] is Err,
                        })
                },
            },
    {
        let lkb = build_list_key(list_key);
        let raw = store.owned_iter_list(lkb.as_slice());
        let n = raw.len();
        let mut r: Vec<Result<(K, V), CandyError>> = Vec::new();
        let mut j: usize = 0;
        while j < n
            invariant
                n == raw@.len(),
                j <= n,
                r@.len() == j,
                forall|t: int|
                    0 <= t < j ==> (match (K::dec_of(raw@[t].0@), V::dec_of(raw@[t].1@)) {
                        (Some(k), Some(v)) => (#[trigger] r@[t]) matches Ok(p) && p.0@ == k
                            && p.1@ == v,
                        _ => r@[t] is Err,
                    }),
            decreases n - j,
        {
            let kd = K::decode(raw[j].0.as_slice());
            let vd = V::decode(raw[j].1.as_slice());
            match (kd, vd) {
                (Ok(k), Ok(v)) => r.push(Ok((k, v))),
                _ => r.push(Err(CandyError::Decode)),
            }
            j = j + 1;
        }
        r
    }

    /// All items decoded, tail to head.
    pub fn iter_backwards(&self, store: &CandyStore, list_key: &L) -> (r: Vec<
        Result<(K, V), CandyError>,
    >)
        requires
            store.wf(),
            L::enc_ok(list_key@),
        ensures
            match store.list_at(Self::spec_list_key(list_key@)) {
                None => r@.len() == 0,
                Some(lv) => {
                    &&& r@.len() == lv.0.len()
                    &&& forall|i: int|
                        0 <= i < lv.0.len() ==> (match (
                            K::dec_of(lv.0[lv.0.len() - 1 - i].0),
                            V::dec_of(lv.0[lv.0.len() - 1 - i].1),
                        ) {
                            (Some(k), Some(v)) => (#[trigger] r@[i]) matches Ok(p) && p.0@ == k
                                && p.1@ == v,
                            _ => r@[i] is Err,
                        })
                },
            },
    {
        let lkb = build_list_key(list_key);
        let raw = store.owned_iter_list_backwards(lkb.as_slice());
        let n = raw.len();
        let mut r: Vec<Result<(K, V), CandyError>> = Vec::new();
        let mut j: usize = 0;
        while j < n
            invariant
                n == raw@.len(),
                j <= n,
                r@.len() == j,
                forall|t: int|
                    0 <= t < j ==> (match (K::dec_of(raw@[t].0@), V::dec_of(raw@[t].1@)) {
                        (Some(k), Some(v)) => (#[trigger] r@[t]) matches Ok(p) && p.0@ == k
                            && p.1@ == v,
                        _ => r@[t] is Err,
                    }),
            decreases n - j,
        {
            let kd = K::decode(raw[j].0.as_slice());
            let vd = V::decode(raw[j].1.as_slice());
            match (kd, vd) {
                (Ok(k), Ok(v)) => r.push(Ok((k, v))),
                _ => r.push(Err(CandyError::Decode)),
            }
            j = j + 1;
        }
        r
    }

    /// Removes and decodes the first item.
    pub fn pop_head(&self, store: &mut CandyStore, list_key: &L) -> (r: Result<
        Option<(K, V)>,
        CandyError,
    >)
        requires
            old(store).wf(),
            L::enc_ok(list_key@),
        ensures
            final(store).wf(),
            final(store).map == old(store).map,
            final(store).big == old(store).big,
            final(store).queues == old(store).queues,
            forall|k2: Seq<u8>|
                k2 != Self::spec_list_key(list_key@) ==> #[trigger] final(store).list_at(k2)
                    == old(store).list_at(k2),
            match old(store).list_at(Self::spec_list_key(list_key@)) {
                None => final(store).list_at(Self::spec_list_key(list_key@)) is None && (r
                    matches Ok(o) && o is None),
                Some(lv) => {
                    if lv.0.len() == 0 {
                        final(store).list_at(Self::spec_list_key(list_key@)) == Some(lv) && (r
                            matches Ok(o) && o is None)
                    } else {
                        &&& final(store).list_at(Self::spec_list_key(list_key@)) == Some(
                            (lv.0.drop_first(), bump_holes(lv.1)),
                        )
                        &&& match (K::dec_of(lv.0[0].0), V::dec_of(lv.0[0].1)) {
                            (Some(k), Some(v)) => r matches Ok(o) && o matches Some(p) && p.0@
                                == k && p.1@ == v,
                            _ => r is Err,
                        }
                    }
                },
            },
    {
        let lkb = build_list_key(list_key);
        match store.owned_pop_list_head(lkb.as_slice()) {
            None => Ok(None),
            Some((kb, vb)) => match (K::decode(kb.as_slice()), V::decode(vb.as_slice())) {
                (Ok(k), Ok(v)) => Ok(Some((k, v))),
                _ => Err(CandyError::Decode),
            },
        }
    }

    /// Removes and decodes the last item.
    pub fn pop_tail(&self, store: &mut CandyStore, list_key: &L) -> (r: Result<
        Option<(K, V)>,
        CandyError,
    >)
        requires
            old(store).wf(),
            L::enc_ok(list_key@),
        ensures
            final(store).wf(),
            final(store).map == old(store).map,
            final(store).big == old(store).big,
            final(store).queues == old(store).queues,
            forall|k2: Seq<u8>|
                k2 != Self::spec_list_key(list_key@) ==> #[trigger] final(store).list_at(k2)
                    == old(store).list_at(k2),
            match old(store).list_at(Self::spec_list_key(list_key@)) {
                None => final(store).list_at(Self::spec_list_key(list_key@)) is None && (r
                    matches Ok(o) && o is None),
                Some(lv) => {
                    if lv.0.len() == 0 {
                        final(store).list_at(Self::spec_list_key(list_key@)) == Some(lv) && (r
                            matches Ok(o) && o is None)
                    } else {
                        &&& final(store).list_at(Self::spec_list_key(list_key@)) == Some(
                            (lv.0.drop_last(), bump_holes(lv.1)),
                        )
                        &&& match (K::dec_of(lv.0.last().0), V::dec_of(lv.0.last().1)) {
                            (Some(k), Some(v)) => r matches Ok(o) && o matches Some(p) && p.0@
                                == k && p.1@ == v,
                            _ => r is Err,
                        }
                    }
                },
            },
    {
        let lkb = build_list_key(list_key);
        match store.owned_pop_list_tail(lkb.as_slice()) {
            None => Ok(None),
            Some((kb, vb)) => match (K::decode(kb.as_slice()), V::decode(vb.as_slice())) {
                (Ok(k), Ok(v)) => Ok(Some((k, v))),
                _ => Err(CandyError::Decode),
            },
        }
    }

    /// Reads and decodes the first item without removing it.
    pub fn peek_head(&self, store: &CandyStore, list_key: &L) -> (r: Result<
        Option<(K, V)>,
        CandyError,
    >)
        requires
            store.wf(),
            L::enc_ok(list_key@),
        ensures
            match store.list_at(Self::spec_list_key(list_key@)) {
                None => r matches Ok(o) && o is None,
                Some(lv) => {
                    if lv.0.len() == 0 {
                        r matches Ok(o) && o is None
                    } else {
                        match (K::dec_of(lv.0[0].0), V::dec_of(lv.0[0].1)) {
                            (Some(k), Some(v)) => r matches Ok(o) && o matches Some(p) && p.0@
                                == k && p.1@ == v,
                            _ => r is Err,
                        }
                    }
                },
            },
    {
        let lkb = build_list_key(list_key);
        match store.owned_peek_list_head(lkb.as_slice()) {
            None => Ok(None),
            Some((kb, vb)) => match (K::decode(kb.as_slice()), V::decode(vb.as_slice())) {
                (Ok(k), Ok(v)) => Ok(Some((k, v))),
                _ => Err(CandyError::Decode),
            },
        }
    }

    /// Reads and decodes the last item without removing it.
    pub fn peek_tail(&self, store: &CandyStore, list_key: &L) -> (r: Result<
        Option<(K, V)>,
        CandyError,
    >)
        requires
            store.wf(),
            L::enc_ok(list_key@),
        ensures
            match store.list_at(Self::spec_list_key(list_key@)) {
                None => r matches Ok(o) && o is None,
                Some(lv) => {
                    if lv.0.len() == 0 {
                        r matches Ok(o) && o is None
                    } else {
                        match (K::dec_of(lv.0.last().0), V::dec_of(lv.0.last().1)) {
                            (Some(k), Some(v)) => r matches Ok(o) && o matches Some(p) && p.0@
                                == k && p.1@ == v,
                            _ => r is Err,
                        }
                    }
                },
            },
    {
        let lkb = build_list_key(list_key);
        match store.owned_peek_list_tail(lkb.as_slice()) {
            None => Ok(None),
            Some((kb, vb)) => match (K::decode(kb.as_slice()), V::decode(vb.as_slice())) {
                (Ok(k), Ok(v)) => Ok(Some((k, v))),
                _ => Err(CandyError::Decode),
            },
        }
    }

    /// The number of items in the list.
    pub fn len(&self, store: &CandyStore, list_key: &L) -> (r: Result<usize, CandyError>)
        requires
            store.wf(),
            L::enc_ok(list_key@),
        ensures
            r matches Ok(n) && n == (match store.list_at(Self::spec_list_key(list_key@)) {
                None => 0,
                Some(lv) => lv.0.len(),
            }),
    {
        let lkb = build_list_key(list_key);
        Ok(store.owned_list_len(lkb.as_slice()))
    }

    /// Deletes the whole list as a unit, reporting whether it existed.
    pub fn discard(&self, store: &mut CandyStore, list_key: &L) -> (r: Result<bool, CandyError>)
        requires
            old(store).wf(),
            L::enc_ok(list_key@),
        ensures
            final(store).wf(),
            final(store).map == old(store).map,
            final(store).big == old(store).big,
            final(store).queues == old(store).queues,
            final(store).list_at(Self::spec_list_key(list_key@)) is None,
            forall|k2: Seq<u8>|
                k2 != Self::spec_list_key(list_key@) ==> #[trigger] final(store).list_at(k2)
                    == old(store).list_at(k2),
            r matches Ok(b) && b == (old(store).list_at(Self::spec_list_key(list_key@)) is Some),
    {
        let lkb = build_list_key(list_key);
        Ok(store.owned_discard_list(lkb.as_slice()))
    }

    /// Asks the store to reclaim the list's dead space if the thresholds in
    /// `params` are exceeded; reports whether compaction ran.
    pub fn compact_if_needed(&self, store: &mut CandyStore, list_key: &L, params: ListCompactionParams) -> (r: Result<bool, CandyError>)
        requires
            old(store).wf(),
            L::enc_ok(list_key@),
        ensures
            final(store).wf(),
            final(store).map == old(store).map,
            final(store).big == old(store).big,
            final(store).queues == old(store).queues,
            forall|k2: Seq<u8>|
                k2 != Self::spec_list_key(list_key@) ==> #[trigger] final(store).list_at(k2)
                    == old(store).list_at(k2),
            match old(store).list_at(Self::spec_list_key(list_key@)) {
                None => final(store).list_at(Self::spec_list_key(list_key@)) is None && (r
                    matches Ok(b) && b == false),
                Some(lv) => {
                    if lv.1 > 0 && lv.1 >= params.min_holes as nat {
                        final(store).list_at(Self::spec_list_key(list_key@)) == Some((lv.0, 0nat))
                            && (r matches Ok(b) && b == true)
                    } else {
                        final(store).list_at(Self::spec_list_key(list_key@)) == Some(lv) && (r
                            matches Ok(b) && b == false)
                    }
                },
            },
    {
        let lkb = build_list_key(list_key);
        Ok(store.compact_list_if_needed(lkb.as_slice(), params))
    }

    /// Runs the predicate over every decoded (key, value) pair, in list
    /// order, removing each pair it rejects. The contract pins the whole
    /// pass: on success every row was decoded, the predicate judged each
    /// pair once, and exactly the accepted rows survive in order; the first
    /// decode or predicate failure stops the scan and is the reported
    /// error, with earlier removals standing (no rollback) and the failing
    /// row and everything after it unvisited and unchanged.
    pub fn retain<F: Fn(&K, &V) -> Result<bool, CandyError>>(
        &self,
        store: &mut CandyStore,
        list_key: &L,
        func: F,
    ) -> (r: Result<(), CandyError>)
        requires
            old(store).wf(),
            L::enc_ok(list_key@),
            forall|k: &K, v: &V| #[trigger] func.requires((k, v)),
        ensures
            final(store).wf(),
            final(store).map == old(store).map,
            final(store).big == old(store).big,
            final(store).queues == old(store).queues,
            forall|k2: Seq<u8>|
                k2 != Self::spec_list_key(list_key@) ==> #[trigger] final(store).list_at(k2)
                    == old(store).list_at(k2),
            match old(store).list_at(Self::spec_list_key(list_key@)) {
                None => final(store).list_at(Self::spec_list_key(list_key@)) is None && r
                    == Ok::<(), CandyError>(()),
                Some(lv) => match r {
                    Ok(_) => final(store).list_at(Self::spec_list_key(list_key@)) matches Some(
                        lv2,
                    ) && retain_ok_outcome(func, lv.0, lv2.0),
                    Err(e) => final(store).list_at(Self::spec_list_key(list_key@)) matches Some(
                        lv2,
                    ) && retain_err_outcome(func, lv.0, lv2.0, e),
                },
            },
    {
        let ghost lk = Self::spec_list_key(list_key@);
        let lkb = build_list_key(list_key);
        let snapshot = store.owned_iter_list(lkb.as_slice());
        let n = snapshot.len();
        let ghost mut keep: Seq<bool> = Seq::empty();
        let ghost mut ks: Seq<K> = Seq::empty();
        let ghost mut vs: Seq<V> = Seq::empty();
        proof {
            if old(store).list_at(lk) is Some {
                let lv = old(store).list_at(lk).unwrap();
                assert(lv.0.take(0) =~= Seq::<(Seq<u8>, Seq<u8>)>::empty());
                assert(lv.0.skip(0) =~= lv.0);
                assert(seq_filter_by(lv.0.take(0), keep) + lv.0.skip(0) =~= lv.0);
            }
        }
        let mut j: usize = 0;
        while j < n
            invariant
                store.wf(),
                L::enc_ok(list_key@),
                lkb@ == lk,
                lk == Self::spec_list_key(list_key@),
                forall|k: &K, v: &V| #[trigger] func.requires((k, v)),
                n == snapshot@.len(),
                j <= n,
                keep.len() == j,
                ks.len() == j,
                vs.len() == j,
                store.map == old(store).map,
                store.big == old(store).big,
                store.queues == old(store).queues,
                forall|k2: Seq<u8>|
                    k2 != lk ==> #[trigger] store.list_at(k2) == old(store).list_at(k2),
                match old(store).list_at(lk) {
                    None => n == 0 && store.list_at(lk) is None,
                    Some(lv) => {
                        &&& n == lv.0.len()
                        &&& (forall|t: int|
                            0 <= t < n ==> (#[trigger] snapshot@[t]).0@ == lv.0[t].0
                                && snapshot@[t].1@ == lv.0[t].1)
                        &&& retain_scan_ok(func, lv.0.take(j as int), keep, ks, vs)
                        &&& store.list_at(lk) matches Some(cur) && cur.0 == seq_filter_by(
                            lv.0.take(j as int),
                            keep,
                        ) + lv.0.skip(j as int)
                    },
                },
            decreases n - j,
        {
            let ghost lv = old(store).list_at(lk).unwrap();
            let kd = K::decode(snapshot[j].0.as_slice());
            let vd = V::decode(snapshot[j].1.as_slice());
            match (kd, vd) {
                (Ok(k), Ok(v)) => {
                    match func(&k, &v) {
                        Ok(b) => {
                            let ghost keep0 = keep;
                            let ghost a = seq_filter_by(lv.0.take(j as int), keep0);
                            proof {
                                keep = keep0.push(b);
                                ks = ks.push(k);
                                vs = vs.push(v);
                                lemma_seq_filter_by_push(
                                    lv.0.take(j as int),
                                    keep0,
                                    lv.0[j as int],
                                    b,
                                );
                                assert(lv.0.take(j as int).push(lv.0[j as int]) =~= lv.0.take(
                                    j as int + 1,
                                ));
                                assert forall|i: int| 0 <= i < j as int + 1 implies {
                                    &&& K::dec_of(lv.0.take(j as int + 1)[i].0) == Some(
                                        (#[trigger] ks[i])@,
                                    )
                                    &&& V::dec_of(lv.0.take(j as int + 1)[i].1) == Some(vs[i]@)
                                    &&& call_ensures(func, (&ks[i], &vs[i]), Ok(keep[i]))
                                } by {
                                    if i < j as int {
                                        assert(retain_scan_ok(
                                            func,
                                            lv.0.take(j as int),
                                            keep0,
                                            ks.take(j as int),
                                            vs.take(j as int),
                                        ));
                                        assert(ks.take(j as int) =~= ks.drop_last());
                                        assert(ks[i] == ks.drop_last()[i]);
                                    }
                                }
                                assert(retain_scan_ok(func, lv.0.take(j as int + 1), keep, ks, vs));
                            }
                            if !b {
                                let ghost mid = *store;
                                let _removed = store.owned_remove_from_list(
                                    lkb.as_slice(),
                                    snapshot[j].0.as_slice(),
                                );
                                proof {
                                    let cur0 = mid.list_at(lk).unwrap().0;
                                    assert(cur0 == a + lv.0.skip(j as int));
                                    assert(lv.0.skip(j as int)[0] == lv.0[j as int]);
                                    assert(cur0[a.len() as int] == lv.0[j as int]);
                                    crate::table::lemma_tbl_get_at(
                                        cur0,
                                        lv.0[j as int].0,
                                        a.len() as int,
                                    );
                                    assert(cur0.remove(a.len() as int) =~= a + lv.0.skip(
                                        j as int + 1,
                                    ));
                                    assert(seq_filter_by(lv.0.take(j as int + 1), keep) =~= a);
                                }
                            } else {
                                proof {
                                    assert(seq_filter_by(lv.0.take(j as int + 1), keep) =~= a
                                        + seq![lv.0[j as int]]);
                                    assert((a + seq![lv.0[j as int]]) + lv.0.skip(j as int + 1)
                                        =~= a + lv.0.skip(j as int));
                                }
                            }
                        },
                        Err(e) => {
                            proof {
                                assert(retain_scan_ok(func, lv.0.take(j as int), keep, ks, vs));
                                assert(K::dec_of(lv.0[j as int].0) == Some(k@));
                                assert(V::dec_of(lv.0[j as int].1) == Some(v@));
                                assert(call_ensures(func, (&k, &v), Err(e)));
                                assert(retain_err_outcome(
                                    func,
                                    lv.0,
                                    store.list_at(lk).unwrap().0,
                                    e,
                                ));
                            }
                            return Err(e);
                        },
                    }
                },
                _ => {
                    proof {
                        assert(retain_scan_ok(func, lv.0.take(j as int), keep, ks, vs));
                        if K::dec_of(lv.0[j as int].0) is Some && V::dec_of(lv.0[j as int].1)
                            is Some {
                            assert(false);
                        }
                        assert(retain_err_outcome(
                            func,
                            lv.0,
                            store.list_at(lk).unwrap().0,
                            CandyError::Decode,
                        ));
                    }
                    return Err(CandyError::Decode);
                },
            }
            j = j + 1;
        }
        proof {
            if old(store).list_at(lk) is Some {
                let lv = old(store).list_at(lk).unwrap();
                assert(lv.0.take(n as int) =~= lv.0);
                assert(lv.0.skip(n as int) =~= Seq::<(Seq<u8>, Seq<u8>)>::empty());
                assert(seq_filter_by(lv.0.take(n as int), keep) + lv.0.skip(n as int)
                    =~= seq_filter_by(lv.0, keep));
                assert(retain_scan_ok(func, lv.0, keep, ks, vs));
                assert(retain_ok_outcome(func, lv.0, store.list_at(lk).unwrap().0));
            }
        }
        Ok(())
    }
}

} // verus!
