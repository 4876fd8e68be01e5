//! The typed single-value view. A `CandyTypedStore<K, V>` serializes typed
//! keys into the composite map-key namespace and typed values into their
//! canonical bytes, delegates to the untyped store, and decodes results on
//! the way out. The view itself is stateless: many views, of the same or of
//! different type pairs, can work over one shared store, and distinct key
//! types never collide (their tags differ).

use core::marker::PhantomData;
use vstd::prelude::*;

use crate::codec::Codec;
use crate::keys::{build_map_key, typed_map_key, CandyTypedKey};
use crate::store::{CandyStore, ReplaceStatus, SetStatus};
use crate::CandyError;

verus! {

/// A typed map over single key-value pairs of a shared untyped store.
pub struct CandyTypedStore<K, V> {
    _phantom: PhantomData<(K, V)>,
}

impl<K, V> Clone for CandyTypedStore<K, V> {
    /// Views are stateless, so a clone is just another handle.
    fn clone(&self) -> Self {
        CandyTypedStore { _phantom: PhantomData }
    }
}

impl<K: CandyTypedKey, V: Codec> CandyTypedStore<K, V> {
    /// Constructs a typed view; operations take the shared store.
    pub fn new() -> Self {
        CandyTypedStore { _phantom: PhantomData }
    }

    /// The composite byte key this view stores `k` under.
    pub open spec fn spec_key(k: K::V) -> Seq<u8> {
        typed_map_key::<K>(k)
    }

    /// Whether a value exists under the key; no decoding is attempted.
    pub fn contains(&self, store: &CandyStore, key: &K) -> (r: Result<bool, CandyError>)
        requires
            store.wf(),
            K::enc_ok(key@),
        ensures
            r matches Ok(b) && b == (store.map_val(Self::spec_key(key@)) is Some),
    {
        let kb = build_map_key(key);
        Ok(store.get_raw(kb.as_slice()).is_some())
    }

    /// Reads and decodes the value under the key. A decode failure is a
    /// reported error, never a silent default.
    pub fn get(&self, store: &CandyStore, key: &K) -> (r: Result<Option<V>, CandyError>)
        requires
            store.wf(),
            K::enc_ok(key@),
        ensures
            match store.map_val(Self::spec_key(key@)) {
                None => r matches Ok(o) && o is None,
                Some(b) => match V::dec_of(b) {
                    Some(v) => r matches Ok(o) && o matches Some(x) && x@ == v,
                    None => r is Err,
                },
            },
    {
        let kb = build_map_key(key);
        match store.get_raw(kb.as_slice()) {
            None => Ok(None),
            Some(vb) => match V::decode(vb.as_slice()) {
                Ok(x) => Ok(Some(x)),
                Err(e) => Err(e),
            },
        }
    }

    /// Unconditional upsert: stores the value's encoding under the key and
    /// returns the decoded previous value, if one existed. The write stands
    /// even when decoding the previous value fails.
    pub fn set(&self, store: &mut CandyStore, key: &K, val: &V) -> (r: Result<
        Option<V>,
        CandyError,
    >)
        requires
            old(store).wf(),
            K::enc_ok(key@),
            V::enc_ok(val@),
        ensures
            final(store).wf(),
            final(store).map_val(Self::spec_key(key@)) == Some(V::enc_of(val@)),
            forall|k2: Seq<u8>|
                k2 != Self::spec_key(key@) ==> #[trigger] final(store).map_val(k2) == old(
                    store,
                ).map_val(k2),
            final(store).big == old(store).big,
            final(store).lists == old(store).lists,
            final(store).queues == old(store).queues,
            match old(store).map_val(Self::spec_key(key@)) {
                None => r matches Ok(o) && o is None,
                Some(b) => match V::dec_of(b) {
                    Some(v) => r matches Ok(o) && o matches Some(x) && x@ == v,
                    None => r is Err,
                },
            },
    {
        let kb = build_map_key(key);
        let vb = val.encode();
        match store.set_raw(kb.as_slice(), vb.as_slice()) {
            SetStatus::CreatedNew => Ok(None),
            SetStatus::PrevValue(pb) => match V::decode(pb.as_slice()) {
                Ok(x) => Ok(Some(x)),
                Err(e) => Err(e),
            },
        }
    }

    /// Conditional upsert (compare-and-swap). With no entry present, nothing
    /// is written and the result is empty. With an expectation, the write
    /// happens only when the stored bytes equal the expected value's
    /// encoding; a mismatch leaves the store unchanged and is reported as an
    /// empty result, indistinguishable here from the absent case (the
    /// untyped layer keeps the distinction). Without an expectation an
    /// existing entry is overwritten and the previous value returned.
    pub fn replace(&self, store: &mut CandyStore, key: &K, val: &V, expected_val: Option<&V>) -> (r:
        Result<Option<V>, CandyError>)
        requires
            old(store).wf(),
            K::enc_ok(key@),
            V::enc_ok(val@),
            match expected_val {
                Some(e) => V::enc_ok(e@),
                None => true,
            },
        ensures
            final(store).wf(),
            final(store).big == old(store).big,
            final(store).lists == old(store).lists,
            final(store).queues == old(store).queues,
            match old(store).map_val(Self::spec_key(key@)) {
                None => final(store).map == old(store).map && (r matches Ok(o) && o is None),
                Some(prev) => {
                    if (match expected_val {
                        None => true,
                        Some(e) => V::enc_of(e@) == prev,
                    }) {
                        &&& final(store).map_val(Self::spec_key(key@)) == Some(V::enc_of(val@))
                        &&& forall|k2: Seq<u8>|
                            k2 != Self::spec_key(key@) ==> #[trigger] final(store).map_val(k2)
                                == old(store).map_val(k2)
                        &&& match V::dec_of(prev) {
                            Some(v) => r matches Ok(o) && o matches Some(x) && x@ == v,
                            None => r is Err,
                        }
                    } else {
                        &&& final(store).map == old(store).map
                        &&& (r matches Ok(o) && o is None)
                    }
                },
            },
    {
        let kb = build_map_key(key);
        let vb = val.encode();
        let eb: Option<Vec<u8>> = match expected_val {
            Some(e) => Some(e.encode()),
            None => None,
        };
        let ebs: Option<&[u8]> = match &eb {
            Some(b) => Some(b.as_slice()),
            None => None,
        };
        match store.replace_raw(kb.as_slice(), vb.as_slice(), ebs) {
            ReplaceStatus::DoesNotExist => Ok(None),
            ReplaceStatus::WrongValue(_) => Ok(None),
            ReplaceStatus::PrevValue(pb) => match V::decode(pb.as_slice()) {
                Ok(x) => Ok(Some(x)),
                Err(e) => Err(e),
            },
        }
    }

    /// Reads the value under the key, first storing the default's encoding
    /// if nothing is there; the default then comes back decoded as itself.
    pub fn get_or_create(&self, store: &mut CandyStore, key: &K, default_val: &V) -> (r: Result<
        V,
        CandyError,
    >)
        requires
            old(store).wf(),
            K::enc_ok(key@),
            V::enc_ok(default_val@),
        ensures
            final(store).wf(),
            final(store).big == old(store).big,
            final(store).lists == old(store).lists,
            final(store).queues == old(store).queues,
            match old(store).map_val(Self::spec_key(key@)) {
                Some(b) => {
                    &&& final(store).map == old(store).map
                    &&& match V::dec_of(b) {
                        Some(v) => r matches Ok(x) && x@ == v,
                        None => r is Err,
                    }
                },
                None => {
                    &&& final(store).map_val(Self::spec_key(key@)) == Some(
                        V::enc_of(default_val@),
                    )
                    &&& forall|k2: Seq<u8>|
                        k2 != Self::spec_key(key@) ==> #[trigger] final(store).map_val(k2)
                            == old(store).map_val(k2)
                    &&& (r matches Ok(x) && x@ == default_val@)
                },
            },
    {
        let kb = build_map_key(key);
        let db = default_val.encode();
        proof {
            V::lemma_round_trip(default_val@);
        }
        let got = store.get_or_create_raw(kb.as_slice(), db.as_slice()).value();
        match V::decode(got.as_slice()) {
            Ok(x) => Ok(x),
            Err(e) => Err(e),
        }
    }

    /// Deletes the entry under the key and returns the decoded prior value,
    /// if one existed. The removal stands even when decoding fails.
    pub fn remove(&self, store: &mut CandyStore, key: &K) -> (r: Result<Option<V>, CandyError>)
        requires
            old(store).wf(),
            K::enc_ok(key@),
        ensures
            final(store).wf(),
            final(store).big == old(store).big,
            final(store).lists == old(store).lists,
            final(store).queues == old(store).queues,
            final(store).map_val(Self::spec_key(key@)) is None,
            forall|k2: Seq<u8>|
                k2 != Self::spec_key(key@) ==> #[trigger] final(store).map_val(k2) == old(
                    store,
                ).map_val(k2),
            match old(store).map_val(Self::spec_key(key@)) {
                None => r matches Ok(o) && o is None,
                Some(b) => match V::dec_of(b) {
                    Some(v) => r matches Ok(o) && o matches Some(x) && x@ == v,
                    None => r is Err,
                },
            },
    {
        let kb = build_map_key(key);
        match store.remove_raw(kb.as_slice()) {
            None => Ok(None),
            Some(pb) => match V::decode(pb.as_slice()) {
                Ok(x) => Ok(Some(x)),
                Err(e) => Err(e),
            },
        }
    }

    /// Reads and decodes the value under the key from the out-of-band path
    /// for oversized payloads.
    pub fn get_big(&self, store: &CandyStore, key: &K) -> (r: Result<Option<V>, CandyError>)
        requires
            store.wf(),
            K::enc_ok(key@),
        ensures
            match store.big_val(Self::spec_key(key@)) {
                None => r matches Ok(o) && o is None,
                Some(b) => match V::dec_of(b) {
                    Some(v) => r matches Ok(o) && o matches Some(x) && x@ == v,
                    None => r is Err,
                },
            },
    {
        let kb = build_map_key(key);
        match store.get_big(kb.as_slice()) {
            None => Ok(None),
            Some(vb) => match V::decode(vb.as_slice()) {
                Ok(x) => Ok(Some(x)),
                Err(e) => Err(e),
            },
        }
    }

    /// Stores the value's encoding on the out-of-band path, reporting
    /// whether the entry is new (the prior big value is not fetched, as
    /// reading it back implicitly would be too costly).
    pub fn set_big(&self, store: &mut CandyStore, key: &K, val: &V) -> (r: Result<
        bool,
        CandyError,
    >)
        requires
            old(store).wf(),
            K::enc_ok(key@),
            V::enc_ok(val@),
        ensures
            final(store).wf(),
            final(store).map == old(store).map,
            final(store).lists == old(store).lists,
            final(store).queues == old(store).queues,
            final(store).big_val(Self::spec_key(key@)) == Some(V::enc_of(val@)),
            forall|k2: Seq<u8>|
                k2 != Self::spec_key(key@) ==> #[trigger] final(store).big_val(k2) == old(
                    store,
                ).big_val(k2),
            r matches Ok(b) && b == (old(store).big_val(Self::spec_key(key@)) is None),
    {
        let kb = build_map_key(key);
        let vb = val.encode();
        Ok(store.set_big(kb.as_slice(), vb.as_slice()))
    }

    /// Deletes the entry on the out-of-band path, reporting whether
    /// anything was there.
    pub fn remove_big(&self, store: &mut CandyStore, key: &K) -> (r: Result<bool, CandyError>)
        requires
            old(store).wf(),
            K::enc_ok(key@),
        ensures
            final(store).wf(),
            final(store).map == old(store).map,
            final(store).lists == old(store).lists,
            final(store).queues == old(store).queues,
            final(store).big_val(Self::spec_key(key@)) is None,
            forall|k2: Seq<u8>|
                k2 != Self::spec_key(key@) ==> #[trigger] final(store).big_val(k2) == old(
                    store,
                ).big_val(k2),
            r matches Ok(b) && b == (old(store).big_val(Self::spec_key(key@)) is Some),
    {
        let kb = build_map_key(key);
        Ok(store.remove_big(kb.as_slice()))
    }
}

} // verus!
