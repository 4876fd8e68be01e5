//! The typed index-stable double-ended queue view. A `CandyTypedDeque<L, V>`
//! addresses one queue per L-typed identifier (the list-key composition,
//! with no item keys: slots are anonymous). Each push, at either end, takes
//! the next value of one strictly increasing counter, so an index uniquely
//! and permanently names its push even after the slot is popped.

use core::marker::PhantomData;
use vstd::prelude::*;

use crate::codec::Codec;
use crate::keys::{build_list_key, typed_list_key, CandyTypedKey};
use crate::store::{max_live_idx, min_live_idx, CandyStore};
use crate::CandyError;

verus! {

/// A typed double-ended queue over a shared untyped store.
pub struct CandyTypedDeque<L, V> {
    _phantom: PhantomData<(L, V)>,
}

impl<L, V> Clone for CandyTypedDeque<L, V> {
    /// Views are stateless, so a clone is just another handle.
    fn clone(&self) -> Self {
        CandyTypedDeque { _phantom: PhantomData }
    }
}

impl<L: CandyTypedKey, V: Codec> CandyTypedDeque<L, V> {
    /// Constructs a typed view; operations take the shared store.
    pub fn new() -> Self {
        CandyTypedDeque { _phantom: PhantomData }
    }

    /// The composite byte key this view stores queue `l` under.
    pub open spec fn spec_queue_key(l: L::V) -> Seq<u8> {
        typed_list_key::<L>(l)
    }

    /// Pushes a value at the head, consuming the next index.
    pub fn push_head(&self, store: &mut CandyStore, queue_key: &L, val: &V) -> (r: Result<
        (),
        CandyError,
    >)
        requires
            old(store).wf(),
            L::enc_ok(queue_key@),
            V::enc_ok(val@),
            match old(store).queue_at(Self::spec_queue_key(queue_key@)) {
                Some(qv) => qv.1 < usize::MAX as nat,
                None => true,
            },
        ensures
            final(store).wf(),
            final(store).map == old(store).map,
            final(store).big == old(store).big,
            final(store).lists == old(store).lists,
            forall|k2: Seq<u8>|
                k2 != Self::spec_queue_key(queue_key@) ==> #[trigger] final(store).queue_at(k2)
                    == old(store).queue_at(k2),
            match old(store).queue_at(Self::spec_queue_key(queue_key@)) {
                None => final(store).queue_at(Self::spec_queue_key(queue_key@)) == Some(
                    (seq![(0nat, V::enc_of(val@))], 1nat),
                ),
                Some(qv) => final(store).queue_at(Self::spec_queue_key(queue_key@)) == Some(
                    (seq![(qv.1, V::enc_of(val@))] + qv.0, qv.1 + 1),
                ),
            },
            r is Ok,
    {
        let qkb = build_list_key(queue_key);
        let vb = val.encode();
        store.push_to_queue_head(qkb.as_slice(), vb.as_slice());
        Ok(())
    }

    /// Pushes a value at the tail, consuming the next index.
    pub fn push_tail(&self, store: &mut CandyStore, queue_key: &L, val: &V) -> (r: Result<
        (),
        CandyError,
    >)
        requires
            old(store).wf(),
            L::enc_ok(queue_key@),
            V::enc_ok(val@),
            match old(store).queue_at(Self::spec_queue_key(queue_key@)) {
                Some(qv) => qv.1 < usize::MAX as nat,
                None => true,
            },
        ensures
            final(store).wf(),
            final(store).map == old(store).map,
            final(store).big == old(store).big,
            final(store).lists == old(store).lists,
            forall|k2: Seq<u8>|
                k2 != Self::spec_queue_key(queue_key@) ==> #[trigger] final(store).queue_at(k2)
                    == old(store).queue_at(k2),
            match old(store).queue_at(Self::spec_queue_key(queue_key@)) {
                None => final(store).queue_at(Self::spec_queue_key(queue_key@)) == Some(
                    (seq![(0nat, V::enc_of(val@))], 1nat),
                ),
                Some(qv) => final(store).queue_at(Self::spec_queue_key(queue_key@)) == Some(
                    (qv.0.push((qv.1, V::enc_of(val@))), qv.1 + 1),
                ),
            },
            r is Ok,
    {
        let qkb = build_list_key(queue_key);
        let vb = val.encode();
        store.push_to_queue_tail(qkb.as_slice(), vb.as_slice());
        Ok(())
    }

    /// Pops the head slot, returning its permanently unique index with the
    /// decoded value.
    pub fn pop_head_with_idx(&self, store: &mut CandyStore, queue_key: &L) -> (r: Result<
        Option<(usize, V)>,
        CandyError,
    >)
        requires
            old(store).wf(),
            L::enc_ok(queue_key@),
        ensures
            final(store).wf(),
            final(store).map == old(store).map,
            final(store).big == old(store).big,
            final(store).lists == old(store).lists,
            forall|k2: Seq<u8>|
                k2 != Self::spec_queue_key(queue_key@) ==> #[trigger] final(store).queue_at(k2)
                    == old(store).queue_at(k2),
            match old(store).queue_at(Self::spec_queue_key(queue_key@)) {
                None => final(store).queue_at(Self::spec_queue_key(queue_key@)) is None && (r
                    matches Ok(o) && o is None),
                Some(qv) => {
                    if qv.0.len() == 0 {
                        final(store).queue_at(Self::spec_queue_key(queue_key@)) == Some(qv) && (
                        r matches Ok(o) && o is None)
                    } else {
                        &&& final(store).queue_at(Self::spec_queue_key(queue_key@)) == Some(
                            (qv.0.drop_first(), qv.1),
                        )
                        &&& match V::dec_of(qv.0[0].1) {
                            Some(v) => r matches Ok(o) && o matches Some(p) && p.0 as nat
                                == qv.0[0].0 && p.1@ == v,
                            None => r is Err,
                        }
                    }
                },
            },
    {
        let qkb = build_list_key(queue_key);
        match store.pop_queue_head_with_idx(qkb.as_slice()) {
            None => Ok(None),
            Some((idx, vb)) => match V::decode(vb.as_slice()) {
                Ok(v) => Ok(Some((idx, v))),
                Err(e) => Err(e),
            },
        }
    }

    /// Pops the head slot, returning the decoded value alone.
    pub fn pop_head(&self, store: &mut CandyStore, queue_key: &L) -> (r: Result<
        Option<V>,
        CandyError,
    >)
        requires
            old(store).wf(),
            L::enc_ok(queue_key@),
        ensures
            final(store).wf(),
            final(store).map == old(store).map,
            final(store).big == old(store).big,
            final(store).lists == old(store).lists,
            forall|k2: Seq<u8>|
                k2 != Self::spec_queue_key(queue_key@) ==> #[trigger] final(store).queue_at(k2)
                    == old(store).queue_at(k2),
            match old(store).queue_at(Self::spec_queue_key(queue_key@)) {
                None => final(store).queue_at(Self::spec_queue_key(queue_key@)) is None && (r
                    matches Ok(o) && o is None),
                Some(qv) => {
                    if qv.0.len() == 0 {
                        final(store).queue_at(Self::spec_queue_key(queue_key@)) == Some(qv) && (
                        r matches Ok(o) && o is None)
                    } else {
                        &&& final(store).queue_at(Self::spec_queue_key(queue_key@)) == Some(
                            (qv.0.drop_first(), qv.1),
                        )
                        &&& match V::dec_of(qv.0[0].1) {
                            Some(v) => r matches Ok(o) && o matches Some(x) && x@ == v,
                            None => r is Err,
                        }
                    }
                },
            },
    {
        match self.pop_head_with_idx(store, queue_key) {
            Ok(Some((_idx, v))) => Ok(Some(v)),
            Ok(None) => Ok(None),
            Err(e) => Err(e),
        }
    }

    /// Pops the tail slot, returning its permanently unique index with the
    /// decoded value.
    pub fn pop_tail_with_idx(&self, store: &mut CandyStore, queue_key: &L) -> (r: Result<
        Option<(usize, V)>,
        CandyError,
    >)
        requires
            old(store).wf(),
            L::enc_ok(queue_key@),
        ensures
            final(store).wf(),
            final(store).map == old(store).map,
            final(store).big == old(store).big,
            final(store).lists == old(store).lists,
            forall|k2: Seq<u8>|
                k2 != Self::spec_queue_key(queue_key@) ==> #[trigger] final(store).queue_at(k2)
                    == old(store).queue_at(k2),
            match old(store).queue_at(Self::spec_queue_key(queue_key@)) {
                None => final(store).queue_at(Self::spec_queue_key(queue_key@)) is None && (r
                    matches Ok(o) && o is None),
                Some(qv) => {
                    if qv.0.len() == 0 {
                        final(store).queue_at(Self::spec_queue_key(queue_key@)) == Some(qv) && (
                        r matches Ok(o) && o is None)
                    } else {
                        &&& final(store).queue_at(Self::spec_queue_key(queue_key@)) == Some(
                            (qv.0.drop_last(), qv.1),
                        )
                        &&& match V::dec_of(qv.0.last().1) {
                            Some(v) => r matches Ok(o) && o matches Some(p) && p.0 as nat
                                == qv.0.last().0 && p.1@ == v,
                            None => r is Err,
                        }
                    }
                },
            },
    {
        let qkb = build_list_key(queue_key);
        match store.pop_queue_tail_with_idx(qkb.as_slice()) {
            None => Ok(None),
            Some((idx, vb)) => match V::decode(vb.as_slice()) {
                Ok(v) => Ok(Some((idx, v))),
                Err(e) => Err(e),
            },
        }
    }

    /// Pops the tail slot, returning the decoded value alone.
    pub fn pop_tail(&self, store: &mut CandyStore, queue_key: &L) -> (r: Result<
        Option<V>,
        CandyError,
    >)
        requires
            old(store).wf(),
            L::enc_ok(queue_key@),
        ensures
            final(store).wf(),
            final(store).map == old(store).map,
            final(store).big == old(store).big,
            final(store).lists == old(store).lists,
            forall|k2: Seq<u8>|
                k2 != Self::spec_queue_key(queue_key@) ==> #[trigger] final(store).queue_at(k2)
                    == old(store).queue_at(k2),
            match old(store).queue_at(Self::spec_queue_key(queue_key@)) {
                None => final(store).queue_at(Self::spec_queue_key(queue_key@)) is None && (r
                    matches Ok(o) && o is None),
                Some(qv) => {
                    if qv.0.len() == 0 {
                        final(store).queue_at(Self::spec_queue_key(queue_key@)) == Some(qv) && (
                        r matches Ok(o) && o is None)
                    } else {
                        &&& final(store).queue_at(Self::spec_queue_key(queue_key@)) == Some(
                            (qv.0.drop_last(), qv.1),
                        )
                        &&& match V::dec_of(qv.0.last().1) {
                            Some(v) => r matches Ok(o) && o matches Some(x) && x@ == v,
                            None => r is Err,
                        }
                    }
                },
            },
    {
        match self.pop_tail_with_idx(store, queue_key) {
            Ok(Some((_idx, v))) => Ok(Some(v)),
            Ok(None) => Ok(None),
            Err(e) => Err(e),
        }
    }

    /// Reads the head slot and its index without removing it.
    pub fn peek_head_with_idx(&self, store: &CandyStore, queue_key: &L) -> (r: Result<
        Option<(usize, V)>,
        CandyError,
    >)
        requires
            store.wf(),
            L::enc_ok(queue_key@),
        ensures
            match store.queue_at(Self::spec_queue_key(queue_key@)) {
                None => r matches Ok(o) && o is None,
                Some(qv) => {
                    if qv.0.len() == 0 {
                        r matches Ok(o) && o is None
                    } else {
                        match V::dec_of(qv.0[0].1) {
                            Some(v) => r matches Ok(o) && o matches Some(p) && p.0 as nat
                                == qv.0[0].0 && p.1@ == v,
                            None => r is Err,
                        }
                    }
                },
            },
    {
        let qkb = build_list_key(queue_key);
        match store.peek_queue_head_with_idx(qkb.as_slice()) {
            None => Ok(None),
            Some((idx, vb)) => match V::decode(vb.as_slice()) {
                Ok(v) => Ok(Some((idx, v))),
                Err(e) => Err(e),
            },
        }
    }

    /// Reads the head value without removing it.
    pub fn peek_head(&self, store: &CandyStore, queue_key: &L) -> (r: Result<Option<V>, CandyError>)
        requires
            store.wf(),
            L::enc_ok(queue_key@),
        ensures
            match store.queue_at(Self::spec_queue_key(queue_key@)) {
                None => r matches Ok(o) && o is None,
                Some(qv) => {
                    if qv.0.len() == 0 {
                        r matches Ok(o) && o is None
                    } else {
                        match V::dec_of(qv.0[0].1) {
                            Some(v) => r matches Ok(o) && o matches Some(x) && x@ == v,
                            None => r is Err,
                        }
                    }
                },
            },
    {
        match self.peek_head_with_idx(store, queue_key) {
            Ok(Some((_idx, v))) => Ok(Some(v)),
            Ok(None) => Ok(None),
            Err(e) => Err(e),
        }
    }

    /// Reads the tail slot and its index without removing it.
    pub fn peek_tail_with_idx(&self, store: &CandyStore, queue_key: &L) -> (r: Result<
        Option<(usize, V)>,
        CandyError,
    >)
        requires
            store.wf(),
            L::enc_ok(queue_key@),
        ensures
            match store.queue_at(Self::spec_queue_key(queue_key@)) {
                None => r matches Ok(o) && o is None,
                Some(qv) => {
                    if qv.0.len() == 0 {
                        r matches Ok(o) && o is None
                    } else {
                        match V::dec_of(qv.0.last().1) {
                            Some(v) => r matches Ok(o) && o matches Some(p) && p.0 as nat
                                == qv.0.last().0 && p.1@ == v,
                            None => r is Err,
                        }
                    }
                },
            },
    {
        let qkb = build_list_key(queue_key);
        match store.peek_queue_tail_with_idx(qkb.as_slice()) {
            None => Ok(None),
            Some((idx, vb)) => match V::decode(vb.as_slice()) {
                Ok(v) => Ok(Some((idx, v))),
                Err(e) => Err(e),
            },
        }
    }

    /// Reads the tail value without removing it.
    pub fn peek_tail(&self, store: &CandyStore, queue_key: &L) -> (r: Result<Option<V>, CandyError>)
        requires
            store.wf(),
            L::enc_ok(queue_key@),
        ensures
            match store.queue_at(Self::spec_queue_key(queue_key@)) {
                None => r matches Ok(o) && o is None,
                Some(qv) => {
                    if qv.0.len() == 0 {
                        r matches Ok(o) && o is None
                    } else {
                        match V::dec_of(qv.0.last().1) {
                            Some(v) => r matches Ok(o) && o matches Some(x) && x@ == v,
                            None => r is Err,
                        }
                    }
                },
            },
    {
        match self.peek_tail_with_idx(store, queue_key) {
            Ok(Some((_idx, v))) => Ok(Some(v)),
            Ok(None) => Ok(None),
            Err(e) => Err(e),
        }
    }

    /// All (index, decoded value) slots, head to tail. Each element decodes
    /// independently.
    pub fn iter(&self, store: &CandyStore, queue_key: &L) -> (r: Vec<
        Result<(usize, V), CandyError>,
    >)
        requires
            store.wf(),
            L::enc_ok(queue_key@),
        ensures
            match store.queue_at(Self::spec_queue_key(queue_key@)) {
                None => r@.len() == 0,
                Some(qv) => {
                    &&& r@.len() == qv.0.len()
                    &&& forall|i: int|
                        0 <= i < qv.0.len() ==> (match V::dec_of(qv.0[i].1) {
                            Some(v) => (#[trigger] r@[i]) matches Ok(p) && p.0 as nat
                                == qv.0[i].0 && p.1@ == v,
                            None => r@[i] is Err,
                        })
                },
            },
    {
        let qkb = build_list_key(queue_key);
        let raw = store.iter_queue(qkb.as_slice());
        let n = raw.len();
        let mut r: Vec<Result<(usize, V), CandyError>> = Vec::new();
        let mut j: usize = 0;
        while j < n
            invariant
                n == raw@.len(),
                j <= n,
                r@.len() == j,
                forall|t: int|
                    0 <= t < j ==> (match V::dec_of(raw@[t].1@) {
                        Some(v) => (#[trigger] r@[t]) matches Ok(p) && p.0 == raw@[t].0 && p.1@
                            == v,
                        None => r@[t] is Err,
                    }),
            decreases n - j,
        {
            match V::decode(raw[j].1.as_slice()) {
                Ok(v) => r.push(Ok((raw[j].0, v))),
                Err(_) => r.push(Err(CandyError::Decode)),
            }
            j = j + 1;
        }
        r
    }

    /// All (index, decoded value) slots, tail to head.
    pub fn iter_backwards(&self, store: &CandyStore, queue_key: &L) -> (r: Vec<
        Result<(usize, V), CandyError>,
    >)
        requires
            store.wf(),
            L::enc_ok(queue_key@),
        ensures
            match store.queue_at(Self::spec_queue_key(queue_key@)) {
                None => r@.len() == 0,
                Some(qv) => {
                    &&& r@.len() == qv.0.len()
                    &&& forall|i: int|
                        0 <= i < qv.0.len() ==> (match V::dec_of(qv.0[qv.0.len() - 1 - i].1) {
                            Some(v) => (#[trigger] r@[i]) matches Ok(p) && p.0 as nat
                                == qv.0[qv.0.len() - 1 - i].0 && p.1@ == v,
                            None => r@[i] is Err,
                        })
                },
            },
    {
        let qkb = build_list_key(queue_key);
        let raw = store.iter_queue_backwards(qkb.as_slice());
        let n = raw.len();
        let mut r: Vec<Result<(usize, V), CandyError>> = Vec::new();
        let mut j: usize = 0;
        while j < n
            invariant
                n == raw@.len(),
                j <= n,
                r@.len() == j,
                forall|t: int|
                    0 <= t < j ==> (match V::dec_of(raw@[t].1@) {
                        Some(v) => (#[trigger] r@[t]) matches Ok(p) && p.0 == raw@[t].0 && p.1@
                            == v,
                        None => r@[t] is Err,
                    }),
            decreases n - j,
        {
            match V::decode(raw[j].1.as_slice()) {
                Ok(v) => r.push(Ok((raw[j].0, v))),
                Err(_) => r.push(Err(CandyError::Decode)),
            }
            j = j + 1;
        }
        r
    }

    /// The number of live slots in the queue.
    pub fn len(&self, store: &CandyStore, queue_key: &L) -> (r: Result<usize, CandyError>)
        requires
            store.wf(),
            L::enc_ok(queue_key@),
        ensures
            r matches Ok(n) && n == (match store.queue_at(Self::spec_queue_key(queue_key@)) {
                None => 0,
                Some(qv) => qv.0.len(),
            }),
    {
        let qkb = build_list_key(queue_key);
        Ok(store.queue_len(qkb.as_slice()))
    }

    /// The half-open interval of currently valid indices: the oldest live
    /// index through one past the newest. Empty and absent queues yield an
    /// empty interval.
    pub fn range(&self, store: &CandyStore, queue_key: &L) -> (r: Result<
        core::ops::Range<usize>,
        CandyError,
    >)
        requires
            store.wf(),
            L::enc_ok(queue_key@),
        ensures
            r matches Ok(rg) && (match store.queue_at(Self::spec_queue_key(queue_key@)) {
                None => rg.start == 0 && rg.end == 0,
                Some(qv) => {
                    if qv.0.len() == 0 {
                        rg.start as nat == qv.1 && rg.end as nat == qv.1
                    } else {
                        rg.start as nat == min_live_idx(qv.0) && rg.end as nat == max_live_idx(
                            qv.0,
                        ) + 1
                    }
                },
            }),
    {
        let qkb = build_list_key(queue_key);
        Ok(store.queue_range(qkb.as_slice()))
    }
}

} // verus!
