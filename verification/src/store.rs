//! The untyped store: flat byte keys and byte values, ordered lists of
//! (item-key, value) pairs, and index-stable double-ended queues, all held in
//! memory. Every operation's contract pins the new state and the result
//! exactly, over the store's abstract view; the typed wrappers build on these
//! contracts without looking inside.

use vstd::prelude::*;

use crate::table::{
    lemma_tbl_get_absent, lemma_tbl_get_at, lemma_tbl_get_push, lemma_tbl_get_remove,
    lemma_tbl_get_update, tbl_distinct, tbl_get, tbl_has, tbl_idx, Table,
};
use crate::wire::bytes_eq;
use vstd::slice::slice_to_vec;

verus! {

/// What an unconditional write found: nothing, or the previous value.
#[derive(Debug)]
pub enum SetStatus {
    CreatedNew,
    PrevValue(Vec<u8>),
}

/// What a conditional write found: no entry at all, the previous value (the
/// write happened), or a stored value that did not match the expectation (no
/// write happened). The three cases stay distinct here; the typed layer
/// collapses the last two empty-handed cases into one.
#[derive(Debug)]
pub enum ReplaceStatus {
    DoesNotExist,
    PrevValue(Vec<u8>),
    WrongValue(Vec<u8>),
}

/// What a read-or-insert found: the value already there, or the freshly
/// inserted default.
#[derive(Debug)]
pub enum GetOrCreateStatus {
    ExistingValue(Vec<u8>),
    CreatedNew(Vec<u8>),
}

impl GetOrCreateStatus {
    /// The carried bytes, whichever way they got there.
    pub open spec fn spec_value(self) -> Seq<u8> {
        match self {
            GetOrCreateStatus::ExistingValue(v) => v@,
            GetOrCreateStatus::CreatedNew(v) => v@,
        }
    }

    /// Unwraps the carried bytes.
    pub fn value(self) -> (r: Vec<u8>)
        ensures
            r@ == self.spec_value(),
    {
        match self {
            GetOrCreateStatus::ExistingValue(v) => v,
            GetOrCreateStatus::CreatedNew(v) => v,
        }
    }
}

/// Thresholds for reclaiming a list's dead space: compaction runs once at
/// least `min_holes` slots have been freed by removals since the last run.
#[derive(Clone, Copy, Debug)]
pub struct ListCompactionParams {
    pub min_holes: usize,
}

impl Default for ListCompactionParams {
    fn default() -> (r: Self)
        ensures
            r.min_holes == 64,
    {
        ListCompactionParams { min_holes: 64 }
    }
}

/// One list: its (item key, value) rows in order, and the count of slots
/// freed by removals and pops since the last compaction.
pub struct ListState {
    pub items: Table<Vec<u8>>,
    pub holes: usize,
}

impl View for ListState {
    type V = (Seq<(Seq<u8>, Seq<u8>)>, nat);

    open spec fn view(&self) -> (Seq<(Seq<u8>, Seq<u8>)>, nat) {
        (self.items.entries(), self.holes as nat)
    }
}

/// One queue slot: the index assigned at push time and the value.
pub struct QueueItem {
    pub idx: usize,
    pub val: Vec<u8>,
}

/// One queue: its live slots in head-to-tail order, and the counter handing
/// out the next index. Both ends draw from the one counter, so pushes at
/// either end sit in a single strictly increasing index space.
pub struct QueueState {
    pub items: Vec<QueueItem>,
    pub next: usize,
}

impl View for QueueState {
    type V = (Seq<(nat, Seq<u8>)>, nat);

    open spec fn view(&self) -> (Seq<(nat, Seq<u8>)>, nat) {
        (self.items@.map(|i: int, q: QueueItem| (q.idx as nat, q.val@)), self.next as nat)
    }
}

/// A well-formed queue view: every live index lies below the next-index
/// counter, and no two live slots share an index.
pub open spec fn queue_view_wf(qv: (Seq<(nat, Seq<u8>)>, nat)) -> bool {
    &&& forall|i: int| 0 <= i < qv.0.len() ==> (#[trigger] qv.0[i]).0 < qv.1
    &&& forall|i: int, j: int|
        0 <= i < j < qv.0.len() ==> (#[trigger] qv.0[i]).0 != (#[trigger] qv.0[j]).0
}

/// The untyped store: a flat map, an out-of-band map for big values, the
/// lists and the queues, each keyed by byte strings.
pub struct CandyStore {
    pub map: Table<Vec<u8>>,
    pub big: Table<Vec<u8>>,
    pub lists: Table<ListState>,
    pub queues: Table<QueueState>,
}

impl CandyStore {
    /// The flat map's value under `k`, if any.
    pub open spec fn map_val(self, k: Seq<u8>) -> Option<Seq<u8>> {
        tbl_get(self.map.entries(), k)
    }

    /// The big-value store's value under `k`, if any.
    pub open spec fn big_val(self, k: Seq<u8>) -> Option<Seq<u8>> {
        tbl_get(self.big.entries(), k)
    }

    /// The list under `k`, if any: its rows in order and its holes count.
    pub open spec fn list_at(self, k: Seq<u8>) -> Option<(Seq<(Seq<u8>, Seq<u8>)>, nat)> {
        tbl_get(self.lists.entries(), k)
    }

    /// The queue under `k`, if any: its slots in order and its next index.
    pub open spec fn queue_at(self, k: Seq<u8>) -> Option<(Seq<(nat, Seq<u8>)>, nat)> {
        tbl_get(self.queues.entries(), k)
    }

    /// Well-formedness: unique keys throughout, unique item keys within each
    /// list, and well-formed index bookkeeping within each queue.
    pub open spec fn wf(self) -> bool {
        &&& self.map.wf()
        &&& self.big.wf()
        &&& self.lists.wf()
        &&& self.queues.wf()
        &&& forall|k: Seq<u8>| #[trigger] self.list_at(k) matches Some(lv) ==> tbl_distinct(lv.0)
        &&& forall|k: Seq<u8>| #[trigger] self.queue_at(k) matches Some(qv) ==> queue_view_wf(qv)
    }

    /// Well-formedness carries over to a store whose lists and queues are
    /// unchanged, as long as its flat tables keep their keys distinct.
    pub proof fn lemma_wf_frame(s1: CandyStore, s2: CandyStore)
        requires
            s1.wf(),
            s2.map.wf(),
            s2.big.wf(),
            s2.lists == s1.lists,
            s2.queues == s1.queues,
        ensures
            s2.wf(),
    {
        assert forall|k: Seq<u8>| #[trigger] s2.list_at(k) == s1.list_at(k) by {}
        assert forall|k: Seq<u8>| #[trigger] s2.queue_at(k) == s1.queue_at(k) by {}
    }

    /// An empty store.
    pub fn new() -> (r: Self)
        ensures
            r.wf(),
            forall|k: Seq<u8>| #[trigger] r.map_val(k) is None,
            forall|k: Seq<u8>| #[trigger] r.big_val(k) is None,
            forall|k: Seq<u8>| #[trigger] r.list_at(k) is None,
            forall|k: Seq<u8>| #[trigger] r.queue_at(k) is None,
    {
        let r = CandyStore {
            map: Table::new(),
            big: Table::new(),
            lists: Table::new(),
            queues: Table::new(),
        };
        proof {
            assert forall|k: Seq<u8>| #[trigger] r.map_val(k) is None by {
                lemma_tbl_get_absent(r.map.entries(), k);
            }
            assert forall|k: Seq<u8>| #[trigger] r.big_val(k) is None by {
                lemma_tbl_get_absent(r.big.entries(), k);
            }
            assert forall|k: Seq<u8>| #[trigger] r.list_at(k) is None by {
                lemma_tbl_get_absent(r.lists.entries(), k);
            }
            assert forall|k: Seq<u8>| #[trigger] r.queue_at(k) is None by {
                lemma_tbl_get_absent(r.queues.entries(), k);
            }
        }
        r
    }

    /// Reads the flat map.
    pub fn get_raw(&self, key: &[u8]) -> (r: Option<Vec<u8>>)
        requires
            self.wf(),
        ensures
            match r {
                Some(v) => self.map_val(key@) == Some(v@),
                None => self.map_val(key@) is None,
            },
    {
        match self.map.find(key) {
            Some(i) => {
                proof {
                    lemma_tbl_get_at(self.map.entries(), key@, i as int);
                }
                Some(slice_to_vec(self.map.val_at(i).as_slice()))
            },
            None => {
                proof {
                    lemma_tbl_get_absent(self.map.entries(), key@);
                }
                None
            },
        }
    }

    /// Writes the flat map unconditionally, reporting what was there.
    pub fn set_raw(&mut self, key: &[u8], val: &[u8]) -> (r: SetStatus)
        requires
            old(self).wf(),
        ensures
            final(self).wf(),
            final(self).map_val(key@) == Some(val@),
            forall|k2: Seq<u8>|
                k2 != key@ ==> #[trigger] final(self).map_val(k2) == old(self).map_val(k2),
            final(self).big == old(self).big,
            final(self).lists == old(self).lists,
            final(self).queues == old(self).queues,
            match r {
                SetStatus::PrevValue(v) => old(self).map_val(key@) == Some(v@),
                SetStatus::CreatedNew => old(self).map_val(key@) is None,
            },
    {
        let ghost old_entries = self.map.entries();
        let vbytes = slice_to_vec(val);
        match self.map.find(key) {
            Some(i) => {
                proof {
                    lemma_tbl_get_at(old_entries, key@, i as int);
                }
                let prev = self.map.replace_at(i, vbytes);
                proof {
                    assert forall|k2: Seq<u8>| #[trigger]
                        tbl_get(self.map.entries(), k2) == (if k2 == key@ {
                            Some(val@)
                        } else {
                            tbl_get(old_entries, k2)
                        }) by {
                        lemma_tbl_get_update(old_entries, i as int, val@, k2);
                    }
                    CandyStore::lemma_wf_frame(*old(self), *self);
                }
                SetStatus::PrevValue(prev)
            },
            None => {
                proof {
                    lemma_tbl_get_absent(old_entries, key@);
                }
                self.map.push_row(slice_to_vec(key), vbytes);
                proof {
                    assert forall|k2: Seq<u8>| #[trigger]
                        tbl_get(self.map.entries(), k2) == (if k2 == key@ {
                            Some(val@)
                        } else {
                            tbl_get(old_entries, k2)
                        }) by {
                        lemma_tbl_get_push(old_entries, key@, val@, k2);
                    }
                    CandyStore::lemma_wf_frame(*old(self), *self);
                }
                SetStatus::CreatedNew
            },
        }
    }

    /// Writes the flat map only when the expectation holds: with no
    /// expectation any existing entry is overwritten; with one, only a
    /// stored value equal to it is. Reports exactly which case held.
    pub fn replace_raw(&mut self, key: &[u8], val: &[u8], expected: Option<&[u8]>) -> (r:
        ReplaceStatus)
        requires
            old(self).wf(),
        ensures
            final(self).wf(),
            final(self).big == old(self).big,
            final(self).lists == old(self).lists,
            final(self).queues == old(self).queues,
            match old(self).map_val(key@) {
                None => final(self).map == old(self).map && (r matches
                ReplaceStatus::DoesNotExist),
                Some(prev) => {
                    if (match expected {
                        None => true,
                        Some(e) => e@ == prev,
                    }) {
                        &&& final(self).map_val(key@) == Some(val@)
                        &&& forall|k2: Seq<u8>|
                            k2 != key@ ==> #[trigger] final(self).map_val(k2) == old(
                                self,
                            ).map_val(k2)
                        &&& (r matches ReplaceStatus::PrevValue(v) && v@ == prev)
                    } else {
                        &&& final(self).map == old(self).map
                        &&& (r matches ReplaceStatus::WrongValue(v) && v@ == prev)
                    }
                },
            },
    {
        let ghost old_entries = self.map.entries();
        match self.map.find(key) {
            None => {
                proof {
                    lemma_tbl_get_absent(old_entries, key@);
                }
                ReplaceStatus::DoesNotExist
            },
            Some(i) => {
                proof {
                    lemma_tbl_get_at(old_entries, key@, i as int);
                }
                let matches_expected = match expected {
                    None => true,
                    Some(e) => bytes_eq(self.map.val_at(i).as_slice(), e),
                };
                if matches_expected {
                    let prev = self.map.replace_at(i, slice_to_vec(val));
                    proof {
                        assert forall|k2: Seq<u8>| #[trigger]
                            tbl_get(self.map.entries(), k2) == (if k2 == key@ {
                                Some(val@)
                            } else {
                                tbl_get(old_entries, k2)
                            }) by {
                            lemma_tbl_get_update(old_entries, i as int, val@, k2);
                        }
                        CandyStore::lemma_wf_frame(*old(self), *self);
                    }
                    ReplaceStatus::PrevValue(prev)
                } else {
                    ReplaceStatus::WrongValue(slice_to_vec(self.map.val_at(i).as_slice()))
                }
            },
        }
    }

    /// Reads the flat map, inserting the default first if nothing is there.
    pub fn get_or_create_raw(&mut self, key: &[u8], default_val: &[u8]) -> (r: GetOrCreateStatus)
        requires
            old(self).wf(),
        ensures
            final(self).wf(),
            final(self).big == old(self).big,
            final(self).lists == old(self).lists,
            final(self).queues == old(self).queues,
            match old(self).map_val(key@) {
                Some(prev) => {
                    &&& final(self).map == old(self).map
                    &&& (r matches GetOrCreateStatus::ExistingValue(v) && v@ == prev)
                },
                None => {
                    &&& final(self).map_val(key@) == Some(default_val@)
                    &&& forall|k2: Seq<u8>|
                        k2 != key@ ==> #[trigger] final(self).map_val(k2) == old(self).map_val(
                            k2,
                        )
                    &&& (r matches GetOrCreateStatus::CreatedNew(v) && v@ == default_val@)
                },
            },
    {
        let ghost old_entries = self.map.entries();
        match self.map.find(key) {
            Some(i) => {
                proof {
                    lemma_tbl_get_at(old_entries, key@, i as int);
                }
                GetOrCreateStatus::ExistingValue(slice_to_vec(self.map.val_at(i).as_slice()))
            },
            None => {
                proof {
                    lemma_tbl_get_absent(old_entries, key@);
                }
                self.map.push_row(slice_to_vec(key), slice_to_vec(default_val));
                proof {
                    assert forall|k2: Seq<u8>| #[trigger]
                        tbl_get(self.map.entries(), k2) == (if k2 == key@ {
                            Some(default_val@)
                        } else {
                            tbl_get(old_entries, k2)
                        }) by {
                        lemma_tbl_get_push(old_entries, key@, default_val@, k2);
                    }
                    CandyStore::lemma_wf_frame(*old(self), *self);
                }
                GetOrCreateStatus::CreatedNew(slice_to_vec(default_val))
            },
        }
    }

    /// Deletes from the flat map, reporting what was there.
    pub fn remove_raw(&mut self, key: &[u8]) -> (r: Option<Vec<u8>>)
        requires
            old(self).wf(),
        ensures
            final(self).wf(),
            final(self).big == old(self).big,
            final(self).lists == old(self).lists,
            final(self).queues == old(self).queues,
            final(self).map_val(key@) is None,
            forall|k2: Seq<u8>|
                k2 != key@ ==> #[trigger] final(self).map_val(k2) == old(self).map_val(k2),
            match r {
                Some(v) => old(self).map_val(key@) == Some(v@),
                None => old(self).map_val(key@) is None,
            },
    {
        let ghost old_entries = self.map.entries();
        match self.map.find(key) {
            None => {
                proof {
                    lemma_tbl_get_absent(old_entries, key@);
                }
                None
            },
            Some(i) => {
                proof {
                    lemma_tbl_get_at(old_entries, key@, i as int);
                }
                let row = self.map.remove_at(i);
                proof {
                    assert forall|k2: Seq<u8>| #[trigger]
                        tbl_get(self.map.entries(), k2) == (if k2 == key@ {
                            None::<Seq<u8>>
                        } else {
                            tbl_get(old_entries, k2)
                        }) by {
                        lemma_tbl_get_remove(old_entries, i as int, k2);
                    }
                    CandyStore::lemma_wf_frame(*old(self), *self);
                }
                Some(row.val)
            },
        }
    }

    /// Reads the big-value store.
    pub fn get_big(&self, key: &[u8]) -> (r: Option<Vec<u8>>)
        requires
            self.wf(),
        ensures
            match r {
                Some(v) => self.big_val(key@) == Some(v@),
                None => self.big_val(key@) is None,
            },
    {
        match self.big.find(key) {
            Some(i) => {
                proof {
                    lemma_tbl_get_at(self.big.entries(), key@, i as int);
                }
                Some(slice_to_vec(self.big.val_at(i).as_slice()))
            },
            None => {
                proof {
                    lemma_tbl_get_absent(self.big.entries(), key@);
                }
                None
            },
        }
    }

    /// Writes the big-value store, reporting whether the entry is new.
    pub fn set_big(&mut self, key: &[u8], val: &[u8]) -> (r: bool)
        requires
            old(self).wf(),
        ensures
            final(self).wf(),
            final(self).map == old(self).map,
            final(self).lists == old(self).lists,
            final(self).queues == old(self).queues,
            final(self).big_val(key@) == Some(val@),
            forall|k2: Seq<u8>|
                k2 != key@ ==> #[trigger] final(self).big_val(k2) == old(self).big_val(k2),
            r == (old(self).big_val(key@) is None),
    {
        let ghost old_entries = self.big.entries();
        match self.big.find(key) {
            Some(i) => {
                proof {
                    lemma_tbl_get_at(old_entries, key@, i as int);
                }
                let _prev = self.big.replace_at(i, slice_to_vec(val));
                proof {
                    assert forall|k2: Seq<u8>| #[trigger]
                        tbl_get(self.big.entries(), k2) == (if k2 == key@ {
                            Some(val@)
                        } else {
                            tbl_get(old_entries, k2)
                        }) by {
                        lemma_tbl_get_update(old_entries, i as int, val@, k2);
                    }
                    CandyStore::lemma_wf_frame(*old(self), *self);
                }
                false
            },
            None => {
                proof {
                    lemma_tbl_get_absent(old_entries, key@);
                }
                self.big.push_row(slice_to_vec(key), slice_to_vec(val));
                proof {
                    assert forall|k2: Seq<u8>| #[trigger]
                        tbl_get(self.big.entries(), k2) == (if k2 == key@ {
                            Some(val@)
                        } else {
                            tbl_get(old_entries, k2)
                        }) by {
                        lemma_tbl_get_push(old_entries, key@, val@, k2);
                    }
                    CandyStore::lemma_wf_frame(*old(self), *self);
                }
                true
            },
        }
    }

    /// Deletes from the big-value store, reporting whether anything was
    /// there.
    pub fn remove_big(&mut self, key: &[u8]) -> (r: bool)
        requires
            old(self).wf(),
        ensures
            final(self).wf(),
            final(self).map == old(self).map,
            final(self).lists == old(self).lists,
            final(self).queues == old(self).queues,
            final(self).big_val(key@) is None,
            forall|k2: Seq<u8>|
                k2 != key@ ==> #[trigger] final(self).big_val(k2) == old(self).big_val(k2),
            r == (old(self).big_val(key@) is Some),
    {
        let ghost old_entries = self.big.entries();
        match self.big.find(key) {
            None => {
                proof {
                    lemma_tbl_get_absent(old_entries, key@);
                }
                false
            },
            Some(i) => {
                proof {
                    lemma_tbl_get_at(old_entries, key@, i as int);
                }
                let _row = self.big.remove_at(i);
                proof {
                    assert forall|k2: Seq<u8>| #[trigger]
                        tbl_get(self.big.entries(), k2) == (if k2 == key@ {
                            None::<Seq<u8>>
                        } else {
                            tbl_get(old_entries, k2)
                        }) by {
                        lemma_tbl_get_remove(old_entries, i as int, k2);
                    }
                    CandyStore::lemma_wf_frame(*old(self), *self);
                }
                true
            },
        }
    }
}

/// One more freed slot, a saturating count.
pub open spec fn bump_holes(h: nat) -> nat {
    if h < usize::MAX as nat {
        h + 1
    } else {
        h
    }
}

impl CandyStore {
    /// After taking the list at row `i` out and reappending it (possibly
    /// changed), that list key sees the new value, every other list is
    /// untouched, and the store stays well-formed.
    proof fn lemma_lists_shuffle(
        s1: CandyStore,
        s2: CandyStore,
        lk: Seq<u8>,
        i: int,
        lv2: (Seq<(Seq<u8>, Seq<u8>)>, nat),
    )
        requires
            s1.wf(),
            0 <= i < s1.lists.entries().len(),
            s1.lists.entries()[i].0 == lk,
            s2.lists.entries() == s1.lists.entries().remove(i).push((lk, lv2)),
            s2.map == s1.map,
            s2.big == s1.big,
            s2.queues == s1.queues,
            tbl_distinct(lv2.0),
        ensures
            s2.wf(),
            s2.list_at(lk) == Some(lv2),
            forall|k2: Seq<u8>| k2 != lk ==> #[trigger] s2.list_at(k2) == s1.list_at(k2),
    {
        let se = s1.lists.entries();
        lemma_tbl_get_at(se, lk, i);
        assert forall|k2: Seq<u8>| #[trigger]
            tbl_get(s2.lists.entries(), k2) == (if k2 == lk {
                Some(lv2)
            } else {
                tbl_get(se, k2)
            }) by {
            lemma_tbl_get_remove(se, i, k2);
            lemma_tbl_get_push(se.remove(i), lk, lv2, k2);
        }
        assert forall|k: Seq<u8>| #[trigger] s2.queue_at(k) == s1.queue_at(k) by {}
        assert forall|k: Seq<u8>|
            #[trigger] s2.list_at(k) matches Some(lv) ==> tbl_distinct(lv.0) by {
            if k != lk {
                assert(s1.list_at(k) == s2.list_at(k));
            }
        }
    }

    /// After appending a list under a fresh key, that key sees it, every
    /// other list is untouched, and the store stays well-formed.
    proof fn lemma_lists_create(
        s1: CandyStore,
        s2: CandyStore,
        lk: Seq<u8>,
        lv2: (Seq<(Seq<u8>, Seq<u8>)>, nat),
    )
        requires
            s1.wf(),
            !tbl_has(s1.lists.entries(), lk),
            s2.lists.entries() == s1.lists.entries().push((lk, lv2)),
            s2.map == s1.map,
            s2.big == s1.big,
            s2.queues == s1.queues,
            tbl_distinct(lv2.0),
        ensures
            s2.wf(),
            s2.list_at(lk) == Some(lv2),
            forall|k2: Seq<u8>| k2 != lk ==> #[trigger] s2.list_at(k2) == s1.list_at(k2),
    {
        let se = s1.lists.entries();
        assert forall|k2: Seq<u8>| #[trigger]
            tbl_get(s2.lists.entries(), k2) == (if k2 == lk {
                Some(lv2)
            } else {
                tbl_get(se, k2)
            }) by {
            lemma_tbl_get_push(se, lk, lv2, k2);
        }
        assert forall|k: Seq<u8>| #[trigger] s2.queue_at(k) == s1.queue_at(k) by {}
        assert forall|k: Seq<u8>|
            #[trigger] s2.list_at(k) matches Some(lv) ==> tbl_distinct(lv.0) by {
            if k != lk {
                assert(s1.list_at(k) == s2.list_at(k));
            }
        }
    }

    /// After removing the list at row `i`, its key sees nothing, every other
    /// list is untouched, and the store stays well-formed.
    proof fn lemma_lists_discard(s1: CandyStore, s2: CandyStore, lk: Seq<u8>, i: int)
        requires
            s1.wf(),
            0 <= i < s1.lists.entries().len(),
            s1.lists.entries()[i].0 == lk,
            s2.lists.entries() == s1.lists.entries().remove(i),
            s2.map == s1.map,
            s2.big == s1.big,
            s2.queues == s1.queues,
        ensures
            s2.wf(),
            s2.list_at(lk) is None,
            forall|k2: Seq<u8>| k2 != lk ==> #[trigger] s2.list_at(k2) == s1.list_at(k2),
    {
        let se = s1.lists.entries();
        lemma_tbl_get_at(se, lk, i);
        assert forall|k2: Seq<u8>| #[trigger]
            tbl_get(s2.lists.entries(), k2) == (if k2 == lk {
                None::<(Seq<(Seq<u8>, Seq<u8>)>, nat)>
            } else {
                tbl_get(se, k2)
            }) by {
            lemma_tbl_get_remove(se, i, k2);
        }
        assert forall|k: Seq<u8>| #[trigger] s2.queue_at(k) == s1.queue_at(k) by {}
        assert forall|k: Seq<u8>|
            #[trigger] s2.list_at(k) matches Some(lv) ==> tbl_distinct(lv.0) by {
            if k != lk {
                assert(s1.list_at(k) == s2.list_at(k));
            }
        }
    }

    /// Reads one item of a list.
    pub fn owned_get_from_list(&self, list_key: &[u8], item_key: &[u8]) -> (r: Option<Vec<u8>>)
        requires
            self.wf(),
        ensures
            match self.list_at(list_key@) {
                None => r is None,
                Some(lv) => match tbl_get(lv.0, item_key@) {
                    None => r is None,
                    Some(v) => r matches Some(x) && x@ == v,
                },
            },
    {
        match self.lists.find(list_key) {
            None => {
                proof {
                    lemma_tbl_get_absent(self.lists.entries(), list_key@);
                }
                None
            },
            Some(i) => {
                proof {
                    lemma_tbl_get_at(self.lists.entries(), list_key@, i as int);
                }
                let ls = self.lists.val_at(i);
                match ls.items.find(item_key) {
                    None => {
                        proof {
                            lemma_tbl_get_absent(ls.items.entries(), item_key@);
                        }
                        None
                    },
                    Some(j) => {
                        proof {
                            lemma_tbl_get_at(ls.items.entries(), item_key@, j as int);
                        }
                        Some(slice_to_vec(ls.items.val_at(j).as_slice()))
                    },
                }
            },
        }
    }

    /// Writes one item of a list: a new item goes to the back; an existing
    /// one is overwritten in place, or, with `promote`, moved to the back.
    /// An absent list comes into being with the one item.
    pub fn owned_set_in_list(
        &mut self,
        list_key: &[u8],
        item_key: &[u8],
        val: &[u8],
        promote: bool,
    ) -> (r: SetStatus)
        requires
            old(self).wf(),
        ensures
            final(self).wf(),
            final(self).map == old(self).map,
            final(self).big == old(self).big,
            final(self).queues == old(self).queues,
            forall|k2: Seq<u8>|
                k2 != list_key@ ==> #[trigger] final(self).list_at(k2) == old(self).list_at(k2),
            match old(self).list_at(list_key@) {
                None => {
                    &&& final(self).list_at(list_key@) == Some(
                        (seq![(item_key@, val@)], 0nat),
                    )
                    &&& (r matches SetStatus::CreatedNew)
                },
                Some(lv) => match tbl_get(lv.0, item_key@) {
                    None => {
                        &&& final(self).list_at(list_key@) == Some(
                            (lv.0.push((item_key@, val@)), lv.1),
                        )
                        &&& (r matches SetStatus::CreatedNew)
                    },
                    Some(prev) => {
                        &&& final(self).list_at(list_key@) == Some(
                            (
                                if promote {
                                    lv.0.remove(tbl_idx(lv.0, item_key@)).push(
                                        (item_key@, val@),
                                    )
                                } else {
                                    lv.0.update(tbl_idx(lv.0, item_key@), (item_key@, val@))
                                },
                                lv.1,
                            ),
                        )
                        &&& (r matches SetStatus::PrevValue(v) && v@ == prev)
                    },
                },
            },
    {
        let ghost old_store = *self;
        match self.lists.find(list_key) {
            None => {
                proof {
                    lemma_tbl_get_absent(self.lists.entries(), list_key@);
                }
                let mut items: Table<Vec<u8>> = Table::new();
                proof {
                    lemma_tbl_get_absent(items.entries(), item_key@);
                }
                items.push_row(slice_to_vec(item_key), slice_to_vec(val));
                let ls = ListState { items, holes: 0 };
                let ghost lsv = ls@;
                proof {
                    assert(lsv.0 =~= seq![(item_key@, val@)]);
                }
                self.lists.push_row(slice_to_vec(list_key), ls);
                proof {
                    CandyStore::lemma_lists_create(old_store, *self, list_key@, lsv);
                }
                SetStatus::CreatedNew
            },
            Some(i) => {
                proof {
                    lemma_tbl_get_at(self.lists.entries(), list_key@, i as int);
                }
                let row = self.lists.remove_at(i);
                let mut ls = row.val;
                let ghost lv = ls@;
                let result: SetStatus;
                match ls.items.find(item_key) {
                    None => {
                        proof {
                            lemma_tbl_get_absent(lv.0, item_key@);
                        }
                        ls.items.push_row(slice_to_vec(item_key), slice_to_vec(val));
                        result = SetStatus::CreatedNew;
                    },
                    Some(j) => {
                        proof {
                            lemma_tbl_get_at(lv.0, item_key@, j as int);
                        }
                        if promote {
                            let r2 = ls.items.remove_at(j);
                            proof {
                                lemma_tbl_get_remove(lv.0, j as int, item_key@);
                            }
                            ls.items.push_row(r2.key, slice_to_vec(val));
                            result = SetStatus::PrevValue(r2.val);
                        } else {
                            let prev = ls.items.replace_at(j, slice_to_vec(val));
                            result = SetStatus::PrevValue(prev);
                        }
                    },
                }
                let ghost lsv = ls@;
                self.lists.push_row(row.key, ls);
                proof {
                    CandyStore::lemma_lists_shuffle(old_store, *self, list_key@, i as int, lsv);
                }
                result
            },
        }
    }

    /// Reads one item of a list, first inserting the default at the back if
    /// the item (or the whole list) is absent.
    pub fn owned_get_or_create_in_list(
        &mut self,
        list_key: &[u8],
        item_key: &[u8],
        default_val: &[u8],
    ) -> (r: GetOrCreateStatus)
        requires
            old(self).wf(),
        ensures
            final(self).wf(),
            final(self).map == old(self).map,
            final(self).big == old(self).big,
            final(self).queues == old(self).queues,
            forall|k2: Seq<u8>|
                k2 != list_key@ ==> #[trigger] final(self).list_at(k2) == old(self).list_at(k2),
            match old(self).list_at(list_key@) {
                None => {
                    &&& final(self).list_at(list_key@) == Some(
                        (seq![(item_key@, default_val@)], 0nat),
                    )
                    &&& (r matches GetOrCreateStatus::CreatedNew(v) && v@ == default_val@)
                },
                Some(lv) => match tbl_get(lv.0, item_key@) {
                    None => {
                        &&& final(self).list_at(list_key@) == Some(
                            (lv.0.push((item_key@, default_val@)), lv.1),
                        )
                        &&& (r matches GetOrCreateStatus::CreatedNew(v) && v@ == default_val@)
                    },
                    Some(prev) => {
                        &&& final(self).list_at(list_key@) == Some(lv)
                        &&& (r matches GetOrCreateStatus::ExistingValue(v) && v@ == prev)
                    },
                },
            },
    {
        let ghost old_store = *self;
        match self.lists.find(list_key) {
            None => {
                proof {
                    lemma_tbl_get_absent(self.lists.entries(), list_key@);
                }
                let mut items: Table<Vec<u8>> = Table::new();
                proof {
                    lemma_tbl_get_absent(items.entries(), item_key@);
                }
                items.push_row(slice_to_vec(item_key), slice_to_vec(default_val));
                let ls = ListState { items, holes: 0 };
                let ghost lsv = ls@;
                proof {
                    assert(lsv.0 =~= seq![(item_key@, default_val@)]);
                }
                self.lists.push_row(slice_to_vec(list_key), ls);
                proof {
                    CandyStore::lemma_lists_create(old_store, *self, list_key@, lsv);
                }
                GetOrCreateStatus::CreatedNew(slice_to_vec(default_val))
            },
            Some(i) => {
                proof {
                    lemma_tbl_get_at(self.lists.entries(), list_key@, i as int);
                }
                let row = self.lists.remove_at(i);
                let mut ls = row.val;
                let ghost lv = ls@;
                let result: GetOrCreateStatus;
                match ls.items.find(item_key) {
                    None => {
                        proof {
                            lemma_tbl_get_absent(lv.0, item_key@);
                        }
                        ls.items.push_row(slice_to_vec(item_key), slice_to_vec(default_val));
                        result = GetOrCreateStatus::CreatedNew(slice_to_vec(default_val));
                    },
                    Some(j) => {
                        proof {
                            lemma_tbl_get_at(lv.0, item_key@, j as int);
                        }
                        result = GetOrCreateStatus::ExistingValue(
                            slice_to_vec(ls.items.val_at(j).as_slice()),
                        );
                    },
                }
                let ghost lsv = ls@;
                self.lists.push_row(row.key, ls);
                proof {
                    CandyStore::lemma_lists_shuffle(old_store, *self, list_key@, i as int, lsv);
                }
                result
            },
        }
    }

    /// Writes one item of a list only when the expectation holds, in place
    /// and without reordering; reports exactly which case held.
    pub fn owned_replace_in_list(
        &mut self,
        list_key: &[u8],
        item_key: &[u8],
        val: &[u8],
        expected: Option<&[u8]>,
    ) -> (r: ReplaceStatus)
        requires
            old(self).wf(),
        ensures
            final(self).wf(),
            final(self).map == old(self).map,
            final(self).big == old(self).big,
            final(self).queues == old(self).queues,
            forall|k2: Seq<u8>|
                k2 != list_key@ ==> #[trigger] final(self).list_at(k2) == old(self).list_at(k2),
            match old(self).list_at(list_key@) {
                None => final(self).list_at(list_key@) is None && (r matches
                ReplaceStatus::DoesNotExist),
                Some(lv) => match tbl_get(lv.0, item_key@) {
                    None => final(self).list_at(list_key@) == Some(lv) && (r matches
                    ReplaceStatus::DoesNotExist),
                    Some(prev) => {
                        if (match expected {
                            None => true,
                            Some(e) => e@ == prev,
                        }) {
                            &&& final(self).list_at(list_key@) == Some(
                                (
                                    lv.0.update(tbl_idx(lv.0, item_key@), (item_key@, val@)),
                                    lv.1,
                                ),
                            )
                            &&& (r matches ReplaceStatus::PrevValue(v) && v@ == prev)
                        } else {
                            &&& final(self).list_at(list_key@) == Some(lv)
                            &&& (r matches ReplaceStatus::WrongValue(v) && v@ == prev)
                        }
                    },
                },
            },
    {
        let ghost old_store = *self;
        match self.lists.find(list_key) {
            None => {
                proof {
                    lemma_tbl_get_absent(self.lists.entries(), list_key@);
                }
                ReplaceStatus::DoesNotExist
            },
            Some(i) => {
                proof {
                    lemma_tbl_get_at(self.lists.entries(), list_key@, i as int);
                }
                let row = self.lists.remove_at(i);
                let mut ls = row.val;
                let ghost lv = ls@;
                let result: ReplaceStatus;
                match ls.items.find(item_key) {
                    None => {
                        proof {
                            lemma_tbl_get_absent(lv.0, item_key@);
                        }
                        result = ReplaceStatus::DoesNotExist;
                    },
                    Some(j) => {
                        proof {
                            lemma_tbl_get_at(lv.0, item_key@, j as int);
                        }
                        let matches_expected = match expected {
                            None => true,
                            Some(e) => bytes_eq(ls.items.val_at(j).as_slice(), e),
                        };
                        if matches_expected {
                            let prev = ls.items.replace_at(j, slice_to_vec(val));
                            result = ReplaceStatus::PrevValue(prev);
                        } else {
                            result = ReplaceStatus::WrongValue(
                                slice_to_vec(ls.items.val_at(j).as_slice()),
                            );
                        }
                    },
                }
                let ghost lsv = ls@;
                self.lists.push_row(row.key, ls);
                proof {
                    CandyStore::lemma_lists_shuffle(old_store, *self, list_key@, i as int, lsv);
                }
                result
            },
        }
    }

    /// Deletes one item of a list, closing the gap and counting the freed
    /// slot.
    pub fn owned_remove_from_list(&mut self, list_key: &[u8], item_key: &[u8]) -> (r: Option<
        Vec<u8>,
    >)
        requires
            old(self).wf(),
        ensures
            final(self).wf(),
            final(self).map == old(self).map,
            final(self).big == old(self).big,
            final(self).queues == old(self).queues,
            forall|k2: Seq<u8>|
                k2 != list_key@ ==> #[trigger] final(self).list_at(k2) == old(self).list_at(k2),
            match old(self).list_at(list_key@) {
                None => final(self).list_at(list_key@) is None && r is None,
                Some(lv) => match tbl_get(lv.0, item_key@) {
                    None => final(self).list_at(list_key@) == Some(lv) && r is None,
                    Some(prev) => {
                        &&& final(self).list_at(list_key@) == Some(
                            (lv.0.remove(tbl_idx(lv.0, item_key@)), bump_holes(lv.1)),
                        )
                        &&& (r matches Some(v) && v@ == prev)
                    },
                },
            },
    {
        let ghost old_store = *self;
        match self.lists.find(list_key) {
            None => {
                proof {
                    lemma_tbl_get_absent(self.lists.entries(), list_key@);
                }
                None
            },
            Some(i) => {
                proof {
                    lemma_tbl_get_at(self.lists.entries(), list_key@, i as int);
                }
                let row = self.lists.remove_at(i);
                let mut ls = row.val;
                let ghost lv = ls@;
                let result: Option<Vec<u8>>;
                match ls.items.find(item_key) {
                    None => {
                        proof {
                            lemma_tbl_get_absent(lv.0, item_key@);
                        }
                        result = None;
                    },
                    Some(j) => {
                        proof {
                            lemma_tbl_get_at(lv.0, item_key@, j as int);
                        }
                        let r2 = ls.items.remove_at(j);
                        if ls.holes < usize::MAX {
                            ls.holes = ls.holes + 1;
                        }
                        result = Some(r2.val);
                    },
                }
                let ghost lsv = ls@;
                self.lists.push_row(row.key, ls);
                proof {
                    CandyStore::lemma_lists_shuffle(old_store, *self, list_key@, i as int, lsv);
                }
                result
            },
        }
    }
}

impl CandyStore {
    /// Removes and returns the first (item key, value) pair of a list.
    pub fn owned_pop_list_head(&mut self, list_key: &[u8]) -> (r: Option<(Vec<u8>, Vec<u8>)>)
        requires
            old(self).wf(),
        ensures
            final(self).wf(),
            final(self).map == old(self).map,
            final(self).big == old(self).big,
            final(self).queues == old(self).queues,
            forall|k2: Seq<u8>|
                k2 != list_key@ ==> #[trigger] final(self).list_at(k2) == old(self).list_at(k2),
            match old(self).list_at(list_key@) {
                None => final(self).list_at(list_key@) is None && r is None,
                Some(lv) => {
                    if lv.0.len() == 0 {
                        final(self).list_at(list_key@) == Some(lv) && r is None
                    } else {
                        &&& final(self).list_at(list_key@) == Some(
                            (lv.0.drop_first(), bump_holes(lv.1)),
                        )
                        &&& (r matches Some(p) && p.0@ == lv.0[0].0 && p.1@ == lv.0[0].1)
                    }
                },
            },
    {
        let ghost old_store = *self;
        match self.lists.find(list_key) {
            None => {
                proof {
                    lemma_tbl_get_absent(self.lists.entries(), list_key@);
                }
                None
            },
            Some(i) => {
                proof {
                    lemma_tbl_get_at(self.lists.entries(), list_key@, i as int);
                }
                let row = self.lists.remove_at(i);
                let mut ls = row.val;
                let ghost lv = ls@;
                let result: Option<(Vec<u8>, Vec<u8>)>;
                if ls.items.len() == 0 {
                    result = None;
                } else {
                    let r2 = ls.items.remove_at(0);
                    if ls.holes < usize::MAX {
                        ls.holes = ls.holes + 1;
                    }
                    proof {
                        assert(lv.0.remove(0) =~= lv.0.drop_first());
                    }
                    result = Some((r2.key, r2.val));
                }
                let ghost lsv = ls@;
                self.lists.push_row(row.key, ls);
                proof {
                    CandyStore::lemma_lists_shuffle(old_store, *self, list_key@, i as int, lsv);
                }
                result
            },
        }
    }

    /// Removes and returns the last (item key, value) pair of a list.
    pub fn owned_pop_list_tail(&mut self, list_key: &[u8]) -> (r: Option<(Vec<u8>, Vec<u8>)>)
        requires
            old(self).wf(),
        ensures
            final(self).wf(),
            final(self).map == old(self).map,
            final(self).big == old(self).big,
            final(self).queues == old(self).queues,
            forall|k2: Seq<u8>|
                k2 != list_key@ ==> #[trigger] final(self).list_at(k2) == old(self).list_at(k2),
            match old(self).list_at(list_key@) {
                None => final(self).list_at(list_key@) is None && r is None,
                Some(lv) => {
                    if lv.0.len() == 0 {
                        final(self).list_at(list_key@) == Some(lv) && r is None
                    } else {
                        &&& final(self).list_at(list_key@) == Some(
                            (lv.0.drop_last(), bump_holes(lv.1)),
                        )
                        &&& (r matches Some(p) && p.0@ == lv.0.last().0 && p.1@
                            == lv.0.last().1)
                    }
                },
            },
    {
        let ghost old_store = *self;
        match self.lists.find(list_key) {
            None => {
                proof {
                    lemma_tbl_get_absent(self.lists.entries(), list_key@);
                }
                None
            },
            Some(i) => {
                proof {
                    lemma_tbl_get_at(self.lists.entries(), list_key@, i as int);
                }
                let row = self.lists.remove_at(i);
                let mut ls = row.val;
                let ghost lv = ls@;
                let result: Option<(Vec<u8>, Vec<u8>)>;
                let n = ls.items.len();
                if n == 0 {
                    result = None;
                } else {
                    let r2 = ls.items.remove_at(n - 1);
                    if ls.holes < usize::MAX {
                        ls.holes = ls.holes + 1;
                    }
                    proof {
                        assert(lv.0.remove(lv.0.len() - 1) =~= lv.0.drop_last());
                    }
                    result = Some((r2.key, r2.val));
                }
                let ghost lsv = ls@;
                self.lists.push_row(row.key, ls);
                proof {
                    CandyStore::lemma_lists_shuffle(old_store, *self, list_key@, i as int, lsv);
                }
                result
            },
        }
    }

    /// Reads the first (item key, value) pair of a list without removing it.
    pub fn owned_peek_list_head(&self, list_key: &[u8]) -> (r: Option<(Vec<u8>, Vec<u8>)>)
        requires
            self.wf(),
        ensures
            match self.list_at(list_key@) {
                None => r is None,
                Some(lv) => {
                    if lv.0.len() == 0 {
                        r is None
                    } else {
                        r matches Some(p) && p.0@ == lv.0[0].0 && p.1@ == lv.0[0].1
                    }
                },
            },
    {
        match self.lists.find(list_key) {
            None => {
                proof {
                    lemma_tbl_get_absent(self.lists.entries(), list_key@);
                }
                None
            },
            Some(i) => {
                proof {
                    lemma_tbl_get_at(self.lists.entries(), list_key@, i as int);
                }
                let ls = self.lists.val_at(i);
                if ls.items.len() == 0 {
                    None
                } else {
                    Some(
                        (
                            slice_to_vec(ls.items.key_at(0).as_slice()),
                            slice_to_vec(ls.items.val_at(0).as_slice()),
                        ),
                    )
                }
            },
        }
    }

    /// Reads the last (item key, value) pair of a list without removing it.
    pub fn owned_peek_list_tail(&self, list_key: &[u8]) -> (r: Option<(Vec<u8>, Vec<u8>)>)
        requires
            self.wf(),
        ensures
            match self.list_at(list_key@) {
                None => r is None,
                Some(lv) => {
                    if lv.0.len() == 0 {
                        r is None
                    } else {
                        r matches Some(p) && p.0@ == lv.0.last().0 && p.1@ == lv.0.last().1
                    }
                },
            },
    {
        match self.lists.find(list_key) {
            None => {
                proof {
                    lemma_tbl_get_absent(self.lists.entries(), list_key@);
                }
                None
            },
            Some(i) => {
                proof {
                    lemma_tbl_get_at(self.lists.entries(), list_key@, i as int);
                }
                let ls = self.lists.val_at(i);
                let n = ls.items.len();
                if n == 0 {
                    None
                } else {
                    Some(
                        (
                            slice_to_vec(ls.items.key_at(n - 1).as_slice()),
                            slice_to_vec(ls.items.val_at(n - 1).as_slice()),
                        ),
                    )
                }
            },
        }
    }

    /// The number of items in a list (zero for an absent list).
    pub fn owned_list_len(&self, list_key: &[u8]) -> (r: usize)
        requires
            self.wf(),
        ensures
            match self.list_at(list_key@) {
                None => r == 0,
                Some(lv) => r == lv.0.len(),
            },
    {
        match self.lists.find(list_key) {
            None => {
                proof {
                    lemma_tbl_get_absent(self.lists.entries(), list_key@);
                }
                0
            },
            Some(i) => {
                proof {
                    lemma_tbl_get_at(self.lists.entries(), list_key@, i as int);
                }
                self.lists.val_at(i).items.len()
            },
        }
    }

    /// Deletes a whole list, reporting whether it existed.
    pub fn owned_discard_list(&mut self, list_key: &[u8]) -> (r: bool)
        requires
            old(self).wf(),
        ensures
            final(self).wf(),
            final(self).map == old(self).map,
            final(self).big == old(self).big,
            final(self).queues == old(self).queues,
            final(self).list_at(list_key@) is None,
            forall|k2: Seq<u8>|
                k2 != list_key@ ==> #[trigger] final(self).list_at(k2) == old(self).list_at(k2),
            r == (old(self).list_at(list_key@) is Some),
    {
        let ghost old_store = *self;
        match self.lists.find(list_key) {
            None => {
                proof {
                    lemma_tbl_get_absent(self.lists.entries(), list_key@);
                }
                false
            },
            Some(i) => {
                proof {
                    lemma_tbl_get_at(self.lists.entries(), list_key@, i as int);
                }
                let _row = self.lists.remove_at(i);
                proof {
                    CandyStore::lemma_lists_discard(old_store, *self, list_key@, i as int);
                }
                true
            },
        }
    }

    /// Reclaims a list's dead space once the freed-slot count reaches the
    /// given threshold; reports whether compaction ran.
    pub fn compact_list_if_needed(&mut self, list_key: &[u8], params: ListCompactionParams) -> (r:
        bool)
        requires
            old(self).wf(),
        ensures
            final(self).wf(),
            final(self).map == old(self).map,
            final(self).big == old(self).big,
            final(self).queues == old(self).queues,
            forall|k2: Seq<u8>|
                k2 != list_key@ ==> #[trigger] final(self).list_at(k2) == old(self).list_at(k2),
            match old(self).list_at(list_key@) {
                None => final(self).list_at(list_key@) is None && r == false,
                Some(lv) => {
                    if lv.1 > 0 && lv.1 >= params.min_holes as nat {
                        final(self).list_at(list_key@) == Some((lv.0, 0nat)) && r == true
                    } else {
                        final(self).list_at(list_key@) == Some(lv) && r == false
                    }
                },
            },
    {
        let ghost old_store = *self;
        match self.lists.find(list_key) {
            None => {
                proof {
                    lemma_tbl_get_absent(self.lists.entries(), list_key@);
                }
                false
            },
            Some(i) => {
                proof {
                    lemma_tbl_get_at(self.lists.entries(), list_key@, i as int);
                }
                let row = self.lists.remove_at(i);
                let mut ls = row.val;
                let ran: bool;
                if ls.holes > 0 && ls.holes >= params.min_holes {
                    ls.holes = 0;
                    ran = true;
                } else {
                    ran = false;
                }
                let ghost lsv = ls@;
                self.lists.push_row(row.key, ls);
                proof {
                    CandyStore::lemma_lists_shuffle(old_store, *self, list_key@, i as int, lsv);
                }
                ran
            },
        }
    }

    /// All (item key, value) pairs of a list, head to tail.
    pub fn owned_iter_list(&self, list_key: &[u8]) -> (r: Vec<(Vec<u8>, Vec<u8>)>)
        requires
            self.wf(),
        ensures
            match self.list_at(list_key@) {
                None => r@.len() == 0,
                Some(lv) => {
                    &&& r@.len() == lv.0.len()
                    &&& forall|i: int|
                        0 <= i < lv.0.len() ==> (#[trigger] r@[i]).0@ == lv.0[i].0 && r@[i].1@
                            == lv.0[i].1
                },
            },
    {
        match self.lists.find(list_key) {
            None => {
                proof {
                    lemma_tbl_get_absent(self.lists.entries(), list_key@);
                }
                Vec::new()
            },
            Some(i) => {
                proof {
                    lemma_tbl_get_at(self.lists.entries(), list_key@, i as int);
                }
                let ls = self.lists.val_at(i);
                let n = ls.items.len();
                let mut r: Vec<(Vec<u8>, Vec<u8>)> = Vec::new();
                let mut j: usize = 0;
                while j < n
                    invariant
                        n == ls.items.entries().len(),
                        j <= n,
                        r@.len() == j,
                        forall|t: int|
                            0 <= t < j ==> (#[trigger] r@[t]).0@ == ls.items.entries()[t].0
                                && r@[t].1@ == ls.items.entries()[t].1,
                    decreases n - j,
                {
                    r.push(
                        (
                            slice_to_vec(ls.items.key_at(j).as_slice()),
                            slice_to_vec(ls.items.val_at(j).as_slice()),
                        ),
                    );
                    j = j + 1;
                }
                r
            },
        }
    }

    /// All (item key, value) pairs of a list, tail to head.
    pub fn owned_iter_list_backwards(&self, list_key: &[u8]) -> (r: Vec<(Vec<u8>, Vec<u8>)>)
        requires
            self.wf(),
        ensures
            match self.list_at(list_key@) {
                None => r@.len() == 0,
                Some(lv) => {
                    &&& r@.len() == lv.0.len()
                    &&& forall|i: int|
                        0 <= i < lv.0.len() ==> (#[trigger] r@[i]).0@ == lv.0[lv.0.len() - 1
                            - i].0 && r@[i].1@ == lv.0[lv.0.len() - 1 - i].1
                },
            },
    {
        match self.lists.find(list_key) {
            None => {
                proof {
                    lemma_tbl_get_absent(self.lists.entries(), list_key@);
                }
                Vec::new()
            },
            Some(i) => {
                proof {
                    lemma_tbl_get_at(self.lists.entries(), list_key@, i as int);
                }
                let ls = self.lists.val_at(i);
                let n = ls.items.len();
                let mut r: Vec<(Vec<u8>, Vec<u8>)> = Vec::new();
                let mut j: usize = 0;
                while j < n
                    invariant
                        n == ls.items.entries().len(),
                        j <= n,
                        r@.len() == j,
                        forall|t: int|
                            0 <= t < j ==> (#[trigger] r@[t]).0@ == ls.items.entries()[n - 1
                                - t].0 && r@[t].1@ == ls.items.entries()[n - 1 - t].1,
                    decreases n - j,
                {
                    r.push(
                        (
                            slice_to_vec(ls.items.key_at(n - 1 - j).as_slice()),
                            slice_to_vec(ls.items.val_at(n - 1 - j).as_slice()),
                        ),
                    );
                    j = j + 1;
                }
                r
            },
        }
    }
}

/// The smallest live index of a nonempty queue view.
pub open spec fn min_live_idx(s: Seq<(nat, Seq<u8>)>) -> nat
    decreases s.len(),
{
    if s.len() <= 1 {
        if s.len() == 1 {
            s[0].0
        } else {
            0
        }
    } else {
        let m = min_live_idx(s.drop_last());
        if s.last().0 < m {
            s.last().0
        } else {
            m
        }
    }
}

/// The largest live index of a nonempty queue view.
pub open spec fn max_live_idx(s: Seq<(nat, Seq<u8>)>) -> nat
    decreases s.len(),
{
    if s.len() <= 1 {
        if s.len() == 1 {
            s[0].0
        } else {
            0
        }
    } else {
        let m = max_live_idx(s.drop_last());
        if s.last().0 > m {
            s.last().0
        } else {
            m
        }
    }
}

/// Range consistency: in a nonempty queue every live index lies between the
/// smallest and the largest, and both bounds are themselves live. The
/// half-open interval from the smallest live index to one past the largest
/// is therefore exactly the span the queue's `range` reports.
pub proof fn lemma_queue_range_covers(s: Seq<(nat, Seq<u8>)>)
    requires
        s.len() > 0,
    ensures
        forall|i: int|
            0 <= i < s.len() ==> min_live_idx(s) <= (#[trigger] s[i]).0 <= max_live_idx(s),
        exists|i: int| 0 <= i < s.len() && (#[trigger] s[i]).0 == min_live_idx(s),
        exists|i: int| 0 <= i < s.len() && (#[trigger] s[i]).0 == max_live_idx(s),
    decreases s.len(),
{
    if s.len() == 1 {
        assert(s[0].0 == min_live_idx(s));
        assert(s[0].0 == max_live_idx(s));
    } else {
        let d = s.drop_last();
        lemma_queue_range_covers(d);
        assert(forall|i: int| 0 <= i < s.len() - 1 ==> #[trigger] s[i] == d[i]);
        assert(s.last() == s[s.len() - 1]);
        let mn = min_live_idx(d);
        if s.last().0 < mn {
            assert(s[s.len() - 1].0 == min_live_idx(s));
        } else {
            let i = choose|i: int| 0 <= i < d.len() && (#[trigger] d[i]).0 == mn;
            assert(s[i].0 == min_live_idx(s));
        }
        let mx = max_live_idx(d);
        if s.last().0 > mx {
            assert(s[s.len() - 1].0 == max_live_idx(s));
        } else {
            let i = choose|i: int| 0 <= i < d.len() && (#[trigger] d[i]).0 == mx;
            assert(s[i].0 == max_live_idx(s));
        }
    }
}

/// Index freshness: in a well-formed queue every live index lies strictly
/// below the next-index counter. The counter is what a push hands out and
/// then increments, and no operation ever decreases it, so the index
/// assigned by a push is strictly greater than every index assigned before
/// it, and no index is ever reused — whatever the interleaving of pushes at
/// the two ends and of pops.
pub proof fn lemma_queue_index_fresh(qv: (Seq<(nat, Seq<u8>)>, nat))
    requires
        queue_view_wf(qv),
    ensures
        forall|i: int| 0 <= i < qv.0.len() ==> (#[trigger] qv.0[i]).0 < qv.1,
        forall|i: int, j: int|
            0 <= i < j < qv.0.len() ==> (#[trigger] qv.0[i]).0 != (#[trigger] qv.0[j]).0,
{
}

/// One push on a queue view: at the head when `op.0` holds, else at the
/// tail, carrying the bytes `op.1`. Either way the slot takes the counter's
/// value and the counter moves on — exactly what `push_to_queue_head` and
/// `push_to_queue_tail` ensure of an existing queue.
pub open spec fn queue_push_one(
    qv: (Seq<(nat, Seq<u8>)>, nat),
    op: (bool, Seq<u8>),
) -> (Seq<(nat, Seq<u8>)>, nat) {
    if op.0 {
        (seq![(qv.1, op.1)] + qv.0, qv.1 + 1)
    } else {
        (qv.0.push((qv.1, op.1)), qv.1 + 1)
    }
}

/// A whole interleaving of pushes, applied in order.
pub open spec fn queue_push_all(
    qv: (Seq<(nat, Seq<u8>)>, nat),
    ops: Seq<(bool, Seq<u8>)>,
) -> (Seq<(nat, Seq<u8>)>, nat)
    decreases ops.len(),
{
    if ops.len() == 0 {
        qv
    } else {
        queue_push_all(queue_push_one(qv, ops[0]), ops.drop_first())
    }
}

/// The index the push at step `k` of an interleaving hands out: the counter
/// as it stands after the first `k` pushes.
pub open spec fn queue_push_index(
    qv: (Seq<(nat, Seq<u8>)>, nat),
    ops: Seq<(bool, Seq<u8>)>,
    k: int,
) -> nat {
    queue_push_all(qv, ops.take(k)).1
}

/// After any interleaving of pushes the counter has advanced once per push.
pub proof fn lemma_queue_push_all_counter(
    qv: (Seq<(nat, Seq<u8>)>, nat),
    ops: Seq<(bool, Seq<u8>)>,
)
    ensures
        queue_push_all(qv, ops).1 == qv.1 + ops.len(),
    decreases ops.len(),
{
    if ops.len() > 0 {
        lemma_queue_push_all_counter(queue_push_one(qv, ops[0]), ops.drop_first());
    }
}

/// Each push keeps a queue view well-formed.
pub proof fn lemma_queue_push_one_wf(qv: (Seq<(nat, Seq<u8>)>, nat), op: (bool, Seq<u8>))
    requires
        queue_view_wf(qv),
    ensures
        queue_view_wf(queue_push_one(qv, op)),
{
    let q2 = queue_push_one(qv, op);
    if op.0 {
        assert(forall|i: int| 1 <= i < q2.0.len() ==> #[trigger] q2.0[i] == qv.0[i - 1]);
    }
}

/// Queue index monotonicity: over any interleaving of head and tail pushes
/// on a well-formed queue, the push at step `k` receives the index the
/// counter held at that moment, which is the starting counter plus `k`. The
/// indices handed out are therefore strictly increasing in push order, and
/// none of them repeats an index that was live when the interleaving began,
/// so an index names its push permanently even across intervening pops.
pub proof fn lemma_queue_push_indices_monotonic(
    qv: (Seq<(nat, Seq<u8>)>, nat),
    ops: Seq<(bool, Seq<u8>)>,
    k1: int,
    k2: int,
)
    requires
        queue_view_wf(qv),
        0 <= k1 < k2 < ops.len(),
    ensures
        queue_push_index(qv, ops, k1) == qv.1 + k1,
        queue_push_index(qv, ops, k2) == qv.1 + k2,
        queue_push_index(qv, ops, k1) < queue_push_index(qv, ops, k2),
        forall|i: int|
            0 <= i < qv.0.len() ==> (#[trigger] qv.0[i]).0 < queue_push_index(qv, ops, k1),
{
    lemma_queue_push_all_counter(qv, ops.take(k1));
    lemma_queue_push_all_counter(qv, ops.take(k2));
}

/// Tail pushes of the given values, as an interleaving.
pub open spec fn queue_tail_ops(vals: Seq<Seq<u8>>) -> Seq<(bool, Seq<u8>)> {
    vals.map(|i: int, v: Seq<u8>| (false, v))
}

/// Tail pushes append their values in order, each slot taking the counter
/// as it stood: starting from `qv`, the slots gain indices counting up from
/// `qv.1`.
pub proof fn lemma_queue_push_all_tail(qv: (Seq<(nat, Seq<u8>)>, nat), vals: Seq<Seq<u8>>)
    ensures
        queue_push_all(qv, queue_tail_ops(vals)).0 == qv.0 + Seq::new(
            vals.len(),
            |i: int| ((qv.1 + i) as nat, vals[i]),
        ),
    decreases vals.len(),
{
    if vals.len() == 0 {
        assert(qv.0 + Seq::new(0, |i: int| ((qv.1 + i) as nat, vals[i])) =~= qv.0);
        assert(queue_tail_ops(vals).len() == 0);
    } else {
        let ops = queue_tail_ops(vals);
        let q1 = queue_push_one(qv, ops[0]);
        assert(ops.drop_first() =~= queue_tail_ops(vals.drop_first()));
        lemma_queue_push_all_tail(q1, vals.drop_first());
        assert(q1.0 + Seq::new(
            vals.drop_first().len(),
            |i: int| ((q1.1 + i) as nat, vals.drop_first()[i]),
        ) =~= qv.0 + Seq::new(vals.len(), |i: int| ((qv.1 + i) as nat, vals[i])));
    }
}

/// In a run of slots whose indices count up one by one, the smallest index
/// is the first and the largest is the last.
pub proof fn lemma_queue_run_min_max(s: Seq<(nat, Seq<u8>)>, base: nat)
    requires
        s.len() > 0,
        forall|i: int| 0 <= i < s.len() ==> (#[trigger] s[i]).0 == base + i,
    ensures
        min_live_idx(s) == base,
        max_live_idx(s) == base + s.len() - 1,
    decreases s.len(),
{
    if s.len() > 1 {
        let d = s.drop_last();
        assert(forall|i: int| 0 <= i < d.len() ==> (#[trigger] d[i]).0 == base + i);
        lemma_queue_run_min_max(d, base);
        assert(s.last().0 == base + s.len() - 1);
    }
}

/// Queue range consistency under first-in-first-out use: starting from an
/// empty queue whose counter stands at `c`, after pushing `vals` at the tail
/// and popping `m` slots from the head, the length is the number of pushes
/// less the number of pops, and the surviving indices are exactly the span
/// the queue's `range` reports: `c + m` through one past `c + vals.len() - 1`.
pub proof fn lemma_queue_fifo_len_and_range(c: nat, vals: Seq<Seq<u8>>, m: int)
    requires
        0 <= m <= vals.len(),
    ensures
        ({
            let pushed = queue_push_all((seq![], c), queue_tail_ops(vals));
            let live = pushed.0.skip(m);
            &&& pushed.0.len() == vals.len()
            &&& live.len() == vals.len() - m
            &&& forall|i: int| 0 <= i < live.len() ==> (#[trigger] live[i]).0 == c + m + i
            &&& (live.len() > 0 ==> min_live_idx(live) == c + m && max_live_idx(live) + 1 == c
                + vals.len())
        }),
{
    let empty: Seq<(nat, Seq<u8>)> = seq![];
    lemma_queue_push_all_tail((empty, c), vals);
    let pushed = queue_push_all((empty, c), queue_tail_ops(vals));
    assert(pushed.0 =~= Seq::new(vals.len(), |i: int| ((c + i) as nat, vals[i])));
    let live = pushed.0.skip(m);
    assert(forall|i: int| 0 <= i < live.len() ==> (#[trigger] live[i]).0 == c + m + i);
    if live.len() > 0 {
        lemma_queue_run_min_max(live, (c + m) as nat);
    }
}

impl CandyStore {
    /// After taking the queue at row `i` out and reappending it (possibly
    /// changed), that queue key sees the new value, every other queue is
    /// untouched, and the store stays well-formed.
    proof fn lemma_queues_shuffle(
        s1: CandyStore,
        s2: CandyStore,
        qk: Seq<u8>,
        i: int,
        qv2: (Seq<(nat, Seq<u8>)>, nat),
    )
        requires
            s1.wf(),
            0 <= i < s1.queues.entries().len(),
            s1.queues.entries()[i].0 == qk,
            s2.queues.entries() == s1.queues.entries().remove(i).push((qk, qv2)),
            s2.map == s1.map,
            s2.big == s1.big,
            s2.lists == s1.lists,
            queue_view_wf(qv2),
        ensures
            s2.wf(),
            s2.queue_at(qk) == Some(qv2),
            forall|k2: Seq<u8>| k2 != qk ==> #[trigger] s2.queue_at(k2) == s1.queue_at(k2),
    {
        let se = s1.queues.entries();
        lemma_tbl_get_at(se, qk, i);
        assert forall|k2: Seq<u8>| #[trigger]
            tbl_get(s2.queues.entries(), k2) == (if k2 == qk {
                Some(qv2)
            } else {
                tbl_get(se, k2)
            }) by {
            lemma_tbl_get_remove(se, i, k2);
            lemma_tbl_get_push(se.remove(i), qk, qv2, k2);
        }
        assert forall|k: Seq<u8>| #[trigger] s2.list_at(k) == s1.list_at(k) by {}
        assert forall|k: Seq<u8>|
            #[trigger] s2.queue_at(k) matches Some(qv) ==> queue_view_wf(qv) by {
            if k != qk {
                assert(s1.queue_at(k) == s2.queue_at(k));
            }
        }
    }

    /// After appending a queue under a fresh key, that key sees it, every
    /// other queue is untouched, and the store stays well-formed.
    proof fn lemma_queues_create(
        s1: CandyStore,
        s2: CandyStore,
        qk: Seq<u8>,
        qv2: (Seq<(nat, Seq<u8>)>, nat),
    )
        requires
            s1.wf(),
            !tbl_has(s1.queues.entries(), qk),
            s2.queues.entries() == s1.queues.entries().push((qk, qv2)),
            s2.map == s1.map,
            s2.big == s1.big,
            s2.lists == s1.lists,
            queue_view_wf(qv2),
        ensures
            s2.wf(),
            s2.queue_at(qk) == Some(qv2),
            forall|k2: Seq<u8>| k2 != qk ==> #[trigger] s2.queue_at(k2) == s1.queue_at(k2),
    {
        let se = s1.queues.entries();
        assert forall|k2: Seq<u8>| #[trigger]
            tbl_get(s2.queues.entries(), k2) == (if k2 == qk {
                Some(qv2)
            } else {
                tbl_get(se, k2)
            }) by {
            lemma_tbl_get_push(se, qk, qv2, k2);
        }
        assert forall|k: Seq<u8>| #[trigger] s2.list_at(k) == s1.list_at(k) by {}
        assert forall|k: Seq<u8>|
            #[trigger] s2.queue_at(k) matches Some(qv) ==> queue_view_wf(qv) by {
            if k != qk {
                assert(s1.queue_at(k) == s2.queue_at(k));
            }
        }
    }

    /// Pushes a value at the head of a queue, assigning the next index. An
    /// absent queue comes into being, its first push taking index zero.
    pub fn push_to_queue_head(&mut self, queue_key: &[u8], val: &[u8])
        requires
            old(self).wf(),
            match old(self).queue_at(queue_key@) {
                Some(qv) => qv.1 < usize::MAX as nat,
                None => true,
            },
        ensures
            final(self).wf(),
            final(self).map == old(self).map,
            final(self).big == old(self).big,
            final(self).lists == old(self).lists,
            forall|k2: Seq<u8>|
                k2 != queue_key@ ==> #[trigger] final(self).queue_at(k2) == old(self).queue_at(
                    k2,
                ),
            match old(self).queue_at(queue_key@) {
                None => final(self).queue_at(queue_key@) == Some((seq![(0nat, val@)], 1nat)),
                Some(qv) => final(self).queue_at(queue_key@) == Some(
                    (seq![(qv.1, val@)] + qv.0, qv.1 + 1),
                ),
            },
    {
        let ghost old_store = *self;
        match self.queues.find(queue_key) {
            None => {
                proof {
                    lemma_tbl_get_absent(self.queues.entries(), queue_key@);
                }
                let mut items: Vec<QueueItem> = Vec::new();
                items.push(QueueItem { idx: 0, val: slice_to_vec(val) });
                let q = QueueState { items, next: 1 };
                let ghost qvv = q@;
                proof {
                    assert(qvv.0 =~= seq![(0nat, val@)]);
                }
                self.queues.push_row(slice_to_vec(queue_key), q);
                proof {
                    CandyStore::lemma_queues_create(old_store, *self, queue_key@, qvv);
                }
            },
            Some(i) => {
                proof {
                    lemma_tbl_get_at(self.queues.entries(), queue_key@, i as int);
                }
                let row = self.queues.remove_at(i);
                let mut q = row.val;
                let ghost qv = q@;
                let idx = q.next;
                q.items.insert(0, QueueItem { idx, val: slice_to_vec(val) });
                q.next = q.next + 1;
                let ghost qvv = q@;
                proof {
                    assert(qvv.0 =~= seq![(qv.1, val@)] + qv.0);
                    assert(queue_view_wf(qvv));
                }
                self.queues.push_row(row.key, q);
                proof {
                    CandyStore::lemma_queues_shuffle(old_store, *self, queue_key@, i as int, qvv);
                }
            },
        }
    }

    /// Pushes a value at the tail of a queue, assigning the next index. An
    /// absent queue comes into being, its first push taking index zero.
    pub fn push_to_queue_tail(&mut self, queue_key: &[u8], val: &[u8])
        requires
            old(self).wf(),
            match old(self).queue_at(queue_key@) {
                Some(qv) => qv.1 < usize::MAX as nat,
                None => true,
            },
        ensures
            final(self).wf(),
            final(self).map == old(self).map,
            final(self).big == old(self).big,
            final(self).lists == old(self).lists,
            forall|k2: Seq<u8>|
                k2 != queue_key@ ==> #[trigger] final(self).queue_at(k2) == old(self).queue_at(
                    k2,
                ),
            match old(self).queue_at(queue_key@) {
                None => final(self).queue_at(queue_key@) == Some((seq![(0nat, val@)], 1nat)),
                Some(qv) => final(self).queue_at(queue_key@) == Some(
                    (qv.0.push((qv.1, val@)), qv.1 + 1),
                ),
            },
    {
        let ghost old_store = *self;
        match self.queues.find(queue_key) {
            None => {
                proof {
                    lemma_tbl_get_absent(self.queues.entries(), queue_key@);
                }
                let mut items: Vec<QueueItem> = Vec::new();
                items.push(QueueItem { idx: 0, val: slice_to_vec(val) });
                let q = QueueState { items, next: 1 };
                let ghost qvv = q@;
                proof {
                    assert(qvv.0 =~= seq![(0nat, val@)]);
                }
                self.queues.push_row(slice_to_vec(queue_key), q);
                proof {
                    CandyStore::lemma_queues_create(old_store, *self, queue_key@, qvv);
                }
            },
            Some(i) => {
                proof {
                    lemma_tbl_get_at(self.queues.entries(), queue_key@, i as int);
                }
                let row = self.queues.remove_at(i);
                let mut q = row.val;
                let ghost qv = q@;
                let idx = q.next;
                q.items.push(QueueItem { idx, val: slice_to_vec(val) });
                q.next = q.next + 1;
                let ghost qvv = q@;
                proof {
                    assert(qvv.0 =~= qv.0.push((qv.1, val@)));
                    assert(queue_view_wf(qvv));
                }
                self.queues.push_row(row.key, q);
                proof {
                    CandyStore::lemma_queues_shuffle(old_store, *self, queue_key@, i as int, qvv);
                }
            },
        }
    }

    /// Removes and returns the head slot of a queue: its push-time index and
    /// its value.
    pub fn pop_queue_head_with_idx(&mut self, queue_key: &[u8]) -> (r: Option<(usize, Vec<u8>)>)
        requires
            old(self).wf(),
        ensures
            final(self).wf(),
            final(self).map == old(self).map,
            final(self).big == old(self).big,
            final(self).lists == old(self).lists,
            forall|k2: Seq<u8>|
                k2 != queue_key@ ==> #[trigger] final(self).queue_at(k2) == old(self).queue_at(
                    k2,
                ),
            match old(self).queue_at(queue_key@) {
                None => final(self).queue_at(queue_key@) is None && r is None,
                Some(qv) => {
                    if qv.0.len() == 0 {
                        final(self).queue_at(queue_key@) == Some(qv) && r is None
                    } else {
                        &&& final(self).queue_at(queue_key@) == Some((qv.0.drop_first(), qv.1))
                        &&& (r matches Some(p) && p.0 as nat == qv.0[0].0 && p.1@ == qv.0[0].1)
                    }
                },
            },
    {
        let ghost old_store = *self;
        match self.queues.find(queue_key) {
            None => {
                proof {
                    lemma_tbl_get_absent(self.queues.entries(), queue_key@);
                }
                None
            },
            Some(i) => {
                proof {
                    lemma_tbl_get_at(self.queues.entries(), queue_key@, i as int);
                }
                let row = self.queues.remove_at(i);
                let mut q = row.val;
                let ghost qv = q@;
                let result: Option<(usize, Vec<u8>)>;
                if q.items.len() == 0 {
                    result = None;
                } else {
                    let item = q.items.remove(0);
                    proof {
                        assert(q@.0 =~= qv.0.drop_first());
                    }
                    result = Some((item.idx, item.val));
                }
                let ghost qvv = q@;
                self.queues.push_row(row.key, q);
                proof {
                    CandyStore::lemma_queues_shuffle(old_store, *self, queue_key@, i as int, qvv);
                }
                result
            },
        }
    }

    /// Removes and returns the tail slot of a queue: its push-time index and
    /// its value.
    pub fn pop_queue_tail_with_idx(&mut self, queue_key: &[u8]) -> (r: Option<(usize, Vec<u8>)>)
        requires
            old(self).wf(),
        ensures
            final(self).wf(),
            final(self).map == old(self).map,
            final(self).big == old(self).big,
            final(self).lists == old(self).lists,
            forall|k2: Seq<u8>|
                k2 != queue_key@ ==> #[trigger] final(self).queue_at(k2) == old(self).queue_at(
                    k2,
                ),
            match old(self).queue_at(queue_key@) {
                None => final(self).queue_at(queue_key@) is None && r is None,
                Some(qv) => {
                    if qv.0.len() == 0 {
                        final(self).queue_at(queue_key@) == Some(qv) && r is None
                    } else {
                        &&& final(self).queue_at(queue_key@) == Some((qv.0.drop_last(), qv.1))
                        &&& (r matches Some(p) && p.0 as nat == qv.0.last().0 && p.1@
                            == qv.0.last().1)
                    }
                },
            },
    {
        let ghost old_store = *self;
        match self.queues.find(queue_key) {
            None => {
                proof {
                    lemma_tbl_get_absent(self.queues.entries(), queue_key@);
                }
                None
            },
            Some(i) => {
                proof {
                    lemma_tbl_get_at(self.queues.entries(), queue_key@, i as int);
                }
                let row = self.queues.remove_at(i);
                let mut q = row.val;
                let ghost qv = q@;
                let result: Option<(usize, Vec<u8>)>;
                let n = q.items.len();
                if n == 0 {
                    result = None;
                } else {
                    let item = q.items.remove(n - 1);
                    proof {
                        assert(q@.0 =~= qv.0.drop_last());
                    }
                    result = Some((item.idx, item.val));
                }
                let ghost qvv = q@;
                self.queues.push_row(row.key, q);
                proof {
                    CandyStore::lemma_queues_shuffle(old_store, *self, queue_key@, i as int, qvv);
                }
                result
            },
        }
    }

    /// Reads the head slot of a queue without removing it.
    pub fn peek_queue_head_with_idx(&self, queue_key: &[u8]) -> (r: Option<(usize, Vec<u8>)>)
        requires
            self.wf(),
        ensures
            match self.queue_at(queue_key@) {
                None => r is None,
                Some(qv) => {
                    if qv.0.len() == 0 {
                        r is None
                    } else {
                        r matches Some(p) && p.0 as nat == qv.0[0].0 && p.1@ == qv.0[0].1
                    }
                },
            },
    {
        match self.queues.find(queue_key) {
            None => {
                proof {
                    lemma_tbl_get_absent(self.queues.entries(), queue_key@);
                }
                None
            },
            Some(i) => {
                proof {
                    lemma_tbl_get_at(self.queues.entries(), queue_key@, i as int);
                }
                let q = self.queues.val_at(i);
                if q.items.len() == 0 {
                    None
                } else {
                    Some((q.items[0].idx, slice_to_vec(q.items[0].val.as_slice())))
                }
            },
        }
    }

    /// Reads the tail slot of a queue without removing it.
    pub fn peek_queue_tail_with_idx(&self, queue_key: &[u8]) -> (r: Option<(usize, Vec<u8>)>)
        requires
            self.wf(),
        ensures
            match self.queue_at(queue_key@) {
                None => r is None,
                Some(qv) => {
                    if qv.0.len() == 0 {
                        r is None
                    } else {
                        r matches Some(p) && p.0 as nat == qv.0.last().0 && p.1@ == qv.0.last().1
                    }
                },
            },
    {
        match self.queues.find(queue_key) {
            None => {
                proof {
                    lemma_tbl_get_absent(self.queues.entries(), queue_key@);
                }
                None
            },
            Some(i) => {
                proof {
                    lemma_tbl_get_at(self.queues.entries(), queue_key@, i as int);
                }
                let q = self.queues.val_at(i);
                let n = q.items.len();
                if n == 0 {
                    None
                } else {
                    Some((q.items[n - 1].idx, slice_to_vec(q.items[n - 1].val.as_slice())))
                }
            },
        }
    }

    /// All (index, value) slots of a queue, head to tail.
    pub fn iter_queue(&self, queue_key: &[u8]) -> (r: Vec<(usize, Vec<u8>)>)
        requires
            self.wf(),
        ensures
            match self.queue_at(queue_key@) {
                None => r@.len() == 0,
                Some(qv) => {
                    &&& r@.len() == qv.0.len()
                    &&& forall|i: int|
                        0 <= i < qv.0.len() ==> (#[trigger] r@[i]).0 as nat == qv.0[i].0
                            && r@[i].1@ == qv.0[i].1
                },
            },
    {
        match self.queues.find(queue_key) {
            None => {
                proof {
                    lemma_tbl_get_absent(self.queues.entries(), queue_key@);
                }
                Vec::new()
            },
            Some(i) => {
                proof {
                    lemma_tbl_get_at(self.queues.entries(), queue_key@, i as int);
                }
                let q = self.queues.val_at(i);
                let n = q.items.len();
                let mut r: Vec<(usize, Vec<u8>)> = Vec::new();
                let mut j: usize = 0;
                while j < n
                    invariant
                        n == q.items@.len(),
                        j <= n,
                        r@.len() == j,
                        forall|t: int|
                            0 <= t < j ==> (#[trigger] r@[t]).0 == q.items@[t].idx && r@[t].1@
                                == q.items@[t].val@,
                    decreases n - j,
                {
                    r.push((q.items[j].idx, slice_to_vec(q.items[j].val.as_slice())));
                    j = j + 1;
                }
                r
            },
        }
    }

    /// All (index, value) slots of a queue, tail to head.
    pub fn iter_queue_backwards(&self, queue_key: &[u8]) -> (r: Vec<(usize, Vec<u8>)>)
        requires
            self.wf(),
        ensures
            match self.queue_at(queue_key@) {
                None => r@.len() == 0,
                Some(qv) => {
                    &&& r@.len() == qv.0.len()
                    &&& forall|i: int|
                        0 <= i < qv.0.len() ==> (#[trigger] r@[i]).0 as nat == qv.0[qv.0.len()
                            - 1 - i].0 && r@[i].1@ == qv.0[qv.0.len() - 1 - i].1
                },
            },
    {
        match self.queues.find(queue_key) {
            None => {
                proof {
                    lemma_tbl_get_absent(self.queues.entries(), queue_key@);
                }
                Vec::new()
            },
            Some(i) => {
                proof {
                    lemma_tbl_get_at(self.queues.entries(), queue_key@, i as int);
                }
                let q = self.queues.val_at(i);
                let n = q.items.len();
                let mut r: Vec<(usize, Vec<u8>)> = Vec::new();
                let mut j: usize = 0;
                while j < n
                    invariant
                        n == q.items@.len(),
                        j <= n,
                        r@.len() == j,
                        forall|t: int|
                            0 <= t < j ==> (#[trigger] r@[t]).0 == q.items@[n - 1 - t].idx
                                && r@[t].1@ == q.items@[n - 1 - t].val@,
                    decreases n - j,
                {
                    r.push(
                        (q.items[n - 1 - j].idx, slice_to_vec(q.items[n - 1 - j].val.as_slice())),
                    );
                    j = j + 1;
                }
                r
            },
        }
    }

    /// The number of live slots in a queue (zero for an absent queue).
    pub fn queue_len(&self, queue_key: &[u8]) -> (r: usize)
        requires
            self.wf(),
        ensures
            match self.queue_at(queue_key@) {
                None => r == 0,
                Some(qv) => r == qv.0.len(),
            },
    {
        match self.queues.find(queue_key) {
            None => {
                proof {
                    lemma_tbl_get_absent(self.queues.entries(), queue_key@);
                }
                0
            },
            Some(i) => {
                proof {
                    lemma_tbl_get_at(self.queues.entries(), queue_key@, i as int);
                }
                self.queues.val_at(i).items.len()
            },
        }
    }

    /// The half-open interval of currently valid indices: from the oldest
    /// live index through one past the newest. An empty or absent queue
    /// yields an empty interval (at the next index, or at zero).
    pub fn queue_range(&self, queue_key: &[u8]) -> (r: core::ops::Range<usize>)
        requires
            self.wf(),
        ensures
            match self.queue_at(queue_key@) {
                None => r.start == 0 && r.end == 0,
                Some(qv) => {
                    if qv.0.len() == 0 {
                        r.start as nat == qv.1 && r.end as nat == qv.1
                    } else {
                        r.start as nat == min_live_idx(qv.0) && r.end as nat == max_live_idx(qv.0)
                            + 1
                    }
                },
            },
    {
        match self.queues.find(queue_key) {
            None => {
                proof {
                    lemma_tbl_get_absent(self.queues.entries(), queue_key@);
                }
                0..0
            },
            Some(i) => {
                proof {
                    lemma_tbl_get_at(self.queues.entries(), queue_key@, i as int);
                }
                let q = self.queues.val_at(i);
                let ghost qv = q@;
                let n = q.items.len();
                if n == 0 {
                    q.next..q.next
                } else {
                    let mut mn = q.items[0].idx;
                    let mut mx = q.items[0].idx;
                    let mut j: usize = 1;
                    proof {
                        assert(qv.0.subrange(0, 1) =~= seq![qv.0[0]]);
                    }
                    while j < n
                        invariant
                            n == q.items@.len(),
                            n == qv.0.len(),
                            qv == q@,
                            1 <= j <= n,
                            mn as nat == min_live_idx(qv.0.subrange(0, j as int)),
                            mx as nat == max_live_idx(qv.0.subrange(0, j as int)),
                        decreases n - j,
                    {
                        proof {
                            assert(qv.0.subrange(0, j + 1).drop_last() =~= qv.0.subrange(
                                0,
                                j as int,
                            ));
                            assert(qv.0.subrange(0, j + 1).last() == qv.0[j as int]);
                        }
                        let idx = q.items[j].idx;
                        if idx < mn {
                            mn = idx;
                        }
                        if idx > mx {
                            mx = idx;
                        }
                        j = j + 1;
                    }
                    proof {
                        assert(qv.0.subrange(0, n as int) =~= qv.0);
                        lemma_queue_range_covers(qv.0);
                        assert(queue_view_wf(qv));
                    }
                    mn..mx + 1
                }
            },
        }
    }
}

} // verus!
