//! An ordered association table keyed by byte strings. It backs every part
//! of the store: the flat maps use only its key lookup, while lists lean on
//! the fact that rows keep their order (new rows go to the back, updates stay
//! in place, removals close the gap). Its abstract state is the sequence of
//! (key bytes, value view) pairs, with keys pairwise distinct.

use vstd::prelude::*;

use crate::wire::bytes_eq;

verus! {

/// One row: a byte-string key and its value.
pub struct TableRow<V> {
    pub key: Vec<u8>,
    pub val: V,
}

/// Whether some row of `s` carries the key `k`.
pub open spec fn tbl_has<T>(s: Seq<(Seq<u8>, T)>, k: Seq<u8>) -> bool {
    exists|i: int| 0 <= i < s.len() && (#[trigger] s[i]).0 == k
}

/// The index of the row carrying `k` (meaningful when keys are distinct).
pub open spec fn tbl_idx<T>(s: Seq<(Seq<u8>, T)>, k: Seq<u8>) -> int {
    choose|i: int| 0 <= i < s.len() && (#[trigger] s[i]).0 == k
}

/// The value stored under `k`, if any.
pub open spec fn tbl_get<T>(s: Seq<(Seq<u8>, T)>, k: Seq<u8>) -> Option<T> {
    if tbl_has(s, k) {
        Some(s[tbl_idx(s, k)].1)
    } else {
        None
    }
}

/// Keys are pairwise distinct.
pub open spec fn tbl_distinct<T>(s: Seq<(Seq<u8>, T)>) -> bool {
    forall|i: int, j: int| 0 <= i < j < s.len() ==> (#[trigger] s[i]).0 != (#[trigger] s[j]).0
}

/// Under distinct keys, a matching row determines the lookup.
pub proof fn lemma_tbl_get_at<T>(s: Seq<(Seq<u8>, T)>, k: Seq<u8>, i: int)
    requires
        tbl_distinct(s),
        0 <= i < s.len(),
        s[i].0 == k,
    ensures
        tbl_has(s, k),
        tbl_idx(s, k) == i,
        tbl_get(s, k) == Some(s[i].1),
{
    assert(tbl_has(s, k));
    let j = tbl_idx(s, k);
    if j != i {
        assert(s[i].0 != s[j].0);
        assert(false);
    }
}

/// A key no row carries looks up to nothing.
pub proof fn lemma_tbl_get_absent<T>(s: Seq<(Seq<u8>, T)>, k: Seq<u8>)
    requires
        forall|i: int| 0 <= i < s.len() ==> (#[trigger] s[i]).0 != k,
    ensures
        !tbl_has(s, k),
        tbl_get(s, k) is None,
{
    if tbl_has(s, k) {
        let i = tbl_idx(s, k);
        assert(s[i].0 == k);
        assert(false);
    }
}

/// Appending a fresh key: its own lookup sees the new value, every other
/// lookup is unchanged, and keys stay distinct.
pub proof fn lemma_tbl_get_push<T>(s: Seq<(Seq<u8>, T)>, k: Seq<u8>, v: T, k2: Seq<u8>)
    requires
        tbl_distinct(s),
        !tbl_has(s, k),
    ensures
        tbl_distinct(s.push((k, v))),
        tbl_get(s.push((k, v)), k2) == if k2 == k {
            Some(v)
        } else {
            tbl_get(s, k2)
        },
{
    let s2 = s.push((k, v));
    assert forall|i: int, j: int| 0 <= i < j < s2.len() implies (#[trigger] s2[i]).0 != (
    #[trigger] s2[j]).0 by {
        if j == s.len() {
            if s2[i].0 == k {
                assert(0 <= i < s.len() && s[i].0 == k);
                assert(tbl_has(s, k));
            }
        }
    }
    if k2 == k {
        lemma_tbl_get_at(s2, k, s.len() as int);
    } else {
        if tbl_has(s, k2) {
            let i = tbl_idx(s, k2);
            lemma_tbl_get_at(s, k2, i);
            assert(s2[i].0 == k2);
            lemma_tbl_get_at(s2, k2, i);
        } else {
            assert forall|i: int| 0 <= i < s2.len() implies (#[trigger] s2[i]).0 != k2 by {
                if i < s.len() {
                    if s2[i].0 == k2 {
                        assert(tbl_has(s, k2));
                    }
                }
            }
            lemma_tbl_get_absent(s2, k2);
            lemma_tbl_get_absent(s, k2);
        }
    }
}

/// Replacing the value at one row: that key's lookup sees the new value,
/// every other lookup is unchanged, and keys stay distinct.
pub proof fn lemma_tbl_get_update<T>(s: Seq<(Seq<u8>, T)>, i: int, v: T, k2: Seq<u8>)
    requires
        tbl_distinct(s),
        0 <= i < s.len(),
    ensures
        tbl_distinct(s.update(i, (s[i].0, v))),
        tbl_get(s.update(i, (s[i].0, v)), k2) == if k2 == s[i].0 {
            Some(v)
        } else {
            tbl_get(s, k2)
        },
{
    let s2 = s.update(i, (s[i].0, v));
    assert(forall|j: int| 0 <= j < s2.len() ==> (#[trigger] s2[j]).0 == s[j].0);
    if k2 == s[i].0 {
        lemma_tbl_get_at(s2, k2, i);
    } else {
        if tbl_has(s, k2) {
            let j = tbl_idx(s, k2);
            lemma_tbl_get_at(s, k2, j);
            lemma_tbl_get_at(s2, k2, j);
        } else {
            assert forall|j: int| 0 <= j < s2.len() implies (#[trigger] s2[j]).0 != k2 by {
                if s2[j].0 == k2 {
                    assert(s[j].0 == k2);
                    assert(tbl_has(s, k2));
                }
            }
            lemma_tbl_get_absent(s2, k2);
            lemma_tbl_get_absent(s, k2);
        }
    }
}

/// Removing one row: its key's lookup turns empty, every other lookup is
/// unchanged, and keys stay distinct.
pub proof fn lemma_tbl_get_remove<T>(s: Seq<(Seq<u8>, T)>, i: int, k2: Seq<u8>)
    requires
        tbl_distinct(s),
        0 <= i < s.len(),
    ensures
        tbl_distinct(s.remove(i)),
        tbl_get(s.remove(i), k2) == if k2 == s[i].0 {
            None::<T>
        } else {
            tbl_get(s, k2)
        },
{
    let s2 = s.remove(i);
    assert(forall|j: int| 0 <= j < i ==> #[trigger] s2[j] == s[j]);
    assert(forall|j: int| i <= j < s2.len() ==> #[trigger] s2[j] == s[j + 1]);
    assert forall|a: int, b: int| 0 <= a < b < s2.len() implies (#[trigger] s2[a]).0 != (
    #[trigger] s2[b]).0 by {
        let a1 = if a < i {
            a
        } else {
            a + 1
        };
        let b1 = if b < i {
            b
        } else {
            b + 1
        };
        assert(s2[a] == s[a1] && s2[b] == s[b1]);
    }
    if k2 == s[i].0 {
        assert forall|j: int| 0 <= j < s2.len() implies (#[trigger] s2[j]).0 != k2 by {
            let j1 = if j < i {
                j
            } else {
                j + 1
            };
            assert(s2[j] == s[j1]);
            if s[j1].0 == k2 {
                if j1 < i {
                    assert(s[j1].0 != s[i].0);
                } else {
                    assert(s[i].0 != s[j1].0);
                }
                assert(false);
            }
        }
        lemma_tbl_get_absent(s2, k2);
    } else {
        if tbl_has(s, k2) {
            let j = tbl_idx(s, k2);
            lemma_tbl_get_at(s, k2, j);
            let j2 = if j < i {
                j
            } else {
                j - 1
            };
            assert(s2[j2] == s[j]);
            lemma_tbl_get_at(s2, k2, j2);
        } else {
            assert forall|j: int| 0 <= j < s2.len() implies (#[trigger] s2[j]).0 != k2 by {
                let j1 = if j < i {
                    j
                } else {
                    j + 1
                };
                assert(s2[j] == s[j1]);
                if s[j1].0 == k2 {
                    assert(tbl_has(s, k2));
                }
            }
            lemma_tbl_get_absent(s2, k2);
            lemma_tbl_get_absent(s, k2);
        }
    }
}

/// An ordered table of unique byte-string keys.
pub struct Table<V> {
    rows: Vec<TableRow<V>>,
}

impl<V: View> Table<V> {
    /// The rows as (key bytes, value view) pairs, in order.
    pub closed spec fn entries(self) -> Seq<(Seq<u8>, V::V)> {
        self.rows@.map(|i: int, r: TableRow<V>| (r.key@, r.val@))
    }

    /// Keys are pairwise distinct.
    pub open spec fn wf(self) -> bool {
        tbl_distinct(self.entries())
    }

    /// The value under `k`, if any.
    pub open spec fn spec_get(self, k: Seq<u8>) -> Option<V::V> {
        tbl_get(self.entries(), k)
    }

    pub fn new() -> (r: Self)
        ensures
            r.entries() == Seq::<(Seq<u8>, V::V)>::empty(),
            r.wf(),
    {
        let r = Table { rows: Vec::new() };
        proof {
            assert(r.entries() =~= Seq::<(Seq<u8>, V::V)>::empty());
        }
        r
    }

    pub fn len(&self) -> (r: usize)
        ensures
            r == self.entries().len(),
    {
        self.rows.len()
    }

    /// The index of the row carrying `k`, if any.
    pub fn find(&self, k: &[u8]) -> (r: Option<usize>)
        ensures
            match r {
                Some(i) => 0 <= i < self.entries().len() && self.entries()[i as int].0 == k@,
                None => forall|i: int|
                    0 <= i < self.entries().len() ==> (#[trigger] self.entries()[i]).0 != k@,
            },
    {
        let n = self.rows.len();
        let mut i: usize = 0;
        while i < n
            invariant
                n == self.rows@.len(),
                i <= n,
                forall|j: int| 0 <= j < i ==> (#[trigger] self.entries()[j]).0 != k@,
            decreases n - i,
        {
            if bytes_eq(self.rows[i].key.as_slice(), k) {
                proof {
                    assert(self.entries()[i as int].0 == self.rows@[i as int].key@);
                }
                return Some(i);
            }
            proof {
                assert(self.entries()[i as int].0 == self.rows@[i as int].key@);
            }
            i = i + 1;
        }
        None
    }

    /// A borrow of the value at row `i`.
    pub fn val_at(&self, i: usize) -> (r: &V)
        requires
            i < self.entries().len(),
        ensures
            r@ == self.entries()[i as int].1,
    {
        &self.rows[i].val
    }

    /// A borrow of the key bytes at row `i`.
    pub fn key_at(&self, i: usize) -> (r: &Vec<u8>)
        requires
            i < self.entries().len(),
        ensures
            r@ == self.entries()[i as int].0,
    {
        &self.rows[i].key
    }

    /// Appends a row under a key no row carries yet.
    pub fn push_row(&mut self, k: Vec<u8>, v: V)
        requires
            old(self).wf(),
            !tbl_has(old(self).entries(), k@),
        ensures
            final(self).entries() == old(self).entries().push((k@, v@)),
            final(self).wf(),
    {
        proof {
            lemma_tbl_get_push(self.entries(), k@, v@, k@);
        }
        let ghost old_entries = self.entries();
        let ghost kv = k@;
        let ghost vv = v@;
        self.rows.push(TableRow { key: k, val: v });
        proof {
            assert(self.entries() =~= old_entries.push((kv, vv)));
        }
    }

    /// Swaps in a new value at row `i`, returning the old one; the key and
    /// the row's place are kept.
    pub fn replace_at(&mut self, i: usize, v: V) -> (r: V)
        requires
            old(self).wf(),
            i < old(self).entries().len(),
        ensures
            final(self).entries() == old(self).entries().update(
                i as int,
                (old(self).entries()[i as int].0, v@),
            ),
            r@ == old(self).entries()[i as int].1,
            final(self).wf(),
    {
        proof {
            lemma_tbl_get_update(self.entries(), i as int, v@, self.entries()[i as int].0);
        }
        let ghost old_entries = self.entries();
        let ghost vv = v@;
        let mut out = v;
        let row = vstd::std_specs::vec::vec_index_mut(&mut self.rows, i);
        core::mem::swap(&mut row.val, &mut out);
        proof {
            assert(self.entries() =~= old_entries.update(i as int, (old_entries[i as int].0, vv)));
        }
        out
    }

    /// Removes row `i`, closing the gap and keeping every other row's order.
    pub fn remove_at(&mut self, i: usize) -> (r: TableRow<V>)
        requires
            old(self).wf(),
            i < old(self).entries().len(),
        ensures
            final(self).entries() == old(self).entries().remove(i as int),
            r.key@ == old(self).entries()[i as int].0,
            r.val@ == old(self).entries()[i as int].1,
            final(self).wf(),
    {
        proof {
            lemma_tbl_get_remove(self.entries(), i as int, self.entries()[i as int].0);
        }
        let ghost old_entries = self.entries();
        let r = self.rows.remove(i);
        proof {
            assert(self.entries() =~= old_entries.remove(i as int));
        }
        r
    }
}

} // verus!
