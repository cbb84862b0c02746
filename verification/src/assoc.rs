//! A string-keyed association table with unique keys.
//!
//! The shared registries of the engine — topic channels, cursors, interest
//! flags, subscriber counts, snapshot caches — are all small keyed tables.
//! This module gives them one verified representation with exact contracts:
//! a vector of `(key, value)` pairs whose keys are pairwise distinct.

use vstd::prelude::*;

verus! {

/// A keyed table: insertion-ordered entries, pairwise distinct keys.
pub struct AssocVec<V> {
    entries: Vec<(String, V)>,
}

impl<V> AssocVec<V> {
    /// Keys in insertion order.
    pub closed spec fn keys(self) -> Seq<Seq<char>> {
        Seq::new(self.entries@.len(), |i: int| self.entries@[i].0@)
    }

    /// Number of entries.
    pub closed spec fn spec_len(self) -> int {
        self.entries@.len() as int
    }

    /// The key of entry `i`.
    pub closed spec fn key_at(self, i: int) -> Seq<char> {
        self.entries@[i].0@
    }

    /// The value of entry `i`.
    pub closed spec fn value_at(self, i: int) -> V {
        self.entries@[i].1
    }

    /// Some entry carries key `k`.
    pub closed spec fn contains_key(self, k: Seq<char>) -> bool {
        exists|i: int| 0 <= i < self.entries@.len() && self.entries@[i].0@ == k
    }

    spec fn idx_of(self, k: Seq<char>) -> int {
        choose|i: int| 0 <= i < self.entries@.len() && self.entries@[i].0@ == k
    }

    /// The value stored under key `k`.
    pub closed spec fn value_of(self, k: Seq<char>) -> V {
        self.entries@[self.idx_of(k)].1
    }

    /// Keys are pairwise distinct.
    pub closed spec fn wf(self) -> bool {
        forall|i: int, j: int|
            0 <= i < j < self.entries@.len() ==> (#[trigger] self.entries@[i]).0@ != (
            #[trigger] self.entries@[j]).0@
    }

    /// Entry `i` is the entry of its own key.
    pub proof fn lemma_at(self, i: int)
        requires
            self.wf(),
            0 <= i < self.spec_len(),
        ensures
            self.contains_key(self.key_at(i)),
            self.value_of(self.key_at(i)) == self.value_at(i),
    {
        assert(self.entries@[i].0@ == self.key_at(i));
        let j = self.idx_of(self.key_at(i));
        assert(self.entries@[j].0@ == self.key_at(i));
        if i != j {
            assert(false);
        }
    }

    /// Two different entries never share a key.
    pub proof fn lemma_keys_distinct(self, i: int, j: int)
        requires
            self.wf(),
            0 <= i < self.spec_len(),
            0 <= j < self.spec_len(),
            i != j,
        ensures
            self.key_at(i) != self.key_at(j),
    {
    }

    /// A present key names some entry, and `value_of` reads that entry.
    pub proof fn lemma_contains_index(self, k: Seq<char>)
        requires
            self.wf(),
            self.contains_key(k),
        ensures
            exists|i: int|
                0 <= i < self.spec_len() && #[trigger] self.key_at(i) == k && self.value_at(i)
                    == self.value_of(k),
    {
        let j = self.idx_of(k);
        assert(self.entries@[j].0@ == k);
        assert(self.key_at(j) == k && self.value_at(j) == self.value_of(k));
    }

    /// An empty table.
    pub fn new() -> (r: AssocVec<V>)
        ensures
            r.wf(),
            r.spec_len() == 0,
            forall|k: Seq<char>| !r.contains_key(k),
    {
        AssocVec { entries: Vec::new() }
    }

    /// Number of entries.
    pub fn len(&self) -> (r: usize)
        ensures
            r == self.spec_len(),
    {
        self.entries.len()
    }

    /// The key of entry `i`.
    pub fn key_ref(&self, i: usize) -> (r: &String)
        requires
            i < self.spec_len(),
        ensures
            r@ == self.key_at(i as int),
    {
        &self.entries[i].0
    }

    /// The value of entry `i`.
    pub fn value_ref(&self, i: usize) -> (r: &V)
        requires
            i < self.spec_len(),
        ensures
            *r == self.value_at(i as int),
    {
        &self.entries[i].1
    }

    /// The position of key `key`, if present.
    pub fn find(&self, key: &str) -> (r: Option<usize>)
        requires
            self.wf(),
        ensures
            match r {
                Some(i) => i < self.spec_len() && self.key_at(i as int) == key@
                    && self.contains_key(key@) && self.value_at(i as int) == self.value_of(key@),
                None => !self.contains_key(key@),
            },
    {
        let n = self.entries.len();
        let mut i: usize = 0;
        while i < n
            invariant
                n == self.entries@.len(),
                i <= n,
                self.wf(),
                forall|k: int| 0 <= k < i ==> (#[trigger] self.entries@[k]).0@ != key@,
            decreases n - i,
        {
            if crate::text::str_eq(self.entries[i].0.as_str(), key) {
                proof {
                    let j = self.idx_of(key@);
                    assert(self.entries@[i as int].0@ == key@);
                    assert(self.contains_key(key@));
                    assert(self.entries@[j].0@ == key@);
                    if j != i as int {
                        assert(false);
                    }
                }
                return Some(i);
            }
            i = i + 1;
        }
        None
    }

    /// Appends a binding for a key not yet present.
    pub fn push_new(&mut self, key: String, v: V)
        requires
            old(self).wf(),
            !old(self).contains_key(key@),
        ensures
            final(self).wf(),
            final(self).spec_len() == old(self).spec_len() + 1,
            final(self).contains_key(key@),
            final(self).value_of(key@) == v,
            final(self).key_at(old(self).spec_len()) == key@,
            final(self).value_at(old(self).spec_len()) == v,
            forall|i: int|
                0 <= i < old(self).spec_len() ==> final(self).key_at(i) == old(self).key_at(i)
                    && final(self).value_at(i) == old(self).value_at(i),
            forall|k: Seq<char>|
                k != key@ ==> (final(self).contains_key(k) == old(self).contains_key(k)),
            forall|k: Seq<char>|
                k != key@ && old(self).contains_key(k) ==> final(self).value_of(k) == old(self).value_of(k),
    {
        let ghost es0 = self.entries@;
        let n = self.entries.len();
        self.entries.push((key, v));
        proof {
            let es = self.entries@;
            assert(es[n as int].0@ == key@);
            assert(self.contains_key(key@));
            assert forall|i: int, j: int|
                0 <= i < j < es.len() implies (#[trigger] es[i]).0@ != (#[trigger] es[j]).0@ by {
                if j < es.len() - 1 {
                    assert(es[i] == es0[i] && es[j] == es0[j]);
                } else {
                    assert(es[i] == es0[i]);
                    if es0[i].0@ == key@ {
                        assert(old(self).contains_key(key@));
                    }
                }
            }
            let j = self.idx_of(key@);
            assert(es[j].0@ == key@);
            assert(j == n as int) by {
                if j < n as int {
                    assert(es[j] == es0[j]);
                    assert(old(self).contains_key(key@));
                }
            }
            assert forall|k: Seq<char>| k != key@ implies (self.contains_key(k) == old(self).contains_key(k)) by {
                if self.contains_key(k) {
                    let m = self.idx_of(k);
                    assert(es[m].0@ == k);
                    assert(m != n as int);
                    assert(es[m] == es0[m]);
                    assert(old(self).contains_key(k));
                }
                if old(self).contains_key(k) {
                    let m = old(self).idx_of(k);
                    assert(es0[m].0@ == k);
                    assert(es[m] == es0[m]);
                    assert(self.contains_key(k));
                }
            }
            assert forall|k: Seq<char>| k != key@ && old(self).contains_key(k) implies
                self.value_of(k) == old(self).value_of(k) by {
                let m = old(self).idx_of(k);
                assert(es0[m].0@ == k);
                assert(es[m] == es0[m]);
                assert(self.contains_key(k));
                let m2 = self.idx_of(k);
                assert(es[m2].0@ == k);
                assert(m2 != n as int);
                assert(es[m2] == es0[m2]);
                assert(m2 == m) by {
                    if m2 != m {
                        assert(es0[m2].0@ == es0[m].0@);
                    }
                }
            }
        }
    }

    /// Removes entry `i`, shifting later entries down.
    pub fn remove_at(&mut self, i: usize)
        requires
            old(self).wf(),
            i < old(self).spec_len(),
        ensures
            final(self).wf(),
            final(self).spec_len() == old(self).spec_len() - 1,
            !final(self).contains_key(old(self).key_at(i as int)),
            forall|j: int|
                0 <= j < i ==> final(self).key_at(j) == old(self).key_at(j) && final(self).value_at(j) == old(self).value_at(j),
            forall|j: int|
                i <= j < final(self).spec_len() ==> final(self).key_at(j) == old(self).key_at(j + 1)
                    && final(self).value_at(j) == old(self).value_at(j + 1),
            forall|k: Seq<char>|
                k != old(self).key_at(i as int) ==> final(self).contains_key(k) == old(self).contains_key(k),
            forall|k: Seq<char>|
                k != old(self).key_at(i as int) && old(self).contains_key(k) ==> final(self).value_of(k) == old(self).value_of(k),
    {
        let ghost es0 = self.entries@;
        self.entries.remove(i);
        proof {
            let es = self.entries@;
            assert(es =~= es0.remove(i as int));
            assert forall|j: int| 0 <= j < es.len() implies #[trigger] es[j] == (if j < i as int {
                es0[j]
            } else {
                es0[j + 1]
            }) by {}
            assert forall|a: int, b: int|
                0 <= a < b < es.len() implies (#[trigger] es[a]).0@ != (#[trigger] es[b]).0@ by {
                let ao = if a < i as int {
                    a
                } else {
                    a + 1
                };
                let bo = if b < i as int {
                    b
                } else {
                    b + 1
                };
                assert(es[a] == es0[ao] && es[b] == es0[bo]);
            }
            assert(!self.contains_key(es0[i as int].0@)) by {
                if self.contains_key(es0[i as int].0@) {
                    let m = self.idx_of(es0[i as int].0@);
                    assert(es[m].0@ == es0[i as int].0@);
                    let mo = if m < i as int {
                        m
                    } else {
                        m + 1
                    };
                    assert(es0[mo].0@ == es0[i as int].0@);
                    assert(mo != i as int);
                    assert(false);
                }
            }
            assert forall|k: Seq<char>| k != es0[i as int].0@ implies self.contains_key(k) == old(self).contains_key(k) by {
                if self.contains_key(k) {
                    let m = self.idx_of(k);
                    assert(es[m].0@ == k);
                    let mo = if m < i as int {
                        m
                    } else {
                        m + 1
                    };
                    assert(es0[mo].0@ == k);
                    assert(old(self).contains_key(k));
                }
                if old(self).contains_key(k) {
                    let m = old(self).idx_of(k);
                    assert(es0[m].0@ == k);
                    assert(m != i as int);
                    let mn = if m < i as int {
                        m
                    } else {
                        m - 1
                    };
                    assert(es[mn] == es0[m]);
                    assert(self.contains_key(k));
                }
            }
            assert forall|k: Seq<char>|
                k != es0[i as int].0@ && old(self).contains_key(k) implies self.value_of(k) == old(self).value_of(k) by {
                let m = old(self).idx_of(k);
                assert(es0[m].0@ == k);
                assert(m != i as int);
                let mn = if m < i as int {
                    m
                } else {
                    m - 1
                };
                assert(es[mn] == es0[m]);
                assert(self.contains_key(k));
                let m2 = self.idx_of(k);
                assert(es[m2].0@ == k);
                let m2o = if m2 < i as int {
                    m2
                } else {
                    m2 + 1
                };
                assert(es0[m2o].0@ == k);
                assert(m2o == m);
                assert(es[m2] == es0[m]);
            }
        }
    }

    /// Inserts a binding for a key not yet present at position `i`,
    /// shifting later entries up.
    pub fn insert_new_at(&mut self, i: usize, key: String, v: V)
        requires
            old(self).wf(),
            !old(self).contains_key(key@),
            i <= old(self).spec_len(),
        ensures
            final(self).wf(),
            final(self).spec_len() == old(self).spec_len() + 1,
            final(self).contains_key(key@),
            final(self).value_of(key@) == v,
            final(self).key_at(i as int) == key@,
            final(self).value_at(i as int) == v,
            forall|j: int|
                0 <= j < i ==> final(self).key_at(j) == old(self).key_at(j) && final(self).value_at(j) == old(self).value_at(j),
            forall|j: int|
                i < j < final(self).spec_len() ==> final(self).key_at(j) == old(self).key_at(j - 1)
                    && final(self).value_at(j) == old(self).value_at(j - 1),
            forall|k: Seq<char>|
                k != key@ ==> (final(self).contains_key(k) == old(self).contains_key(k)),
            forall|k: Seq<char>|
                k != key@ && old(self).contains_key(k) ==> final(self).value_of(k) == old(self).value_of(k),
    {
        let ghost es0 = self.entries@;
        let ghost kv = key@;
        self.entries.insert(i, (key, v));
        proof {
            let es = self.entries@;
            assert(es =~= es0.insert(i as int, es[i as int]));
            assert(es[i as int].0@ == kv && es[i as int].1 == v);
            assert forall|j: int| 0 <= j < es.len() implies #[trigger] es[j] == (if j < i as int {
                es0[j]
            } else if j == i as int {
                es[i as int]
            } else {
                es0[j - 1]
            }) by {}
            assert forall|a: int, b: int|
                0 <= a < b < es.len() implies (#[trigger] es[a]).0@ != (#[trigger] es[b]).0@ by {
                if a != i as int && b != i as int {
                    let ao = if a < i as int {
                        a
                    } else {
                        a - 1
                    };
                    let bo = if b < i as int {
                        b
                    } else {
                        b - 1
                    };
                    assert(es[a] == es0[ao] && es[b] == es0[bo]);
                } else if a == i as int {
                    assert(es[b] == es0[b - 1]);
                    if es0[b - 1].0@ == kv {
                        assert(old(self).contains_key(kv));
                    }
                } else {
                    assert(es[a] == es0[a]);
                    if es0[a].0@ == kv {
                        assert(old(self).contains_key(kv));
                    }
                }
            }
            assert(self.contains_key(kv));
            let m = self.idx_of(kv);
            assert(es[m].0@ == kv);
            assert(m == i as int) by {
                if m != i as int {
                    let mo = if m < i as int {
                        m
                    } else {
                        m - 1
                    };
                    assert(es[m] == es0[mo]);
                    assert(old(self).contains_key(kv));
                }
            }
            assert forall|k: Seq<char>| k != kv implies (self.contains_key(k) == old(self).contains_key(k)) by {
                if self.contains_key(k) {
                    let m2 = self.idx_of(k);
                    assert(es[m2].0@ == k);
                    assert(m2 != i as int);
                    let m2o = if m2 < i as int {
                        m2
                    } else {
                        m2 - 1
                    };
                    assert(es[m2] == es0[m2o]);
                    assert(old(self).contains_key(k));
                }
                if old(self).contains_key(k) {
                    let m2 = old(self).idx_of(k);
                    assert(es0[m2].0@ == k);
                    let m2n = if m2 < i as int {
                        m2
                    } else {
                        m2 + 1
                    };
                    assert(es[m2n] == es0[m2]);
                    assert(self.contains_key(k));
                }
            }
            assert forall|k: Seq<char>|
                k != kv && old(self).contains_key(k) implies self.value_of(k) == old(self).value_of(k) by {
                let m2 = old(self).idx_of(k);
                assert(es0[m2].0@ == k);
                let m2n = if m2 < i as int {
                    m2
                } else {
                    m2 + 1
                };
                assert(es[m2n] == es0[m2]);
                assert(self.contains_key(k));
                let m3 = self.idx_of(k);
                assert(es[m3].0@ == k);
                assert(m3 == m2n) by {
                    if m3 != m2n {
                        assert(false);
                    }
                }
            }
        }
    }

    /// Swaps the value of entry `i` for `v`, returning the old value and
    /// keeping the key.
    pub fn replace_value_at(&mut self, i: usize, v: V) -> (r: V)
        requires
            old(self).wf(),
            i < old(self).spec_len(),
        ensures
            r == old(self).value_at(i as int),
            final(self).wf(),
            final(self).spec_len() == old(self).spec_len(),
            forall|j: int|
                0 <= j < old(self).spec_len() ==> final(self).key_at(j) == old(self).key_at(j),
            forall|j: int|
                0 <= j < old(self).spec_len() && j != i ==> final(self).value_at(j) == old(self).value_at(j),
            final(self).value_at(i as int) == v,
            forall|k: Seq<char>| final(self).contains_key(k) == old(self).contains_key(k),
            forall|k: Seq<char>|
                k != old(self).key_at(i as int) && old(self).contains_key(k) ==> final(self).value_of(k) == old(self).value_of(k),
            final(self).value_of(old(self).key_at(i as int)) == v,
    {
        let ghost pre = *self;
        let (key, oldv) = self.entries.remove(i);
        self.entries.insert(i, (key, v));
        proof {
            assert(self.entries@ =~= pre.entries@.update(i as int, (pre.entries@[i as int].0, v)));
            lemma_update_at(pre, *self, i as int, v);
        }
        oldv
    }

    /// Replaces the value of entry `i`, keeping its key.
    pub fn set_value_at(&mut self, i: usize, v: V)
        requires
            old(self).wf(),
            i < old(self).spec_len(),
        ensures
            final(self).wf(),
            final(self).spec_len() == old(self).spec_len(),
            forall|j: int|
                0 <= j < old(self).spec_len() ==> final(self).key_at(j) == old(self).key_at(j),
            forall|j: int|
                0 <= j < old(self).spec_len() && j != i ==> final(self).value_at(j) == old(self).value_at(j),
            final(self).value_at(i as int) == v,
            forall|k: Seq<char>| final(self).contains_key(k) == old(self).contains_key(k),
            forall|k: Seq<char>|
                k != old(self).key_at(i as int) && old(self).contains_key(k) ==> final(self).value_of(k) == old(self).value_of(k),
            final(self).value_of(old(self).key_at(i as int)) == v,
    {
        let ghost pre = *self;
        let key = self.entries[i].0.clone();
        self.entries.set(i, (key, v));
        proof {
            assert(self.entries@ =~= pre.entries@.update(i as int, (pre.entries@[i as int].0, v)));
            lemma_update_at(pre, *self, i as int, v);
        }
    }
}


proof fn lemma_update_at<V>(pre: AssocVec<V>, post: AssocVec<V>, i: int, v: V)
    requires
        pre.wf(),
        0 <= i < pre.entries@.len(),
        post.entries@ == pre.entries@.update(i, (pre.entries@[i].0, v)),
    ensures
        post.wf(),
        post.spec_len() == pre.spec_len(),
        forall|j: int| 0 <= j < pre.spec_len() ==> post.key_at(j) == pre.key_at(j),
        forall|j: int| 0 <= j < pre.spec_len() && j != i ==> post.value_at(j) == pre.value_at(j),
        post.value_at(i) == v,
        forall|k: Seq<char>| post.contains_key(k) == pre.contains_key(k),
        forall|k: Seq<char>|
            k != pre.key_at(i) && pre.contains_key(k) ==> post.value_of(k) == pre.value_of(k),
        post.value_of(pre.key_at(i)) == v,
{
    let es0 = pre.entries@;
    let es = post.entries@;
    assert(es[i].0@ == es0[i].0@);
    assert forall|j: int| 0 <= j < es.len() implies (#[trigger] es[j]).0@ == es0[j].0@ by {
        if j != i {
            assert(es[j] == es0[j]);
        }
    }
    assert forall|a: int, b: int|
        0 <= a < b < es.len() implies (#[trigger] es[a]).0@ != (#[trigger] es[b]).0@ by {
        assert(es[a].0@ == es0[a].0@);
        assert(es[b].0@ == es0[b].0@);
    }
    assert forall|k: Seq<char>| post.contains_key(k) == pre.contains_key(k) by {
        if post.contains_key(k) {
            let m = post.idx_of(k);
            assert(es[m].0@ == k);
            assert(es0[m].0@ == k);
            assert(pre.contains_key(k));
        }
        if pre.contains_key(k) {
            let m = pre.idx_of(k);
            assert(es0[m].0@ == k);
            assert(es[m].0@ == k);
            assert(post.contains_key(k));
        }
    }
    assert forall|k: Seq<char>| pre.contains_key(k) implies post.idx_of(k) == pre.idx_of(k)
        && 0 <= pre.idx_of(k) < es0.len() && es0[pre.idx_of(k)].0@ == k by {
        let m = pre.idx_of(k);
        assert(es0[m].0@ == k);
        assert(es[m].0@ == k);
        assert(post.contains_key(k));
        let m2 = post.idx_of(k);
        assert(es[m2].0@ == k);
        assert(es0[m2].0@ == k);
        if m2 != m {
            assert(false);
        }
    }
    assert forall|k: Seq<char>|
        k != pre.key_at(i) && pre.contains_key(k) implies post.value_of(k) == pre.value_of(
        k,
    ) by {
        let m = pre.idx_of(k);
        assert(es0[m].0@ == k);
        assert(m != i);
        assert(es[m] == es0[m]);
    }
    assert(pre.contains_key(pre.key_at(i))) by {
        assert(es0[i].0@ == pre.key_at(i));
    }
    let mi = pre.idx_of(pre.key_at(i));
    assert(es0[mi].0@ == es0[i].0@);
    if mi != i {
        assert(false);
    }
    assert(post.value_of(pre.key_at(i)) == es[i].1);
}

} // verus!
