//! A priority queue: the entry with the largest key comes out first.

use vstd::multiset::Multiset;
use vstd::prelude::*;

verus! {

/// What the queue holds: `item`, ordered by `key`.
#[derive(Debug, Clone, Copy)]
pub struct Entry<T> {
    pub key: i128,
    pub item: T,
}

/// A max-heap. Entries with equal keys come out in any order.
#[derive(Debug)]
pub struct MaxHeap<T> {
    entries: Vec<Entry<T>>,
}

/// Putting `a` in place of an element trades the two in the multiset.
proof fn lemma_update_multiset<A>(s: Seq<A>, i: int, a: A)
    requires
        0 <= i < s.len(),
    ensures
        s.update(i, a).to_multiset() =~= s.to_multiset().remove(s[i]).insert(a),
{
    let t = s.update(i, a);
    broadcast use vstd::multiset::group_multiset_axioms;
    vstd::seq_lib::to_multiset_remove(s, i);
    vstd::seq_lib::to_multiset_remove(t, i);
    assert(t.remove(i) =~= s.remove(i));
    t.to_multiset_ensures();
    assert(t[i] == a && t.contains(a));
    assert(t.to_multiset().count(a) > 0);
    assert(t.to_multiset() =~= t.to_multiset().remove(a).insert(a));
}

/// Swapping two elements leaves the multiset as it was.
proof fn lemma_swap_multiset<A>(s: Seq<A>, i: int, j: int)
    requires
        0 <= i < s.len(),
        0 <= j < s.len(),
    ensures
        s.update(i, s[j]).update(j, s[i]).to_multiset() =~= s.to_multiset(),
{
    broadcast use vstd::multiset::group_multiset_axioms;
    s.to_multiset_ensures();
    assert(s.contains(s[i]) && s.contains(s[j]));
    lemma_update_multiset(s, i, s[j]);
    lemma_update_multiset(s.update(i, s[j]), j, s[i]);
    if i == j {
        assert(s.update(i, s[j]).update(j, s[i]) =~= s);
    } else {
        assert(s.update(i, s[j])[j] == s[j]);
        assert(s.to_multiset() =~= s.to_multiset().remove(s[i]).insert(s[j]).remove(s[j]).insert(
            s[i],
        ));
    }
}

impl<T: Copy> MaxHeap<T> {
    /// The entries in the queue.
    pub closed spec fn view(self) -> Multiset<Entry<T>> {
        self.entries@.to_multiset()
    }

    /// No entry has a larger key than its parent in the tree.
    pub closed spec fn wf(self) -> bool {
        forall|i: int|
            0 < i < self.entries@.len() ==> (#[trigger] self.entries@[i]).key
                <= self.entries@[(i - 1) / 2].key
    }

    pub fn new() -> (r: Self)
        ensures
            r.wf(),
            r@ == Multiset::<Entry<T>>::empty(),
    {
        let r = MaxHeap { entries: Vec::new() };
        proof {
            r.entries@.to_multiset_ensures();
        }
        r
    }

    /// The entry at the root of the tree has the largest key.
    proof fn lemma_root_is_largest(self, i: int)
        requires
            self.wf(),
            0 <= i < self.entries@.len(),
        ensures
            self.entries@[i].key <= self.entries@[0].key,
        decreases i,
    {
        if i > 0 {
            self.lemma_root_is_largest((i - 1) / 2);
        }
    }

    fn swap(&mut self, i: usize, j: usize)
        requires
            i < old(self).entries@.len(),
            j < old(self).entries@.len(),
        ensures
            final(self).entries@ == old(self).entries@.update(
                i as int,
                old(self).entries@[j as int],
            ).update(j as int, old(self).entries@[i as int]),
            final(self)@ == old(self)@,
    {
        proof {
            lemma_swap_multiset(self.entries@, i as int, j as int);
        }
        let a = self.entries[i];
        let b = self.entries[j];
        self.entries[i] = b;
        self.entries[j] = a;
    }

    pub fn push(&mut self, key: i128, item: T)
        requires
            old(self).wf(),
        ensures
            final(self).wf(),
            final(self)@ == old(self)@.insert(Entry { key, item }),
    {
        proof {
            vstd::seq_lib::to_multiset_build(self.entries@, Entry { key, item });
        }
        self.entries.push(Entry { key, item });
        let mut i: usize = self.entries.len() - 1;
        // Moves the new entry up until its parent's key is no smaller.
        while i > 0 && self.entries[(i - 1) / 2].key < self.entries[i].key
            invariant
                i < self.entries@.len(),
                self@ == old(self)@.insert(Entry { key, item }),
                forall|j: int|
                    0 < j < self.entries@.len() && j != i ==> (#[trigger] self.entries@[j]).key
                        <= self.entries@[(j - 1) / 2].key,
                forall|j: int|
                    0 < j < self.entries@.len() && i > 0 && (j - 1) / 2 == i ==> (
                    #[trigger] self.entries@[j]).key <= self.entries@[(i - 1) / 2].key,
            decreases i,
        {
            let p: usize = (i - 1) / 2;
            self.swap(i, p);
            i = p;
        }
    }

    /// Takes an entry with the largest key out of the queue; `None` when the
    /// queue is empty.
    pub fn pop(&mut self) -> (r: Option<Entry<T>>)
        requires
            old(self).wf(),
        ensures
            final(self).wf(),
            r is None <==> old(self)@.len() == 0,
            r is None ==> final(self)@ == old(self)@,
            r matches Some(e) ==> old(self)@.contains(e) && final(self)@ == old(self)@.remove(e)
                && forall|x: Entry<T>| #[trigger] old(self)@.contains(x) ==> x.key <= e.key,
    {
        proof {
            self.entries@.to_multiset_ensures();
        }
        let n: usize = self.entries.len();
        if n == 0 {
            return None;
        }
        let ghost before = self.entries@;
        proof {
            assert forall|x: Entry<T>| #[trigger] self@.contains(x) implies x.key
                <= self.entries@[0].key by {
                let i = choose|i: int| 0 <= i < before.len() && before[i] == x;
                assert(before.contains(x));
                self.lemma_root_is_largest(i);
            }
            assert(before.contains(before[0]));
        }
        let top = self.entries.swap_remove(0);
        proof {
            let last = before.last();
            lemma_update_multiset(before, 0, last);
            let t = before.update(0, last);
            vstd::seq_lib::to_multiset_remove(t, t.len() - 1);
            assert(t.remove(t.len() - 1) =~= t.drop_last());
            broadcast use vstd::multiset::group_multiset_axioms;
            assert(self.entries@.to_multiset() =~= before.to_multiset().remove(before[0]));
            assert forall|j: int|
                0 < j < self.entries@.len() && (j - 1) / 2 != 0 implies (
            #[trigger] self.entries@[j]).key <= self.entries@[(j - 1) / 2].key by {
                assert(self.entries@[j] == before[j]);
                assert(self.entries@[(j - 1) / 2] == before[(j - 1) / 2]);
            }
        }
        self.sift_down();
        Some(top)
    }

    /// Moves the root down until no child has a larger key.
    fn sift_down(&mut self)
        requires
            forall|j: int|
                0 < j < old(self).entries@.len() && (j - 1) / 2 != 0 ==> (
                #[trigger] old(self).entries@[j]).key <= old(self).entries@[(j - 1) / 2].key,
        ensures
            final(self).wf(),
            final(self)@ == old(self)@,
    {
        let n: usize = self.entries.len();
        let mut i: usize = 0;
        loop
            invariant
                n == self.entries@.len(),
                i < n || n == 0,
                self@ == old(self)@,
                forall|j: int|
                    0 < j < n && (j - 1) / 2 != i ==> (#[trigger] self.entries@[j]).key
                        <= self.entries@[(j - 1) / 2].key,
                forall|j: int|
                    0 < j < n && i > 0 && (j - 1) / 2 == i ==> (#[trigger] self.entries@[j]).key
                        <= self.entries@[(i - 1) / 2].key,
            ensures
                self.wf(),
                self@ == old(self)@,
            decreases n - i,
        {
            if n < 2 || i > (n - 2) / 2 {
                // No children.
                assert forall|j: int| 0 < j < n implies (#[trigger] self.entries@[j]).key
                    <= self.entries@[(j - 1) / 2].key by {
                    assert((j - 1) / 2 != i);
                }
                break;
            }
            let left: usize = 2 * i + 1;
            let mut c: usize = left;
            if left + 1 < n && self.entries[left].key < self.entries[left + 1].key {
                c = left + 1;
            }
            if self.entries[c].key <= self.entries[i].key {
                assert forall|j: int| 0 < j < n implies (#[trigger] self.entries@[j]).key
                    <= self.entries@[(j - 1) / 2].key by {
                    if (j - 1) / 2 == i {
                        assert(j == left || j == left + 1);
                    }
                }
                break;
            }
            let ghost before = self.entries@;
            self.swap(i, c);
            proof {
                assert((c - 1) / 2 == i);
                assert forall|j: int| 0 < j < n && (j - 1) / 2 != c implies (
                #[trigger] self.entries@[j]).key <= self.entries@[(j - 1) / 2].key by {
                    if (j - 1) / 2 == i {
                        assert(j == left || j == left + 1);
                        assert(before[j].key <= before[c as int].key);
                    } else if j == i {
                        assert(before[c as int].key <= before[(i - 1) / 2].key);
                    } else {
                        assert(self.entries@[j] == before[j]);
                    }
                }
                assert forall|j: int| 0 < j < n && c > 0 && (j - 1) / 2 == c implies (
                #[trigger] self.entries@[j]).key <= self.entries@[(c - 1) / 2].key by {
                    assert(self.entries@[j] == before[j]);
                    assert(before[j].key <= before[(j - 1) / 2].key);
                }
            }
            i = c;
        }
    }
}

} // verus!
