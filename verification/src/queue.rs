//! A binary min-heap keyed by an accumulated cost.
//!
//! The queue is viewed as the multiset of its entries. `pop` hands out an
//! entry whose key is minimal among all entries present.

use vstd::prelude::*;
use vstd::multiset::Multiset;

verus! {

/// Index of the parent of node `i` in the implicit binary tree.
pub open spec fn parent(i: int) -> int {
    (i - 1) / 2
}

/// Every node's key is at least its parent's key.
pub open spec fn heap_ordered<T>(s: Seq<(u128, T)>) -> bool {
    forall|i: int| 1 <= i < s.len() ==> (#[trigger] s[parent(i)]).0 <= s[i].0
}

/// Ordered everywhere except possibly on the edge between `k` and its parent;
/// the children of `k` already respect the parent of `k`.
pub open spec fn ordered_except_up<T>(s: Seq<(u128, T)>, k: int) -> bool {
    &&& forall|i: int| 1 <= i < s.len() && i != k ==> (#[trigger] s[parent(i)]).0 <= s[i].0
    &&& forall|i: int|
        1 <= i < s.len() && parent(i) == k && k >= 1 ==> s[parent(k)].0 <= (#[trigger] s[i]).0
}

/// Ordered everywhere except possibly on the edges between `k` and its
/// children; the children of `k` already respect the parent of `k`.
pub open spec fn ordered_except_down<T>(s: Seq<(u128, T)>, k: int) -> bool {
    &&& forall|i: int|
        1 <= i < s.len() && parent(i) != k ==> (#[trigger] s[parent(i)]).0 <= s[i].0
    &&& forall|i: int|
        1 <= i < s.len() && parent(i) == k && k >= 1 ==> s[parent(k)].0 <= (#[trigger] s[i]).0
}

/// In an ordered heap the root carries the least key.
pub proof fn lemma_root_is_least<T>(s: Seq<(u128, T)>, i: int)
    requires
        heap_ordered(s),
        0 <= i < s.len(),
    ensures
        s[0].0 <= s[i].0,
    decreases i,
{
    if i > 0 {
        assert(s[parent(i)].0 <= s[i].0);
        lemma_root_is_least(s, parent(i));
    }
}

/// Exchanging two positions keeps the multiset of entries.
pub proof fn lemma_swap_keeps_entries<T>(s: Seq<(u128, T)>, i: int, j: int)
    requires
        0 <= i < s.len(),
        0 <= j < s.len(),
    ensures
        s.update(i, s[j]).update(j, s[i]).to_multiset() == s.to_multiset(),
{
    broadcast use vstd::seq_lib::group_to_multiset_ensures;

    let s1 = s.update(i, s[j]);
    let s2 = s1.update(j, s[i]);
    if i == j {
        assert(s2 =~= s);
    } else {
        assert(s1 =~= s.remove(i).insert(i, s[j]));
        assert(s2 =~= s1.remove(j).insert(j, s[i]));
        vstd::seq_lib::to_multiset_remove(s, i);
        vstd::seq_lib::to_multiset_insert(s.remove(i), i, s[j]);
        vstd::seq_lib::to_multiset_remove(s1, j);
        vstd::seq_lib::to_multiset_insert(s1.remove(j), j, s[i]);
        assert(s.to_multiset().count(s[i]) > 0);
        assert(s.to_multiset().count(s[j]) > 0);
        assert(s2.to_multiset() =~= s.to_multiset());
    }
}

/// A min-priority queue of `(key, item)` entries.
pub struct MinQueue<T: Copy> {
    data: Vec<(u128, T)>,
}

impl<T: Copy> MinQueue<T> {
    /// The entries held, without order.
    pub closed spec fn view(&self) -> Multiset<(u128, T)> {
        self.data@.to_multiset()
    }

    /// The internal heap order.
    pub closed spec fn wf(&self) -> bool {
        heap_ordered(self.data@)
    }

    pub fn new() -> (q: Self)
        ensures
            q.wf(),
            q@ == Multiset::<(u128, T)>::empty(),
    {
        let q = MinQueue { data: Vec::new() };
        proof {
            broadcast use vstd::seq_lib::group_to_multiset_ensures;
            assert(q.data@ =~= Seq::empty());
            assert(q@.len() == 0);
            assert(q@ =~= Multiset::<(u128, T)>::empty());
        }
        q
    }

    pub fn len(&self) -> (n: usize)
        ensures
            n == self@.len(),
    {
        proof {
            broadcast use vstd::seq_lib::group_to_multiset_ensures;
        }
        self.data.len()
    }

    pub fn is_empty(&self) -> (b: bool)
        ensures
            b == (self@.len() == 0),
    {
        proof {
            broadcast use vstd::seq_lib::group_to_multiset_ensures;
        }
        self.data.len() == 0
    }

    fn swap_entries(&mut self, i: usize, j: usize)
        requires
            i < old(self).data.len(),
            j < old(self).data.len(),
        ensures
            final(self).data@ == old(self).data@.update(i as int, old(self).data@[j as int]).update(
                j as int,
                old(self).data@[i as int],
            ),
            final(self)@ == old(self)@,
    {
        let a = self.data[i];
        let b = self.data[j];
        proof {
            lemma_swap_keeps_entries(self.data@, i as int, j as int);
        }
        self.data.set(i, b);
        self.data.set(j, a);
    }

    /// An entry of least key, if any entry is present; the queue keeps it.
    pub fn peek(&self) -> (r: Option<(u128, T)>)
        requires
            self.wf(),
        ensures
            match r {
                None => self@.len() == 0,
                Some(e) => {
                    &&& self@.count(e) > 0
                    &&& forall|x: (u128, T)| self@.count(x) > 0 ==> e.0 <= x.0
                },
            },
    {
        proof {
            broadcast use vstd::seq_lib::group_to_multiset_ensures;
        }
        if self.data.len() == 0 {
            return None;
        }
        let top = self.data[0];
        proof {
            let s = self.data@;
            assert forall|x: (u128, T)| s.to_multiset().count(x) > 0 implies top.0 <= x.0 by {
                assert(s.contains(x));
                let i = choose|i: int| 0 <= i < s.len() && s[i] == x;
                lemma_root_is_least(s, i);
            }
            assert(s.contains(top));
        }
        Some(top)
    }

    /// Adds an entry.
    pub fn push(&mut self, key: u128, item: T)
        requires
            old(self).wf(),
        ensures
            final(self).wf(),
            final(self)@ == old(self)@.insert((key, item)),
    {
        proof {
            vstd::seq_lib::to_multiset_build(self.data@, (key, item));
        }
        self.data.push((key, item));
        let mut k: usize = self.data.len() - 1;
        while k > 0 && self.data[(k - 1) / 2].0 > self.data[k].0
            invariant
                k < self.data.len(),
                ordered_except_up(self.data@, k as int),
                self@ == old(self)@.insert((key, item)),
            decreases k,
        {
            let p: usize = (k - 1) / 2;
            let ghost before = self.data@;
            self.swap_entries(k, p);
            proof {
                let after = self.data@;
                assert forall|i: int| 1 <= i < after.len() && i != p as int implies (
                #[trigger] after[parent(i)]).0 <= after[i].0 by {
                    if i == k as int {
                    } else if parent(i) == k as int {
                        assert(before[parent(k as int)].0 <= before[i].0);
                    } else if parent(i) == p as int {
                        assert(before[parent(i)].0 <= before[i].0);
                    } else {
                        assert(before[parent(i)].0 <= before[i].0);
                    }
                }
                assert forall|i: int|
                    1 <= i < after.len() && parent(i) == p as int && p >= 1 implies after[parent(
                    p as int,
                )].0 <= (#[trigger] after[i]).0 by {
                    assert(before[parent(p as int)].0 <= before[p as int].0);
                    if i != k as int {
                        assert(before[parent(i)].0 <= before[i].0);
                    }
                }
            }
            k = p;
        }
        proof {
            let s = self.data@;
            assert forall|i: int| 1 <= i < s.len() implies (#[trigger] s[parent(i)]).0
                <= s[i].0 by {
                if i != k as int {
                }
            }
        }
    }

    /// Removes and returns an entry of least key, if any entry is present.
    pub fn pop(&mut self) -> (r: Option<(u128, T)>)
        requires
            old(self).wf(),
        ensures
            final(self).wf(),
            match r {
                None => old(self)@.len() == 0 && final(self)@ == old(self)@,
                Some(e) => {
                    &&& old(self)@.count(e) > 0
                    &&& final(self)@ == old(self)@.remove(e)
                    &&& forall|x: (u128, T)| old(self)@.count(x) > 0 ==> e.0 <= x.0
                },
            },
    {
        proof {
            broadcast use vstd::seq_lib::group_to_multiset_ensures;
        }
        let n = self.data.len();
        if n == 0 {
            return None;
        }
        let ghost start = self.data@;
        let top = self.data[0];
        proof {
            assert forall|x: (u128, T)| start.to_multiset().count(x) > 0 implies top.0 <= x.0 by {
                assert(start.contains(x));
                let i = choose|i: int| 0 <= i < start.len() && start[i] == x;
                lemma_root_is_least(start, i);
            }
            assert(start.contains(top));
        }
        self.swap_entries(0, n - 1);
        let ghost swapped = self.data@;
        let last = self.data.pop();
        proof {
            assert(self.data@ =~= swapped.remove(n - 1));
            vstd::seq_lib::to_multiset_remove(swapped, n - 1);
            assert(swapped[n - 1] == top);
            let s = self.data@;
            assert forall|i: int| 1 <= i < s.len() && parent(i) != 0 implies (
            #[trigger] s[parent(i)]).0 <= s[i].0 by {
                assert(start[parent(i)].0 <= start[i].0);
            }
        }
        let m = self.data.len();
        let mut k: usize = 0;
        loop
            invariant
                m == self.data.len(),
                k < m || m == 0,
                ordered_except_down(self.data@, k as int),
                self@ == old(self)@.remove(top),
            ensures
                heap_ordered(self.data@),
                self@ == old(self)@.remove(top),
            decreases m - k,
        {
            if m == 0 || k >= (m - 1) / 2 + 1 {
                proof {
                    let s = self.data@;
                    assert forall|i: int| 1 <= i < s.len() implies (#[trigger] s[parent(i)]).0
                        <= s[i].0 by {
                        if parent(i) == k as int {
                            assert(false);
                        }
                    }
                }
                break;
            }
            if 2 * k + 1 >= m {
                proof {
                    let s = self.data@;
                    assert forall|i: int| 1 <= i < s.len() implies (#[trigger] s[parent(i)]).0
                        <= s[i].0 by {
                        if parent(i) == k as int {
                            assert(false);
                        }
                    }
                }
                break;
            }
            let l: usize = 2 * k + 1;
            let mut c: usize = l;
            if l + 1 < m && self.data[l + 1].0 < self.data[l].0 {
                c = l + 1;
            }
            if self.data[k].0 <= self.data[c].0 {
                proof {
                    let s = self.data@;
                    assert forall|i: int| 1 <= i < s.len() implies (#[trigger] s[parent(i)]).0
                        <= s[i].0 by {
                        if parent(i) == k as int {
                            assert(i == l as int || i == l as int + 1);
                        }
                    }
                }
                break;
            }
            let ghost before = self.data@;
            self.swap_entries(k, c);
            proof {
                let after = self.data@;
                assert forall|i: int| 1 <= i < after.len() && parent(i) != c as int implies (
                #[trigger] after[parent(i)]).0 <= after[i].0 by {
                    if parent(i) == k as int {
                        assert(i == l as int || i == l as int + 1);
                    } else if i == k as int {
                        assert(before[parent(k as int)].0 <= before[c as int].0);
                    } else {
                        assert(before[parent(i)].0 <= before[i].0);
                    }
                }
                assert forall|i: int|
                    1 <= i < after.len() && parent(i) == c as int && c >= 1 implies after[parent(
                    c as int,
                )].0 <= (#[trigger] after[i]).0 by {
                    assert(before[parent(i)].0 <= before[i].0);
                }
            }
            k = c;
        }
        Some(top)
    }
}

} // verus!
