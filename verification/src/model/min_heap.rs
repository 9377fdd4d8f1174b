use vstd::prelude::*;
use vstd::multiset::Multiset;

verus! {

/// What a [`MinHeap`] ranks its items by: the item with the smallest key
/// leaves first.
pub trait HeapKey {
    /// The rank of the item.
    spec fn key(&self) -> u64;

    /// Computes [`HeapKey::key`].
    fn key_value(&self) -> (k: u64)
        ensures
            k == self.key(),
    ;
}

/// A binary min-heap in a vector.
///
/// Its view is the multiset of the items it holds: the position of an item
/// in the vector is of no concern to a caller.
pub struct MinHeap<T> {
    items: Vec<T>,
}

/// Index of the parent of slot `i` (for `i > 0`).
pub open spec fn parent_of(i: int) -> int {
    (i - 1) / 2
}

/// Every slot but the root ranks no lower than its parent.
pub open spec fn heap_ordered<T: HeapKey>(s: Seq<T>) -> bool {
    forall|i: int| 0 < i < s.len() ==> (#[trigger] s[parent_of(i)]).key() <= s[i].key()
}

/// Like [`heap_ordered`], but the slot `hole` may rank too low against its
/// parent; its children are already in order with that parent.
spec fn ordered_but_up<T: HeapKey>(s: Seq<T>, hole: int) -> bool {
    &&& forall|i: int| 0 < i < s.len() && i != hole ==> (#[trigger] s[parent_of(i)]).key() <= s[i].key()
    &&& forall|i: int| 0 < i < s.len() && parent_of(i) == hole && hole > 0
            ==> s[parent_of(hole)].key() <= (#[trigger] s[i]).key()
}

/// Like [`heap_ordered`], but the slot `hole` may rank too high against its
/// children; they are already in order with its parent.
spec fn ordered_but_down<T: HeapKey>(s: Seq<T>, hole: int) -> bool {
    &&& forall|i: int| 0 < i < s.len() && parent_of(i) != hole ==> (#[trigger] s[parent_of(i)]).key() <= s[i].key()
    &&& forall|i: int| 0 < i < s.len() && parent_of(i) == hole && hole > 0
            ==> s[parent_of(hole)].key() <= (#[trigger] s[i]).key()
}

/// In an ordered heap the root ranks lowest.
proof fn lemma_root_is_least<T: HeapKey>(s: Seq<T>, i: int)
    requires
        heap_ordered(s),
        0 <= i < s.len(),
    ensures
        s[0].key() <= s[i].key(),
    decreases i,
{
    if i > 0 {
        assert(s[parent_of(i)].key() <= s[i].key());
        lemma_root_is_least(s, parent_of(i));
    }
}

/// Exchanging two slots keeps the multiset of items.
proof fn lemma_swap_keeps_items<T>(s: Seq<T>, i: int, j: int)
    requires
        0 <= i < s.len(),
        0 <= j < s.len(),
    ensures
        s.update(i, s[j]).update(j, s[i]).to_multiset() == s.to_multiset(),
{
    broadcast use vstd::seq_lib::group_to_multiset_ensures;
    let t = s.update(i, s[j]).update(j, s[i]);
    if i == j {
        assert(t =~= s);
    } else {
        let m1 = s.update(i, s[j]).to_multiset();
        assert(m1 =~= s.to_multiset().insert(s[j]).remove(s[i]));
        assert(s.update(i, s[j])[j] == s[j]);
        assert(t.to_multiset() =~= m1.insert(s[i]).remove(s[j]));
        assert(s.to_multiset().contains(s[i]));
        assert(s.to_multiset().contains(s[j]));
        assert(t.to_multiset() =~= s.to_multiset());
    }
}

impl<T: HeapKey + Copy> MinHeap<T> {
    /// The items held, as a multiset.
    pub closed spec fn view(&self) -> Multiset<T> {
        self.items@.to_multiset()
    }

    /// The representation invariant: the vector is heap-ordered.
    pub closed spec fn wf(&self) -> bool {
        heap_ordered(self.items@)
    }

    /// An empty heap.
    pub fn new() -> (h: Self)
        ensures
            h.wf(),
            h@ == Multiset::<T>::empty(),
    {
        let h = MinHeap { items: Vec::new() };
        proof {
            broadcast use vstd::seq_lib::group_to_multiset_ensures;
            assert(h.items@ =~= Seq::<T>::empty());
        }
        h
    }

    /// An empty heap with room for `capacity` items.
    pub fn with_capacity(capacity: usize) -> (h: Self)
        ensures
            h.wf(),
            h@ == Multiset::<T>::empty(),
    {
        let h = MinHeap { items: Vec::with_capacity(capacity) };
        proof {
            broadcast use vstd::seq_lib::group_to_multiset_ensures;
            assert(h.items@ =~= Seq::<T>::empty());
        }
        h
    }

    /// Number of items held.
    pub fn len(&self) -> (n: usize)
        ensures
            n == self@.len(),
    {
        proof {
            broadcast use vstd::seq_lib::group_to_multiset_ensures;
        }
        self.items.len()
    }

    /// `true` when the heap holds nothing.
    pub fn is_empty(&self) -> (b: bool)
        ensures
            b == (self@.len() == 0),
    {
        self.len() == 0
    }

    /// Drops every item.
    pub fn clear(&mut self)
        ensures
            final(self).wf(),
            final(self)@ == Multiset::<T>::empty(),
    {
        self.items.clear();
        proof {
            broadcast use vstd::seq_lib::group_to_multiset_ensures;
            assert(self.items@ =~= Seq::<T>::empty());
        }
    }

    /// The item that [`MinHeap::pop`] would hand out next.
    pub fn peek(&self) -> (top: Option<&T>)
        requires
            self.wf(),
        ensures
            top is None <==> self@.len() == 0,
            top matches Some(t) ==> self@.contains(*t) && forall|other: T|
                self@.contains(other) ==> t.key() <= #[trigger] other.key(),
    {
        proof {
            broadcast use vstd::seq_lib::group_to_multiset_ensures;
        }
        if self.items.len() == 0 {
            None
        } else {
            proof {
                let s = self.items@;
                assert(s.to_multiset().contains(s[0])) by {
                    assert(s.contains(s[0]));
                }
                assert forall|other: T| self@.contains(other) implies s[0].key() <= #[trigger] other.key() by {
                    assert(s.contains(other));
                    let i = choose|i: int| 0 <= i < s.len() && s[i] == other;
                    lemma_root_is_least(s, i);
                }
            }
            Some(&self.items[0])
        }
    }

    fn swap_slots(&mut self, i: usize, j: usize)
        requires
            i < old(self).items@.len(),
            j < old(self).items@.len(),
        ensures
            final(self).items@ == old(self).items@.update(i as int, old(self).items@[j as int]).update(
                j as int,
                old(self).items@[i as int],
            ),
            final(self)@ == old(self)@,
    {
        proof {
            lemma_swap_keeps_items(self.items@, i as int, j as int);
        }
        let a: T = self.items[i];
        let b: T = self.items[j];
        self.items[i] = b;
        self.items[j] = a;
    }

    /// Adds `item`.
    pub fn push(&mut self, item: T)
        requires
            old(self).wf(),
        ensures
            final(self).wf(),
            final(self)@ == old(self)@.insert(item),
    {
        proof {
            broadcast use vstd::seq_lib::group_to_multiset_ensures;
        }
        self.items.push(item);
        let mut k: usize = self.items.len() - 1;
        while k > 0
            invariant
                k < self.items@.len(),
                ordered_but_up(self.items@, k as int),
                self@ == old(self)@.insert(item),
            decreases k,
        {
            let p: usize = (k - 1) / 2;
            if self.items[k].key_value() < self.items[p].key_value() {
                let ghost before = self.items@;
                self.swap_slots(k, p);
                proof {
                    let after = self.items@;
                    assert forall|i: int| 0 < i < after.len() && i != p as int implies (#[trigger] after[parent_of(
                        i,
                    )]).key() <= after[i].key() by {
                        if i == k as int {
                        } else if parent_of(i) == k as int {
                            assert(before[parent_of(k as int)].key() <= before[i].key());
                        } else if parent_of(i) == p as int {
                            assert(before[parent_of(i)].key() <= before[i].key());
                        } else {
                            assert(before[parent_of(i)].key() <= before[i].key());
                        }
                    }
                    assert forall|i: int|
                        0 < i < after.len() && parent_of(i) == p as int && p > 0 implies after[parent_of(
                        p as int,
                    )].key() <= (#[trigger] after[i]).key() by {
                        assert(before[parent_of(p as int)].key() <= before[p as int].key());
                        if i == k as int {
                        } else {
                            assert(before[parent_of(i)].key() <= before[i].key());
                        }
                    }
                }
                k = p;
            } else {
                proof {
                    let s = self.items@;
                    assert forall|i: int| 0 < i < s.len() implies (#[trigger] s[parent_of(i)]).key() <= s[i].key() by {
                        if i == k as int {
                        }
                    }
                }
                return ;
            }
        }
    }

    /// Removes and returns an item of lowest rank, if there is any.
    pub fn pop(&mut self) -> (top: Option<T>)
        requires
            old(self).wf(),
        ensures
            final(self).wf(),
            top is None <==> old(self)@.len() == 0,
            top is None ==> final(self)@ == old(self)@,
            top matches Some(t) ==> {
                &&& old(self)@.contains(t)
                &&& final(self)@ == old(self)@.remove(t)
                &&& forall|other: T| old(self)@.contains(other) ==> t.key() <= #[trigger] other.key()
            },
    {
        proof {
            broadcast use vstd::seq_lib::group_to_multiset_ensures;
        }
        let n: usize = self.items.len();
        if n == 0 {
            return None;
        }
        proof {
            let s = self.items@;
            assert(s.to_multiset().contains(s[0])) by {
                assert(s.contains(s[0]));
            }
            assert forall|other: T| self@.contains(other) implies s[0].key() <= #[trigger] other.key() by {
                assert(s.contains(other));
                let i = choose|i: int| 0 <= i < s.len() && s[i] == other;
                lemma_root_is_least(s, i);
            }
        }
        let ghost start = self.items@;
        self.swap_slots(0, n - 1);
        let ghost swapped = self.items@;
        let top = self.items.pop().unwrap();
        proof {
            assert(top == start[0]);
            assert(swapped =~= self.items@.push(top));
            assert(self.items@.push(top).to_multiset() =~= self.items@.to_multiset().insert(top));
            assert(self@ =~= old(self)@.remove(top));
            let s = self.items@;
            assert forall|i: int| 0 < i < s.len() && parent_of(i) != 0 implies (#[trigger] s[parent_of(i)]).key()
                <= s[i].key() by {
                assert(start[parent_of(i)].key() <= start[i].key());
            }
        }
        let mut k: usize = 0;
        let m: usize = self.items.len();
        loop
            invariant
                m == self.items@.len(),
                k < m || m == 0,
                ordered_but_down(self.items@, k as int),
                self@ == old(self)@.remove(top),
            ensures
                heap_ordered(self.items@),
                self@ == old(self)@.remove(top),
            decreases m - k,
        {
            if m == 0 || k >= (m - 1) / 2 + 1 || 2 * k + 1 >= m {
                proof {
                    let s = self.items@;
                    assert forall|i: int| 0 < i < s.len() implies (#[trigger] s[parent_of(i)]).key() <= s[i].key() by {
                        if parent_of(i) == k as int {
                            assert(i >= 2 * k + 1);
                        }
                    }
                }
                break ;
            }
            let left: usize = 2 * k + 1;
            let mut c: usize = left;
            if left + 1 < m && self.items[left + 1].key_value() < self.items[left].key_value() {
                c = left + 1;
            }
            if self.items[c].key_value() < self.items[k].key_value() {
                let ghost before = self.items@;
                self.swap_slots(k, c);
                proof {
                    let after = self.items@;
                    assert(parent_of(c as int) == k as int);
                    assert forall|i: int| 0 < i < after.len() && parent_of(i) != c as int implies (
                    #[trigger] after[parent_of(i)]).key() <= after[i].key() by {
                        if parent_of(i) == k as int {
                            assert(i == left as int || i == left + 1);
                        } else if i == k as int {
                            assert(before[parent_of(k as int)].key() <= before[c as int].key());
                        } else {
                            assert(before[parent_of(i)].key() <= before[i].key());
                        }
                    }
                    assert forall|i: int|
                        0 < i < after.len() && parent_of(i) == c as int && c > 0 implies after[parent_of(
                        c as int,
                    )].key() <= (#[trigger] after[i]).key() by {
                        assert(before[parent_of(i)].key() <= before[i].key());
                    }
                }
                k = c;
            } else {
                proof {
                    let s = self.items@;
                    assert forall|i: int| 0 < i < s.len() implies (#[trigger] s[parent_of(i)]).key() <= s[i].key() by {
                        if parent_of(i) == k as int {
                            assert(i == left as int || i == left + 1);
                        }
                    }
                }
                break ;
            }
        }
        Some(top)
    }
}

} // verus!
