//! The frontier of a best-first search: a binary min-heap of entries.

use vstd::prelude::*;
use vstd::multiset::Multiset;
use vstd::seq_lib::{to_multiset_remove, to_multiset_update};
use crate::cost::Cost;

verus! {

broadcast use {vstd::multiset::group_multiset_axioms, vstd::seq_lib::group_to_multiset_ensures};

/// A frontier entry: a node with the cost at which it was reached.
#[derive(Clone, Copy, Debug)]
pub struct Entry<N> {
    /// The priority: cost so far plus estimate.
    pub f: Cost,
    /// The secondary key; of two entries with equal `f` the smaller goes first.
    pub tie: u64,
    /// The insertion number, which makes the order total.
    pub seq: u128,
    /// The cost from the start.
    pub g: Cost,
    pub node: N,
}

/// The order in which entries leave the frontier: by `f`, then `tie`, then insertion.
pub open spec fn entry_before<N>(a: Entry<N>, b: Entry<N>) -> bool {
    a.f < b.f || (a.f == b.f && (a.tie < b.tie || (a.tie == b.tie && a.seq <= b.seq)))
}

/// Whether `e` is in `m` and no entry of `m` goes before it.
pub open spec fn is_first<N>(m: Multiset<Entry<N>>, e: Entry<N>) -> bool {
    m.count(e) > 0 && forall|o: Entry<N>| m.count(o) > 0 ==> entry_before(e, o)
}

/// The entry that leaves the frontier next.
pub open spec fn first_entry<N>(m: Multiset<Entry<N>>) -> Entry<N> {
    choose|e: Entry<N>| is_first(m, e)
}

/// Whether every entry but the root goes no earlier than its parent in the heap.
#[verifier::opaque]
pub open spec fn heap_ordered<N>(s: Seq<Entry<N>>) -> bool {
    forall|i: int| 1 <= i < s.len() ==> entry_before(s[(i - 1) / 2], #[trigger] s[i])
}

/// The heap order with the entry at `hole` still to be moved up: it may go
/// before its parent, and its children go no earlier than its parent.
#[verifier::opaque]
pub open spec fn ordered_but_up<N>(s: Seq<Entry<N>>, hole: int) -> bool {
    &&& forall|i: int| 1 <= i < s.len() && i != hole ==> entry_before(s[(i - 1) / 2], #[trigger] s[i])
    &&& forall|i: int|
        1 <= i < s.len() && (i - 1) / 2 == hole && hole >= 1 ==> entry_before(
            s[(hole - 1) / 2],
            #[trigger] s[i],
        )
}

/// The heap order with the entry at `hole` still to be moved down: its
/// children may go before it, and go no earlier than its parent.
#[verifier::opaque]
pub open spec fn ordered_but_down<N>(s: Seq<Entry<N>>, hole: int) -> bool {
    &&& forall|i: int| 1 <= i < s.len() && (i - 1) / 2 != hole ==> entry_before(s[(i - 1) / 2], #[trigger] s[i])
    &&& forall|i: int|
        1 <= i < s.len() && (i - 1) / 2 == hole && hole >= 1 ==> entry_before(
            s[(hole - 1) / 2],
            #[trigger] s[i],
        )
}

/// In a heap no entry goes before the root.
proof fn lemma_root_is_first<N>(s: Seq<Entry<N>>, i: int)
    requires
        heap_ordered(s),
        0 <= i < s.len(),
    ensures
        entry_before(s[0], s[i]),
    decreases i,
{
    reveal(heap_ordered);
    if i > 0 {
        lemma_root_is_first(s, (i - 1) / 2);
        assert(entry_before(s[(i - 1) / 2], s[i]));
    }
}

/// An empty sequence is a heap.
proof fn lemma_empty_heap<N>(s: Seq<Entry<N>>)
    requires
        s.len() == 0,
    ensures
        heap_ordered(s),
{
    reveal(heap_ordered);
}

/// A heap with an entry added at its end is ordered but for that entry.
proof fn lemma_pushed<N>(before: Seq<Entry<N>>, e: Entry<N>)
    requires
        heap_ordered(before),
    ensures
        ordered_but_up(before.push(e), before.len() as int),
{
    reveal(heap_ordered);
    reveal(ordered_but_up);
    let after = before.push(e);
    assert forall|i: int| 1 <= i < after.len() && i != before.len() implies entry_before(
        after[(i - 1) / 2],
        #[trigger] after[i],
    ) by {
        assert(entry_before(before[(i - 1) / 2], before[i]));
    }
}

/// A heap whose root has been replaced by its last entry is ordered but for the root.
proof fn lemma_root_replaced<N>(before: Seq<Entry<N>>, after: Seq<Entry<N>>)
    requires
        heap_ordered(before),
        before.len() >= 1,
        after == before.update(0, before.last()).update(before.len() - 1, before[0]).drop_last(),
    ensures
        ordered_but_down(after, 0),
{
    reveal(heap_ordered);
    reveal(ordered_but_down);
    assert forall|i: int| 1 <= i < after.len() && (i - 1) / 2 != 0 implies entry_before(
        after[(i - 1) / 2],
        #[trigger] after[i],
    ) by {
        assert(entry_before(before[(i - 1) / 2], before[i]));
    }
}

/// Exchanging two entries keeps what the sequence holds.
proof fn lemma_exchange<N>(s: Seq<Entry<N>>, a: int, b: int)
    requires
        0 <= a < s.len(),
        0 <= b < s.len(),
    ensures
        s.update(a, s[b]).update(b, s[a]).to_multiset() == s.to_multiset(),
{
    let mid = s.update(a, s[b]);
    to_multiset_update(s, a, s[b]);
    to_multiset_update(mid, b, s[a]);
    assert(s.to_multiset().count(s[a]) > 0) by {
        assert(s.contains(s[a]));
    }
    assert(s.to_multiset().count(s[b]) > 0) by {
        assert(s.contains(s[b]));
    }
    assert(s.to_multiset().insert(s[b]).remove(s[a]).insert(s[a]).remove(s[b]) =~= s.to_multiset());
}

fn goes_first<N: Copy>(a: &Entry<N>, b: &Entry<N>) -> (r: bool)
    ensures
        r == entry_before(*a, *b),
{
    a.f < b.f || (a.f == b.f && (a.tie < b.tie || (a.tie == b.tie && a.seq <= b.seq)))
}

fn exchange<N: Copy>(items: &mut Vec<Entry<N>>, a: usize, b: usize)
    requires
        a < old(items)@.len(),
        b < old(items)@.len(),
    ensures
        final(items)@ == old(items)@.update(a as int, old(items)@[b as int]).update(b as int, old(items)@[a as int]),
        final(items)@.to_multiset() == old(items)@.to_multiset(),
{
    let x: Entry<N> = items[a];
    let y: Entry<N> = items[b];
    items.set(a, y);
    items.set(b, x);
    proof {
        lemma_exchange(old(items)@, a as int, b as int);
    }
}

/// Exchanging the entry still to be moved up with its parent, which goes
/// after it, moves the hole to the parent.
proof fn lemma_moved_up<N>(before: Seq<Entry<N>>, after: Seq<Entry<N>>, i: int)
    requires
        1 <= i < before.len(),
        ordered_but_up(before, i),
        !entry_before(before[(i - 1) / 2], before[i]),
        after == before.update((i - 1) / 2, before[i]).update(i, before[(i - 1) / 2]),
    ensures
        ordered_but_up(after, (i - 1) / 2),
{
    reveal(ordered_but_up);
    let parent = (i - 1) / 2;
    assert forall|j: int| 1 <= j < after.len() && j != parent implies entry_before(
        after[(j - 1) / 2],
        #[trigger] after[j],
    ) by {
        if j != i {
            assert(entry_before(before[(j - 1) / 2], before[j]));
        }
    }
    assert forall|j: int| 1 <= j < after.len() && (j - 1) / 2 == parent && parent >= 1 implies entry_before(
        after[(parent - 1) / 2],
        #[trigger] after[j],
    ) by {
        assert(entry_before(before[(parent - 1) / 2], before[parent]));
        if j != i {
            assert(entry_before(before[(j - 1) / 2], before[j]));
        }
    }
}

/// Exchanging the entry still to be moved down with its earliest child,
/// which goes before it, moves the hole to that child.
proof fn lemma_moved_down<N>(before: Seq<Entry<N>>, after: Seq<Entry<N>>, i: int, small: int)
    requires
        0 <= i < before.len(),
        small < before.len(),
        small == 2 * i + 1 || small == 2 * i + 2,
        ordered_but_down(before, i),
        !entry_before(before[i], before[small]),
        forall|c: int|
            (c == 2 * i + 1 || c == 2 * i + 2) && c < before.len() ==> entry_before(before[small], before[c]),
        after == before.update(i, before[small]).update(small, before[i]),
    ensures
        ordered_but_down(after, small),
{
    reveal(ordered_but_down);
    assert forall|j: int| 1 <= j < after.len() && (j - 1) / 2 != small implies entry_before(
        after[(j - 1) / 2],
        #[trigger] after[j],
    ) by {
        if (j - 1) / 2 == i {
            assert(j == 2 * i + 1 || j == 2 * i + 2);
        } else if j == i {
            assert(entry_before(before[(i - 1) / 2], before[small]));
        } else {
            assert(entry_before(before[(j - 1) / 2], before[j]));
        }
    }
    assert forall|j: int| 1 <= j < after.len() && (j - 1) / 2 == small && small >= 1 implies entry_before(
        after[(small - 1) / 2],
        #[trigger] after[j],
    ) by {
        assert(entry_before(before[(j - 1) / 2], before[j]));
    }
}

/// An entry that goes no later than its children is in its place.
proof fn lemma_settled_down<N>(s: Seq<Entry<N>>, i: int)
    requires
        0 <= i,
        ordered_but_down(s, i),
        forall|c: int| (c == 2 * i + 1 || c == 2 * i + 2) && c < s.len() ==> entry_before(s[i], s[c]),
    ensures
        heap_ordered(s),
{
    reveal(ordered_but_down);
    reveal(heap_ordered);
    assert forall|j: int| 1 <= j < s.len() implies entry_before(s[(j - 1) / 2], #[trigger] s[j]) by {
        if (j - 1) / 2 == i {
            assert(j == 2 * i + 1 || j == 2 * i + 2);
        }
    }
}

/// An entry that goes no earlier than its parent is in its place.
proof fn lemma_settled_up<N>(s: Seq<Entry<N>>, i: int)
    requires
        0 <= i < s.len(),
        ordered_but_up(s, i),
        i >= 1 ==> entry_before(s[(i - 1) / 2], s[i]),
    ensures
        heap_ordered(s),
{
    reveal(ordered_but_up);
    reveal(heap_ordered);
    assert forall|j: int| 1 <= j < s.len() implies entry_before(s[(j - 1) / 2], #[trigger] s[j]) by {}
}

/// Moves the last entry up to its place.
fn sift_up<N: Copy>(items: &mut Vec<Entry<N>>)
    requires
        old(items)@.len() >= 1,
        ordered_but_up(old(items)@, old(items)@.len() - 1),
    ensures
        heap_ordered(final(items)@),
        final(items)@.to_multiset() == old(items)@.to_multiset(),
{
    let mut i: usize = items.len() - 1;
    let mut placed: bool = false;
    while !placed
        invariant
            i < items@.len(),
            items@.len() == old(items)@.len(),
            !placed ==> ordered_but_up(items@, i as int),
            placed ==> heap_ordered(items@),
            items@.to_multiset() == old(items)@.to_multiset(),
        decreases i + (if placed { 0int } else { 1int }),
    {
        if i == 0 {
            proof {
                lemma_settled_up(items@, 0);
            }
            placed = true;
        } else {
            let parent: usize = (i - 1) / 2;
            if goes_first(&items[parent], &items[i]) {
                proof {
                    lemma_settled_up(items@, i as int);
                }
                placed = true;
            } else {
                let ghost before = items@;
                exchange(items, parent, i);
                proof {
                    lemma_moved_up(before, items@, i as int);
                }
                i = parent;
            }
        }
    }
}

/// Moves the root down to its place.
fn sift_down<N: Copy>(items: &mut Vec<Entry<N>>)
    requires
        ordered_but_down(old(items)@, 0),
    ensures
        heap_ordered(final(items)@),
        final(items)@.to_multiset() == old(items)@.to_multiset(),
{
    let n: usize = items.len();
    let mut i: usize = 0;
    let mut placed: bool = false;
    while !placed
        invariant
            n == items@.len(),
            n == old(items)@.len(),
            i < n || (n == 0 && i == 0),
            !placed ==> ordered_but_down(items@, i as int),
            placed ==> heap_ordered(items@),
            items@.to_multiset() == old(items)@.to_multiset(),
        decreases n - i + (if placed { 0int } else { 1int }),
    {
        let mut small: usize = i;
        if i < n / 2 {
            let left: usize = 2 * i + 1;
            if left < n {
                if !goes_first(&items[small], &items[left]) {
                    small = left;
                }
                let right: usize = left + 1;
                if right < n && !goes_first(&items[small], &items[right]) {
                    small = right;
                }
            }
        }
        if small == i {
            proof {
                lemma_settled_down(items@, i as int);
            }
            placed = true;
        } else {
            let ghost before = items@;
            exchange(items, i, small);
            proof {
                assert(small == 2 * i + 1 || small == 2 * i + 2);
                lemma_moved_down(before, items@, i as int, small as int);
            }
            i = small;
        }
    }
}

/// A min-priority queue of entries.
pub struct Frontier<N> {
    items: Vec<Entry<N>>,
}

impl<N> Frontier<N> {
    #[verifier::type_invariant]
    spec fn ordered(self) -> bool {
        heap_ordered(self.items@)
    }
}

impl<N: Copy> Frontier<N> {
    pub closed spec fn view(&self) -> Multiset<Entry<N>> {
        self.items@.to_multiset()
    }

    pub fn new() -> (r: Self)
        ensures
            r@ == Multiset::<Entry<N>>::empty(),
    {
        let items: Vec<Entry<N>> = Vec::new();
        proof {
            lemma_empty_heap(items@);
            assert(items@ =~= Seq::empty());
            assert(items@.to_multiset() =~= Multiset::<Entry<N>>::empty());
        }
        Frontier { items }
    }

    pub fn len(&self) -> (n: usize)
        ensures
            n == self@.len(),
    {
        self.items.len()
    }

    /// Puts an entry on the frontier.
    pub fn push(&mut self, e: Entry<N>)
        ensures
            final(self)@ == old(self)@.insert(e),
    {
        proof {
            use_type_invariant(&*self);
        }
        let mut items: Vec<Entry<N>> = Vec::new();
        proof {
            lemma_empty_heap(items@);
        }
        std::mem::swap(&mut items, &mut self.items);
        proof {
            lemma_pushed(items@, e);
        }
        items.push(e);
        sift_up(&mut items);
        self.items = items;
    }

    /// Removes and returns the entry that no other goes before.
    pub fn pop_min(&mut self) -> (r: Option<Entry<N>>)
        ensures
            match r {
                None => old(self)@.len() == 0 && final(self)@ == old(self)@,
                Some(e) => is_first(old(self)@, e) && final(self)@ == old(self)@.remove(e),
            },
    {
        proof {
            use_type_invariant(&*self);
        }
        let n: usize = self.items.len();
        if n == 0 {
            return None;
        }
        let mut items: Vec<Entry<N>> = Vec::new();
        proof {
            lemma_empty_heap(items@);
        }
        std::mem::swap(&mut items, &mut self.items);
        let ghost before = items@;
        let e: Entry<N> = items[0];
        proof {
            assert(before.contains(e));
            assert forall|o: Entry<N>| before.to_multiset().count(o) > 0 implies entry_before(e, o) by {
                assert(before.contains(o));
                let j = choose|j: int| 0 <= j < before.len() && before[j] == o;
                lemma_root_is_first(before, j);
            }
        }
        exchange(&mut items, 0, n - 1);
        let ghost mixed = items@;
        items.pop();
        proof {
            assert(items@ =~= mixed.remove(n - 1));
            assert(items@ =~= mixed.drop_last());
            to_multiset_remove(mixed, n - 1);
            lemma_root_replaced(before, items@);
        }
        sift_down(&mut items);
        self.items = items;
        Some(e)
    }
}

} // verus!
