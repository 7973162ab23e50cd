use vstd::multiset::Multiset;
use vstd::prelude::*;

verus! {

/// `<[T]>::swap` exchanges the elements at two positions of a slice and leaves
/// every other position as it was; both positions must lie inside the slice.
pub assume_specification<T>[ <[T]>::swap ](slice: &mut [T], a: usize, b: usize)
    requires
        a < old(slice)@.len(),
        b < old(slice)@.len(),
    ensures
        final(slice)@ == old(slice)@.update(a as int, old(slice)@[b as int]).update(
            b as int,
            old(slice)@[a as int],
        ),
;

/// The slot at `j` holds no more than its parent slot `j / 2`.
pub open spec fn below_parent(s: Seq<i32>, j: int) -> bool {
    s[j / 2] >= s[j]
}

/// Every slot whose parent lies at `lo` or later holds no more than that
/// parent. With `lo == 1` this is the heap order of the whole vector.
pub open spec fn heap_ordered_from(s: Seq<i32>, lo: int) -> bool {
    forall|j: int| 2 <= j < s.len() && j / 2 >= lo ==> #[trigger] below_parent(s, j)
}

/// `s` with the elements at `a` and `b` exchanged.
pub open spec fn exchanged(s: Seq<i32>, a: int, b: int) -> Seq<i32> {
    s.update(a, s[b]).update(b, s[a])
}

/// Exchanging two elements keeps the multiset of a sequence.
proof fn lemma_exchange_keeps_multiset(s: Seq<i32>, a: int, b: int)
    requires
        0 <= a < s.len(),
        0 <= b < s.len(),
    ensures
        exchanged(s, a, b).to_multiset() == s.to_multiset(),
{
    broadcast use vstd::seq_lib::group_to_multiset_ensures;
    broadcast use vstd::multiset::group_multiset_axioms;

    let mid = s.update(a, s[b]);
    assert(mid.to_multiset() == s.to_multiset().insert(s[b]).remove(s[a]));
    assert(mid[b] == s[b]);
    assert(exchanged(s, a, b).to_multiset() == mid.to_multiset().insert(s[a]).remove(s[b]));
    assert(s.to_multiset().count(s[a]) > 0);
    assert(s.to_multiset().count(s[b]) > 0);
    assert(exchanged(s, a, b).to_multiset() =~= s.to_multiset());
}

/// No element is greater than one before it.
pub open spec fn descending(s: Seq<i32>) -> bool {
    forall|a: int, b: int| 0 <= a < b < s.len() ==> s[a] >= s[b]
}

/// No element is smaller than one before it.
pub open spec fn ascending(s: Seq<i32>) -> bool {
    forall|a: int, b: int| 0 <= a < b < s.len() ==> s[a] <= s[b]
}

/// `x` is at least every value in `m`.
pub open spec fn dominates(x: i32, m: Multiset<i32>) -> bool {
    forall|y: i32| m.count(y) > 0 ==> y <= x
}

/// The values after the sentinel are all the values but the sentinel.
proof fn lemma_items(s: Seq<i32>)
    requires
        s.len() >= 1,
    ensures
        s.skip(1).to_multiset() == s.to_multiset().remove(s[0]),
{
    broadcast use vstd::seq_lib::group_to_multiset_ensures;

    assert(s.skip(1) =~= s.remove(0));
}

/// In a heap the root is at least every value.
proof fn lemma_root_dominates(s: Seq<i32>, j: int)
    requires
        heap_ordered_from(s, 1),
        1 <= j < s.len(),
    ensures
        s[1] >= s[j],
    decreases j,
{
    if j >= 2 {
        assert(below_parent(s, j));
        lemma_root_dominates(s, j / 2);
    }
}

/// In a heap the root is at least every value of the queue.
proof fn lemma_root_is_max(s: Seq<i32>)
    requires
        heap_ordered_from(s, 1),
        s.len() >= 2,
    ensures
        dominates(s[1], s.skip(1).to_multiset()),
        s.skip(1).to_multiset().count(s[1]) > 0,
{
    broadcast use vstd::seq_lib::group_to_multiset_ensures;

    let items = s.skip(1);
    assert forall|y: i32| items.to_multiset().count(y) > 0 implies y <= s[1] by {
        assert(items.contains(y));
        let a = choose|a: int| 0 <= a < items.len() && items[a] == y;
        lemma_root_dominates(s, a + 1);
    }
    assert(items[0] == s[1]);
    assert(items.contains(s[1]));
}

/// Slot `j` lies in the subtree of slot `i`: it is `i`, or its parent lies
/// in that subtree.
pub open spec fn in_subtree(i: int, j: int) -> bool
    decreases j,
{
    j == i || (i >= 1 && j > i && in_subtree(i, j / 2))
}

/// The child of `p` to exchange with: the left one, unless there is a right
/// one that is not smaller.
pub open spec fn greater_child(s: Seq<i32>, p: int) -> int {
    if 2 * p + 1 == s.len() || s[2 * p + 1] < s[2 * p] {
        2 * p
    } else {
        2 * p + 1
    }
}

/// The heap after the value at `p` has sunk: while it has a child and is
/// smaller than its greater child, the two are exchanged.
pub open spec fn sunk(s: Seq<i32>, p: int) -> Seq<i32>
    decreases s.len() - p,
{
    if 1 <= p && 2 * p < s.len() && s[p] < s[greater_child(s, p)] {
        sunk(exchanged(s, p, greater_child(s, p)), greater_child(s, p))
    } else {
        s
    }
}

/// The heap after the value at `p` has swum: while it is not at the root
/// and is greater than its parent, the two are exchanged.
pub open spec fn swum(s: Seq<i32>, p: int) -> Seq<i32>
    decreases p,
{
    if 1 < p < s.len() && s[p] > s[p / 2] {
        swum(exchanged(s, p, p / 2), p / 2)
    } else {
        s
    }
}

/// What lies in the subtree of a child lies in the subtree of its parent.
proof fn lemma_subtree_of_child(p: int, j: int)
    requires
        p >= 1,
        in_subtree(2 * p, j) || in_subtree(2 * p + 1, j),
    ensures
        in_subtree(p, j),
        j > p,
    decreases j,
{
    if j != 2 * p && j != 2 * p + 1 {
        lemma_subtree_of_child(p, j / 2);
    } else {
        assert(in_subtree(p, j / 2));
    }
}

/// Sinking keeps the length and the values, and changes nothing outside
/// the subtree of `p`.
pub proof fn lemma_sunk_frame(s: Seq<i32>, p: int)
    requires
        p >= 1,
    ensures
        sunk(s, p).len() == s.len(),
        sunk(s, p).to_multiset() == s.to_multiset(),
        forall|j: int| 0 <= j < s.len() && !in_subtree(p, j) ==> sunk(s, p)[j] == s[j],
    decreases s.len() - p,
{
    if 2 * p < s.len() && s[p] < s[greater_child(s, p)] {
        let g = greater_child(s, p);
        let t = exchanged(s, p, g);
        lemma_exchange_keeps_multiset(s, p, g);
        lemma_sunk_frame(t, g);
        assert forall|j: int| 0 <= j < s.len() && !in_subtree(p, j) implies sunk(s, p)[j]
            == s[j] by {
            if in_subtree(g, j) {
                lemma_subtree_of_child(p, j);
            }
        }
    }
}

/// Where every slot behind `i` is in order but for the children of `p`,
/// and those are at most the parent of `p`, sinking at `p` brings every
/// slot from `i` on in order.
pub proof fn lemma_sunk_orders(s: Seq<i32>, i: int, p: int)
    requires
        1 <= i <= p,
        forall|j: int| 2 <= j < s.len() && j / 2 >= i && j / 2 != p ==> #[trigger] below_parent(s, j),
        p > i ==> forall|c: int| 2 <= c < s.len() && c / 2 == p ==> s[p / 2] >= #[trigger] s[c],
    ensures
        heap_ordered_from(sunk(s, p), i),
    decreases s.len() - p,
{
    if 2 * p < s.len() && s[p] < s[greater_child(s, p)] {
        let g = greater_child(s, p);
        let t = exchanged(s, p, g);
        assert forall|j: int| 2 <= j < t.len() && j / 2 >= i && j / 2 != g implies #[trigger] below_parent(
            t,
            j,
        ) by {
            if j == p {
                assert(s[p / 2] >= s[g]);
            } else if j / 2 != p {
                assert(below_parent(s, j));
            }
        }
        assert forall|c: int| 2 <= c < t.len() && c / 2 == g implies t[g / 2] >= #[trigger] t[c] by {
            assert(below_parent(s, c));
        }
        lemma_sunk_orders(t, i, g);
    } else {
        assert forall|j: int| 2 <= j < s.len() && j / 2 >= i implies #[trigger] below_parent(s, j) by {
            if j / 2 != p {
                assert(below_parent(s, j));
            }
        }
    }
}

/// Every slot of the subtree of `i`, but `i` itself, holds no more than its
/// parent: the subtree is a heap.
pub open spec fn subtree_ordered(s: Seq<i32>, i: int) -> bool {
    forall|j: int| 2 <= j < s.len() && j != i && in_subtree(i, j) ==> #[trigger] below_parent(s, j)
}

/// Where the subtrees of the children of `i` are heaps, sinking at `i`
/// makes the subtree of `i` a heap.
pub proof fn lemma_sunk_orders_subtree(s: Seq<i32>, i: int)
    requires
        1 <= i,
        subtree_ordered(s, 2 * i),
        subtree_ordered(s, 2 * i + 1),
    ensures
        subtree_ordered(sunk(s, i), i),
{
    assert forall|j: int|
        2 <= j < s.len() && j != i && in_subtree(i, j) && j / 2 != i implies #[trigger] below_parent(
        s,
        j,
    ) by {
        lemma_in_child_subtree(i, j);
    }
    lemma_sunk_orders_within(s, i, i);
}

/// A slot of the subtree of `i`, other than `i` and its children, lies in
/// the subtree of one child of `i` and is not that child.
proof fn lemma_in_child_subtree(i: int, j: int)
    requires
        1 <= i,
        in_subtree(i, j),
        j != i,
    ensures
        in_subtree(2 * i, j) || in_subtree(2 * i + 1, j),
    decreases j,
{
    if j / 2 != i {
        lemma_in_child_subtree(i, j / 2);
    }
}

/// Where every slot of the subtree of `i` is in order but for the children
/// of `p`, and those are at most the parent of `p`, sinking at `p` brings
/// the subtree of `i` in order.
proof fn lemma_sunk_orders_within(s: Seq<i32>, i: int, p: int)
    requires
        1 <= i,
        in_subtree(i, p),
        forall|j: int|
            2 <= j < s.len() && j != i && in_subtree(i, j) && j / 2 != p ==> #[trigger] below_parent(
                s,
                j,
            ),
        p > i ==> forall|c: int| 2 <= c < s.len() && c / 2 == p ==> s[p / 2] >= #[trigger] s[c],
    ensures
        subtree_ordered(sunk(s, p), i),
    decreases s.len() - p,
{
    if 2 * p < s.len() && s[p] < s[greater_child(s, p)] {
        let g = greater_child(s, p);
        let t = exchanged(s, p, g);
        assert(in_subtree(i, g));
        assert forall|j: int|
            2 <= j < t.len() && j != i && in_subtree(i, j) && j / 2 != g implies #[trigger] below_parent(
            t,
            j,
        ) by {
            if j == p {
                assert(s[p / 2] >= s[g]);
            } else if j / 2 != p {
                assert(below_parent(s, j));
            }
        }
        assert forall|c: int| 2 <= c < t.len() && c / 2 == g implies t[g / 2] >= #[trigger] t[c] by {
            assert(in_subtree(i, c));
            assert(below_parent(s, c));
        }
        lemma_sunk_orders_within(t, i, g);
    } else {
        assert forall|j: int| 2 <= j < s.len() && j != i && in_subtree(i, j) implies #[trigger] below_parent(
            s,
            j,
        ) by {
            if j / 2 != p {
                assert(below_parent(s, j));
            }
        }
    }
}

/// In a subtree that is a heap the root is at least every value.
proof fn lemma_subtree_root_dominates(s: Seq<i32>, i: int, j: int)
    requires
        1 <= i,
        subtree_ordered(s, i),
        in_subtree(i, j),
        j < s.len(),
    ensures
        s[i] >= s[j],
    decreases j,
{
    if j != i {
        assert(below_parent(s, j));
        lemma_subtree_root_dominates(s, i, j / 2);
    }
}

/// Where the subtrees of the children of `i` are heaps, sinking at `i`
/// leaves at `i` a value that is at least every value that the subtree of
/// `i` held.
pub proof fn lemma_sunk_root_is_max(s: Seq<i32>, i: int)
    requires
        1 <= i < s.len(),
        subtree_ordered(s, 2 * i),
        subtree_ordered(s, 2 * i + 1),
    ensures
        forall|j: int| 0 <= j < s.len() && in_subtree(i, j) ==> sunk(s, i)[i] >= s[j],
{
    let top = sunk(s, i)[i];
    if 2 * i < s.len() && s[i] < s[greater_child(s, i)] {
        let g = greater_child(s, i);
        lemma_sunk_frame(exchanged(s, i, g), g);
        assert(!in_subtree(g, i));
        assert(top == s[g]);
    }
    assert forall|j: int| 0 <= j < s.len() && in_subtree(i, j) implies top >= s[j] by {
        if j != i {
            lemma_in_child_subtree(i, j);
            if in_subtree(2 * i, j) {
                lemma_subtree_root_dominates(s, 2 * i, j);
            } else {
                lemma_subtree_root_dominates(s, 2 * i + 1, j);
            }
        }
    }
}

/// A value that is at least its children stays where it is.
pub proof fn lemma_sunk_in_place(s: Seq<i32>, i: int)
    requires
        1 <= i,
        2 * i < s.len() ==> s[i] >= s[2 * i],
        2 * i + 1 < s.len() ==> s[i] >= s[2 * i + 1],
    ensures
        sunk(s, i) == s,
{
}

/// Swimming keeps the length and the values, and changes nothing but on
/// the way from `p` up to the root.
pub proof fn lemma_swum_frame(s: Seq<i32>, p: int)
    requires
        0 <= p,
    ensures
        swum(s, p).len() == s.len(),
        swum(s, p).to_multiset() == s.to_multiset(),
        forall|j: int|
            0 <= j < s.len() && !(j >= 1 && in_subtree(j, p)) ==> swum(s, p)[j] == s[j],
    decreases p,
{
    if 1 < p < s.len() && s[p] > s[p / 2] {
        let t = exchanged(s, p, p / 2);
        lemma_exchange_keeps_multiset(s, p, p / 2);
        lemma_swum_frame(t, p / 2);
        assert forall|j: int|
            0 <= j < s.len() && !(j >= 1 && in_subtree(j, p)) implies swum(s, p)[j] == s[j] by {
            if j >= 1 && in_subtree(j, p / 2) {
                assert(p / 2 >= j);
                assert(in_subtree(j, p));
            }
            assert(j != p);
            assert(t[j] == s[j]);
        }
    }
}

/// Where every slot is in order but `p`, and the children of `p` are at
/// most the parent of `p`, swimming at `p` brings the whole heap in order.
pub proof fn lemma_swum_orders(s: Seq<i32>, p: int)
    requires
        1 <= p < s.len(),
        forall|j: int| 2 <= j < s.len() && j != p ==> #[trigger] below_parent(s, j),
        p >= 2 ==> forall|c: int| 2 <= c < s.len() && c / 2 == p ==> s[p / 2] >= #[trigger] s[c],
    ensures
        heap_ordered_from(swum(s, p), 1),
    decreases p,
{
    if 1 < p && s[p] > s[p / 2] {
        let parent = p / 2;
        let t = exchanged(s, p, parent);
        assert forall|j: int| 2 <= j < t.len() && j != parent implies #[trigger] below_parent(t, j) by {
            if j / 2 == p {
                assert(s[parent] >= s[j]);
            } else if j != p {
                assert(below_parent(s, j));
            }
        }
        if parent >= 2 {
            assert(below_parent(s, parent));
            assert forall|c: int| 2 <= c < t.len() && c / 2 == parent implies t[parent / 2]
                >= #[trigger] t[c] by {
                if c != p {
                    assert(below_parent(s, c));
                }
            }
        }
        lemma_swum_orders(t, parent);
    } else if p >= 2 {
        assert(below_parent(s, p));
    }
}

/// The heap after the values at `p`, `p - 1`, down to 1 have sunk, in that
/// order.
pub open spec fn heapified(s: Seq<i32>, p: int) -> Seq<i32>
    decreases p,
{
    if p >= 1 {
        heapified(sunk(s, p), p - 1)
    } else {
        s
    }
}

/// The heap after its greatest value has left: the last value takes the
/// root's place and sinks.
pub open spec fn without_max(s: Seq<i32>) -> Seq<i32> {
    sunk(exchanged(s, 1, s.len() - 1).drop_last(), 1)
}

/// The heap after its `k` greatest values have left, one after the other.
pub open spec fn drained(s: Seq<i32>, k: nat) -> Seq<i32>
    decreases k,
{
    if k == 0 {
        s
    } else {
        drained(without_max(s), (k - 1) as nat)
    }
}

/// Where every slot behind `p` is in order, sinking at `p`, `p - 1`, down
/// to 1 brings the whole heap in order, and keeps the length, the values
/// and slot 0.
pub proof fn lemma_heapified(s: Seq<i32>, p: int)
    requires
        s.len() >= 1,
        0 <= p,
        heap_ordered_from(s, p + 1),
    ensures
        heapified(s, p).len() == s.len(),
        heapified(s, p).to_multiset() == s.to_multiset(),
        heapified(s, p)[0] == s[0],
        heap_ordered_from(heapified(s, p), 1),
    decreases p,
{
    if p >= 1 {
        lemma_sunk_frame(s, p);
        lemma_sunk_orders(s, p, p);
        assert(!in_subtree(p, 0));
        lemma_heapified(sunk(s, p), p - 1);
    }
}

/// A max-oriented priority queue over 32-bit integers, kept as a binary heap
/// in a vector whose slot 0 is an unused sentinel.
pub struct MaxPQ {
    heap: Vec<i32>,
}

impl View for MaxPQ {
    type V = Multiset<i32>;

    /// The values in the queue, each as often as it was inserted.
    open spec fn view(&self) -> Multiset<i32> {
        self.slots().skip(1).to_multiset()
    }
}

impl MaxPQ {
    /// The slots of the heap: slot 0 is the sentinel, slot 1 the root, and
    /// the children of slot `j` are the slots `2 * j` and `2 * j + 1`.
    pub closed spec fn slots(&self) -> Seq<i32> {
        self.heap@
    }

    /// The sentinel is there and holds 0, and every value is at most its
    /// parent.
    pub open spec fn wf(&self) -> bool {
        &&& self.slots().len() >= 1
        &&& self.slots()[0] == 0
        &&& heap_ordered_from(self.slots(), 1)
    }

    /// Returns an empty MaxPQ. Note that
    /// this implies the first element
    /// of the heap is initialized to 0.
    pub fn empty() -> (pq: MaxPQ)
        ensures
            pq.wf(),
            pq.slots() == seq![0i32],
            pq@ == Multiset::<i32>::empty(),
    {
        let pq = MaxPQ { heap: vec![0] };
        assert(pq.heap@ =~= seq![0i32]);
        proof {
            broadcast use vstd::seq_lib::group_to_multiset_ensures;

            assert(pq.heap@.skip(1) =~= Seq::<i32>::empty());
            assert(pq@.len() == 0);
            assert(pq@ =~= Multiset::<i32>::empty());
        }
        pq
    }

    /// Accepts a vector of integers to be
    /// used to form a heap and returns a
    /// new MaxPQ. 0 is prepended to the
    /// input vector before it's heapified.
    pub fn from(values: Vec<i32>) -> (pq: MaxPQ)
        ensures
            pq.wf(),
            pq.slots() == heapified(values@.insert(0, 0), values@.len() as int / 2),
            pq@ == values@.to_multiset(),
    {
        let mut heap = values;
        heap.insert(0, 0);
        let mut mpq = MaxPQ { heap };
        assert(mpq.heap@.skip(1) =~= values@);
        proof {
            lemma_items(mpq.heap@);
        }
        let ghost prepended = mpq.heap@;
        mpq.heapify();
        proof {
            lemma_heapified(prepended, (prepended.len() - 1) / 2);
            lemma_items(mpq.heap@);
        }
        mpq
    }

    /// Internal swim method for moving an element
    /// of the heap up to its proper position.
    fn swim(&mut self, i: usize)
        requires
            i < old(self).heap@.len() || i <= 1,
        ensures
            final(self).heap@ == swum(old(self).heap@, i as int),
    {
        let mut ptr = i;

        while ptr > 1
            invariant
                ptr < self.heap@.len() || ptr <= 1,
                swum(self.heap@, ptr as int) == swum(old(self).heap@, i as int),
            ensures
                self.heap@ == swum(old(self).heap@, i as int),
            decreases ptr,
        {
            if self.heap[ptr] > self.heap[ptr / 2] {
                self.heap.swap(ptr, ptr / 2);
                ptr = ptr / 2;
            } else {
                break ;
            }
        }
    }

    /// Internal sink method for moving an element
    /// of the heap down to its proper position.
    fn sink(&mut self, i: usize)
        requires
            old(self).heap@.len() >= 1,
            i >= 1,
        ensures
            final(self).heap@ == sunk(old(self).heap@, i as int),
    {
        let mut ptr = i;
        let len = self.heap.len();

        // While `ptr` has a child, that is while `2 * ptr < len`; asked with
        // a division, so that no product can overflow.
        while ptr <= (len - 1) / 2
            invariant
                len == self.heap@.len(),
                len >= 1,
                ptr >= 1,
                sunk(self.heap@, ptr as int) == sunk(old(self).heap@, i as int),
            ensures
                self.heap@ == sunk(old(self).heap@, i as int),
            decreases len - ptr,
        {
            // Pick the greater of the two children to swap with
            let greater = if 2 * ptr + 1 == len || self.heap[2 * ptr + 1] < self.heap[2 * ptr] {
                2 * ptr
            } else {
                2 * ptr + 1
            };

            if self.heap[ptr] < self.heap[greater] {
                self.heap.swap(ptr, greater);
                ptr = greater;
            } else {
                break ;
            }
        }
    }

    /// Insert a value into the MaxPQ.
    pub fn insert(&mut self, i: i32)
        requires
            old(self).wf(),
        ensures
            final(self).wf(),
            final(self).slots() == swum(old(self).slots().push(i), old(self).slots().len() as int),
            final(self)@ == old(self)@.insert(i),
    {
        let ghost before = self.heap@;
        self.heap.push(i);
        proof {
            broadcast use vstd::seq_lib::group_to_multiset_ensures;

            assert(self.heap@.skip(1) =~= before.skip(1).push(i));
            lemma_items(self.heap@);
            assert forall|j: int| 2 <= j < self.heap@.len() && j != self.heap@.len() - 1 implies #[trigger] below_parent(
                self.heap@,
                j,
            ) by {
                assert(below_parent(before, j));
            }
        }
        let ghost pushed = self.heap@;
        self.swim(self.heap.len() - 1);
        proof {
            lemma_swum_frame(pushed, pushed.len() - 1);
            lemma_swum_orders(pushed, pushed.len() - 1);
            lemma_items(self.heap@);
        }
    }

    /// Remove the current maximum value
    /// from the MaxPQ. The value is
    /// returned after it is removed from
    /// the PriorityQueue and after
    /// the remaining values are re-adjusted.
    pub fn del_max(&mut self) -> (max: i32)
        requires
            old(self).wf(),
            old(self)@.len() > 0,
        ensures
            final(self).wf(),
            max == old(self).slots()[1],
            final(self).slots() == without_max(old(self).slots()),
            old(self)@.count(max) > 0,
            dominates(max, old(self)@),
            final(self)@ == old(self)@.remove(max),
    {
        proof {
            broadcast use vstd::seq_lib::group_to_multiset_ensures;

            assert(self.heap@.skip(1).len() > 0);
            lemma_root_is_max(self.heap@);
            lemma_items(self.heap@);
        }
        let ghost before = self.heap@;
        let max = self.heap[1];
        let last = self.heap.len() - 1;
        self.heap.swap(1, last);
        self.heap.remove(self.heap.len() - 1);
        proof {
            broadcast use vstd::seq_lib::group_to_multiset_ensures;

            let swapped = exchanged(before, 1, last as int);
            lemma_exchange_keeps_multiset(before, 1, last as int);
            assert(self.heap@ == swapped.remove(last as int));
            assert(swapped[last as int] == max);
            assert(self.heap@.to_multiset() == before.to_multiset().remove(max));
            lemma_items(self.heap@);
            assert(self.heap@[0] == before[0]);
            assert(self.heap@.skip(1).to_multiset() =~= before.skip(1).to_multiset().remove(max));
            assert forall|j: int| 2 <= j < self.heap@.len() && j / 2 >= 2 implies #[trigger] below_parent(
                self.heap@,
                j,
            ) by {
                assert(below_parent(before, j));
            }
        }
        let ghost removed = self.heap@;
        self.sink(1);
        proof {
            lemma_sunk_frame(removed, 1);
            lemma_sunk_orders(removed, 1, 1);
            lemma_items(removed);
            lemma_items(self.heap@);
        }
        max
    }

    /// Internal method for heapifying
    /// the currently stored Vec<i32>.
    fn heapify(&mut self)
        requires
            old(self).heap@.len() >= 1,
        ensures
            final(self).heap@ == heapified(old(self).heap@, (old(self).heap@.len() - 1) / 2),
    {
        let mut ptr = (self.heap.len() - 1) / 2;

        while ptr >= 1
            invariant
                self.heap@.len() >= 1,
                heapified(self.heap@, ptr as int) == heapified(
                    old(self).heap@,
                    (old(self).heap@.len() - 1) / 2,
                ),
            decreases ptr,
        {
            let ghost before = self.heap@;
            self.sink(ptr);
            proof {
                lemma_sunk_frame(before, ptr as int);
            }
            ptr -= 1;
        }
    }

    /// Retrieves and removes the k largest
    /// elements of the MaxPQ.
    pub fn top_k(&mut self, k: usize) -> (values: Vec<i32>)
        requires
            old(self).wf(),
            k <= old(self)@.len(),
        ensures
            final(self).wf(),
            values@.len() == k,
            final(self)@.len() == old(self)@.len() - k,
            descending(values@),
            values@.to_multiset().add(final(self)@) == old(self)@,
            forall|a: int| 0 <= a < k ==> dominates(#[trigger] values@[a], final(self)@),
            final(self).slots() == drained(old(self).slots(), k as nat),
    {
        let mut values = vec![0; k];
        proof {
            broadcast use vstd::seq_lib::group_to_multiset_ensures;

            assert(values@.take(0).to_multiset().len() == 0);
            assert(values@.take(0).to_multiset().add(self@) =~= self@);
        }

        for i in 0..k
            invariant
                self.wf(),
                values@.len() == k,
                k <= old(self)@.len(),
                self@.len() + i == old(self)@.len(),
                descending(values@.take(i as int)),
                values@.take(i as int).to_multiset().add(self@) == old(self)@,
                forall|a: int| 0 <= a < i ==> dominates(#[trigger] values@[a], self@),
                drained(self.slots(), (k - i) as nat) == drained(old(self).slots(), k as nat),
        {
            let ghost filled = values@.take(i as int);
            let ghost rest = self@;
            let max = self.del_max();
            values[i] = max;
            proof {
                broadcast use vstd::seq_lib::group_to_multiset_ensures;

                assert(values@.take(i + 1) =~= filled.push(max));
                assert(filled.push(max).to_multiset().add(self@) =~= filled.to_multiset().add(rest));
                assert forall|a: int| 0 <= a <= i implies dominates(#[trigger] values@[a], self@) by {
                    assert forall|y: i32| self@.count(y) > 0 implies y <= values@[a] by {
                        assert(rest.count(y) > 0);
                    }
                }
            }
        }

        assert(values@.take(k as int) =~= values@);
        values
    }

    /// Uses the internally stored heap to
    /// produce a vector containing all inserted
    /// values in sorted ascending order.
    pub fn heapsort(&mut self) -> (values: Vec<i32>)
        requires
            old(self).wf(),
        ensures
            final(self).wf(),
            final(self).slots() == seq![0i32],
            final(self)@ == Multiset::<i32>::empty(),
            values@.len() == old(self)@.len(),
            ascending(values@),
            values@.to_multiset() == old(self)@,
    {
        let n = self.heap.len() - 1;
        let mut values = vec![0; n];
        proof {
            broadcast use vstd::seq_lib::group_to_multiset_ensures;

            assert(self@.len() == n);
            assert(values@.skip(n as int).to_multiset().len() == 0);
            assert(values@.skip(n as int).to_multiset().add(self@) =~= self@);
        }

        for i in it: (0..n).rev()
            invariant
                self.wf(),
                values@.len() == n,
                n == old(self)@.len(),
                self@.len() + it.index() == n,
                it.seq().len() == n,
                forall|k: int| 0 <= k < n ==> it.seq()[k] == n - 1 - k,
                ascending(values@.skip(n - it.index())),
                values@.skip(n - it.index()).to_multiset().add(self@) == old(self)@,
                forall|b: int| n - it.index() <= b < n ==> dominates(#[trigger] values@[b], self@),
        {
            let ghost filled = values@.skip(i + 1);
            let ghost rest = self@;
            let max = self.del_max();
            values[i] = max;
            proof {
                broadcast use vstd::seq_lib::group_to_multiset_ensures;

                assert(values@.skip(i as int) =~= filled.insert(0, max));
                assert(filled.insert(0, max).to_multiset().add(self@) =~= filled.to_multiset().add(
                    rest,
                ));
                assert forall|b: int| i <= b < n implies dominates(#[trigger] values@[b], self@) by {
                    assert forall|y: i32| self@.count(y) > 0 implies y <= values@[b] by {
                        assert(rest.count(y) > 0);
                    }
                }
            }
        }

        proof {
            broadcast use vstd::seq_lib::group_to_multiset_ensures;

            assert(values@.skip(0) =~= values@);
            assert(self@.len() == 0);
            assert(self.heap@.skip(1).len() == 0);
            assert(self.heap@ =~= seq![0i32]);
            assert(self@ =~= Multiset::<i32>::empty());
            assert(values@.to_multiset().add(self@) =~= values@.to_multiset());
        }
        values
    }
}

} // verus!
