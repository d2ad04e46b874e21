//! Sorting slices of integers.
use vstd::prelude::*;

verus! {

broadcast use {vstd::seq_lib::group_to_multiset_ensures, vstd::multiset::group_multiset_axioms};

/// Every element is at most each one after it.
pub open spec fn is_sorted(s: Seq<i32>) -> bool {
    forall|i: int, j: int| 0 <= i <= j < s.len() ==> s[i] <= s[j]
}

/// Whether each element of `array` is at most the next one.
pub fn is_array_sorted(array: &[i32]) -> (r: bool)
    ensures
        r == is_sorted(array@),
{
    let n = array.len();
    if n == 0 {
        return true;
    }
    let mut i: usize = 0;
    while i < n - 1
        invariant
            n == array@.len() >= 1,
            i <= n - 1,
            forall|p: int, q: int| 0 <= p <= q <= i ==> array@[p] <= array@[q],
        decreases n - 1 - i,
    {
        if array[i + 1] < array[i] {
            return false;
        }
        i = i + 1;
    }
    true
}

/// A sorted sequence followed by a pivot no smaller than its elements, then
/// by a sorted sequence of larger elements, is sorted.
proof fn lemma_sorted_concat(left: Seq<i32>, pivot: i32, right: Seq<i32>)
    requires
        is_sorted(left),
        is_sorted(right),
        forall|k: int| 0 <= k < left.len() ==> left[k] <= pivot,
        forall|k: int| 0 <= k < right.len() ==> pivot < right[k],
    ensures
        is_sorted(left + seq![pivot] + right),
{
    let s = left + seq![pivot] + right;
    assert forall|i: int, j: int| 0 <= i <= j < s.len() implies s[i] <= s[j] by {
        let l = left.len() as int;
        if j < l {
        } else if j == l {
            if i < l {
                assert(left[i] <= pivot);
            }
        } else if i <= l {
            assert(pivot < right[j - l - 1]);
            if i < l {
                assert(left[i] <= pivot);
            }
        } else {
            assert(right[i - l - 1] <= right[j - l - 1]);
        }
    }
}

/// Elements of a sequence with the same elements as one whose elements all
/// satisfy a bound satisfy it too.
proof fn lemma_bound_carries(a: Seq<i32>, b: Seq<i32>, pivot: i32, above: bool)
    requires
        a.to_multiset() == b.to_multiset(),
        forall|k: int| 0 <= k < a.len() ==> if above { pivot < a[k] } else { a[k] <= pivot },
    ensures
        forall|k: int| 0 <= k < b.len() ==> if above { pivot < #[trigger] b[k] } else { b[k] <= pivot },
{
    assert forall|k: int| 0 <= k < b.len() implies if above { pivot < #[trigger] b[k] } else { b[k] <= pivot } by {
        assert(b.contains(b[k]));
        assert(b.to_multiset().count(b[k]) > 0);
        assert(a.contains(b[k]));
    }
}

/// Sorts `array` by quicksort around its first element.
pub fn quick_sort(array: &mut [i32])
    ensures
        is_sorted(final(array)@),
        final(array)@.to_multiset() == old(array)@.to_multiset(),
    decreases old(array)@.len(),
{
    let n = array.len();
    if n <= 1 {
        return;
    }
    let pivot = array[0];
    let mut left_vec: Vec<i32> = Vec::new();
    let mut right_vec: Vec<i32> = Vec::new();
    let mut i: usize = 1;
    while i < n
        invariant
            n == array@.len(),
            1 <= i <= n,
            pivot == array@[0],
            left_vec@.to_multiset().add(right_vec@.to_multiset()) == array@.subrange(1, i as int).to_multiset(),
            left_vec@.len() + right_vec@.len() == i - 1,
            forall|k: int| 0 <= k < left_vec@.len() ==> left_vec@[k] <= pivot,
            forall|k: int| 0 <= k < right_vec@.len() ==> pivot < right_vec@[k],
        decreases n - i,
    {
        let elem = array[i];
        proof {
            assert(array@.subrange(1, i + 1) =~= array@.subrange(1, i as int).push(elem));
        }
        if elem <= pivot {
            left_vec.push(elem);
        } else {
            right_vec.push(elem);
        }
        i = i + 1;
    }
    let ghost left0 = left_vec@;
    let ghost right0 = right_vec@;
    quick_sort(left_vec.as_mut_slice());
    quick_sort(right_vec.as_mut_slice());
    proof {
        lemma_bound_carries(left0, left_vec@, pivot, false);
        lemma_bound_carries(right0, right_vec@, pivot, true);
        lemma_sorted_concat(left_vec@, pivot, right_vec@);
        assert(left_vec@.len() == left0.len()) by {
            assert(left_vec@.to_multiset().len() == left0.to_multiset().len());
        }
        assert(right_vec@.len() == right0.len()) by {
            assert(right_vec@.to_multiset().len() == right0.to_multiset().len());
        }
    }
    let ghost result = left_vec@ + seq![pivot] + right_vec@;
    let ghost original = array@;
    let nl = left_vec.len();
    let mut index: usize = 0;
    while index < n
        invariant
            n == array@.len() == original.len(),
            result.len() == n,
            result == left_vec@ + seq![pivot] + right_vec@,
            nl == left_vec@.len(),
            index <= n,
            forall|k: int| 0 <= k < index ==> array@[k] == result[k],
        decreases n - index,
    {
        let value = if index < nl {
            left_vec[index]
        } else if index == nl {
            pivot
        } else {
            right_vec[index - nl - 1]
        };
        array[index] = value;
        index = index + 1;
    }
    proof {
        assert(array@ =~= result);
        assert(original =~= seq![pivot] + original.subrange(1, n as int));
        vstd::seq_lib::lemma_multiset_commutative(left_vec@ + seq![pivot], right_vec@);
        vstd::seq_lib::lemma_multiset_commutative(left_vec@, seq![pivot]);
        vstd::seq_lib::lemma_multiset_commutative(seq![pivot], original.subrange(1, n as int));
        assert(original.to_multiset() =~= seq![pivot].to_multiset().add(original.subrange(1, n as int).to_multiset()));
    }
}


/// A copy of `array[start..end]`.
fn copy_range(array: &[i32], start: usize, end: usize) -> (r: Vec<i32>)
    requires
        start <= end <= array@.len(),
    ensures
        r@ == array@.subrange(start as int, end as int),
{
    let mut out: Vec<i32> = Vec::new();
    let mut i: usize = start;
    while i < end
        invariant
            start <= i <= end <= array@.len(),
            out@ == array@.subrange(start as int, i as int),
        decreases end - i,
    {
        out.push(array[i]);
        proof {
            assert(out@ =~= array@.subrange(start as int, i + 1));
        }
        i = i + 1;
    }
    out
}

/// Sorts `array` by merge sort: sorts each half, then merges them.
pub fn merge_sort(array: &mut [i32])
    ensures
        is_sorted(final(array)@),
        final(array)@.to_multiset() == old(array)@.to_multiset(),
    decreases old(array)@.len(),
{
    let n = array.len();
    if n <= 1 {
        return;
    }
    let ghost original = array@;
    if n == 2 {
        if array[0] > array[1] {
            let t = array[0];
            array[0] = array[1];
            array[1] = t;
            proof {
                assert(original =~= seq![original[0]] + seq![original[1]]);
                assert(array@ =~= seq![original[1]] + seq![original[0]]);
                vstd::seq_lib::lemma_multiset_commutative(seq![original[0]], seq![original[1]]);
                vstd::seq_lib::lemma_multiset_commutative(seq![original[1]], seq![original[0]]);
            }
        }
        return;
    }
    let mid = n / 2;
    let mut left_vec = copy_range(array, 0, mid);
    let mut right_vec = copy_range(array, mid, n);
    proof {
        assert(original =~= left_vec@ + right_vec@);
        vstd::seq_lib::lemma_multiset_commutative(left_vec@, right_vec@);
    }
    let ghost left0 = left_vec@;
    let ghost right0 = right_vec@;
    merge_sort(left_vec.as_mut_slice());
    merge_sort(right_vec.as_mut_slice());
    let ghost left = left_vec@;
    let ghost right = right_vec@;
    proof {
        assert(left.len() == left0.len()) by {
            assert(left.to_multiset().len() == left0.to_multiset().len());
        }
        assert(right.len() == right0.len()) by {
            assert(right.to_multiset().len() == right0.to_multiset().len());
        }
    }
    let nl = left_vec.len();
    let nr = right_vec.len();
    let mut li: usize = 0;
    let mut ri: usize = 0;
    let mut k: usize = 0;
    while k < n
        invariant
            n == array@.len() == nl + nr,
            left == left_vec@,
            right == right_vec@,
            nl == left.len(),
            nr == right.len(),
            is_sorted(left),
            is_sorted(right),
            k == li + ri,
            li <= nl,
            ri <= nr,
            is_sorted(array@.subrange(0, k as int)),
            array@.subrange(0, k as int).to_multiset() == left.subrange(0, li as int).to_multiset().add(
                right.subrange(0, ri as int).to_multiset(),
            ),
            forall|p: int, q: int| 0 <= p < k && li <= q < nl ==> array@[p] <= left[q],
            forall|p: int, q: int| 0 <= p < k && ri <= q < nr ==> array@[p] <= right[q],
        decreases n - k,
    {
        let ghost before = array@.subrange(0, k as int);
        let take_left = ri >= nr || (li < nl && left_vec[li] <= right_vec[ri]);
        if take_left {
            let v = left_vec[li];
            array[k] = v;
            proof {
                assert(left.subrange(0, li + 1) =~= left.subrange(0, li as int).push(v));
                vstd::seq_lib::lemma_multiset_commutative(left.subrange(0, li as int), seq![v]);
                assert(left.subrange(0, li as int).push(v) =~= left.subrange(0, li as int) + seq![v]);
                assert(before.push(v) =~= before + seq![v]);
                vstd::seq_lib::lemma_multiset_commutative(before, seq![v]);
            }
            li = li + 1;
        } else {
            let v = right_vec[ri];
            array[k] = v;
            proof {
                assert(right.subrange(0, ri + 1) =~= right.subrange(0, ri as int).push(v));
                vstd::seq_lib::lemma_multiset_commutative(right.subrange(0, ri as int), seq![v]);
                assert(right.subrange(0, ri as int).push(v) =~= right.subrange(0, ri as int) + seq![v]);
                assert(before.push(v) =~= before + seq![v]);
                vstd::seq_lib::lemma_multiset_commutative(before, seq![v]);
            }
            ri = ri + 1;
        }
        proof {
            assert(array@.subrange(0, k + 1) =~= before.push(array@[k as int]));
        }
        k = k + 1;
    }
    proof {
        assert(array@.subrange(0, n as int) =~= array@);
        assert(left.subrange(0, nl as int) =~= left);
        assert(right.subrange(0, nr as int) =~= right);
    }
}


/// Reordering the three middle parts `b + c + d` as `b + d + c` keeps the
/// elements.
proof fn lemma_rotate_keeps_elements(a: Seq<i32>, b: Seq<i32>, c: Seq<i32>, d: Seq<i32>, e: Seq<i32>)
    ensures
        (a + b + c + d + e).to_multiset() == (a + b + d + c + e).to_multiset(),
{
    vstd::seq_lib::lemma_multiset_commutative(a + b + c + d, e);
    vstd::seq_lib::lemma_multiset_commutative(a + b + d + c, e);
    vstd::seq_lib::lemma_multiset_commutative(a + b + c, d);
    vstd::seq_lib::lemma_multiset_commutative(a + b + d, c);
    vstd::seq_lib::lemma_multiset_commutative(a + b, c);
    vstd::seq_lib::lemma_multiset_commutative(a + b, d);
    assert((a + b + c + d + e).to_multiset() =~= (a + b + d + c + e).to_multiset());
}

/// Sorts `array` by insertion: each element in turn is moved back past the
/// larger elements before it; equal elements keep their order.
pub fn insertion_sort(array: &mut [i32])
    ensures
        is_sorted(final(array)@),
        final(array)@.to_multiset() == old(array)@.to_multiset(),
{
    let n = array.len();
    let mut i: usize = 0;
    while i < n
        invariant
            n == array@.len() == old(array)@.len(),
            i <= n,
            is_sorted(array@.subrange(0, i as int)),
            array@.to_multiset() == old(array)@.to_multiset(),
        decreases n - i,
    {
        let ghost pre = array@;
        let current = array[i];
        let mut j: usize = i;
        while j > 0 && array[j - 1] > current
            invariant
                n == array@.len() == pre.len(),
                j <= i < n,
                current == pre[i as int],
                forall|k: int| 0 <= k < j ==> array@[k] == pre[k],
                forall|k: int| j < k <= i ==> array@[k] == pre[k - 1],
                forall|k: int| i < k < n ==> array@[k] == pre[k],
                forall|k: int| j <= k < i ==> pre[k] > current,
            decreases j,
        {
            array[j] = array[j - 1];
            j = j - 1;
        }
        array[j] = current;
        proof {
            let a = pre.subrange(0, j as int);
            let c = pre.subrange(j as int, i as int);
            let d = seq![current];
            let e = pre.subrange(i + 1, n as int);
            assert(pre =~= a + Seq::<i32>::empty() + c + d + e);
            assert(array@ =~= a + Seq::<i32>::empty() + d + c + e);
            lemma_rotate_keeps_elements(a, Seq::<i32>::empty(), c, d, e);
            let sorted_before = pre.subrange(0, i as int);
            assert forall|p: int, q: int| 0 <= p <= q < i + 1 implies array@[p] <= array@[q] by {
                assert(sorted_before[p] == pre[p] || p >= i);
                if q < j {
                    assert(sorted_before[p] <= sorted_before[q]);
                } else if q == j {
                    if p < j {
                        assert(sorted_before[p] <= sorted_before[j - 1]);
                    }
                } else {
                    if p < j {
                        assert(sorted_before[p] <= sorted_before[q - 1]);
                    } else if p > j {
                        assert(sorted_before[p - 1] <= sorted_before[q - 1]);
                    }
                }
            }
            assert(is_sorted(array@.subrange(0, i + 1)));
        }
        i = i + 1;
    }
    proof {
        assert(array@.subrange(0, n as int) =~= array@);
    }
}

/// Sorts `array` by selection: each position in turn receives the least of
/// the elements from there on.
pub fn selection_sort(array: &mut [i32])
    ensures
        is_sorted(final(array)@),
        final(array)@.to_multiset() == old(array)@.to_multiset(),
{
    let n = array.len();
    if n <= 1 {
        return;
    }
    let mut i: usize = 0;
    while i < n
        invariant
            n == array@.len() == old(array)@.len(),
            i <= n,
            is_sorted(array@.subrange(0, i as int)),
            forall|p: int, q: int| 0 <= p < i <= q < n ==> array@[p] <= array@[q],
            array@.to_multiset() == old(array)@.to_multiset(),
        decreases n - i,
    {
        let mut min_value = array[i];
        let mut min_index = i;
        let mut j = i + 1;
        while j < n
            invariant
                n == array@.len(),
                i < j <= n,
                i <= min_index < n,
                min_value == array@[min_index as int],
                forall|k: int| i <= k < j ==> min_value <= array@[k],
            decreases n - j,
        {
            if array[j] < min_value {
                min_value = array[j];
                min_index = j;
            }
            j = j + 1;
        }
        let ghost before_swap = array@;
        if i != min_index {
            let ghost pre = array@;
            let t = array[i];
            array[i] = array[min_index];
            array[min_index] = t;
            proof {
                assert(array@ =~= pre.update(i as int, pre[min_index as int]).update(min_index as int, pre[i as int]));
                crate::probabilities::lemma_swap_keeps_elements(pre, i as int, min_index as int);
            }
        }
        proof {
            let s1 = array@.subrange(0, i + 1);
            let s0 = before_swap.subrange(0, i as int);
            assert(array@.subrange(0, i as int) =~= s0);
            assert forall|p: int, q: int| 0 <= p <= q < i + 1 implies #[trigger] s1[p] <= #[trigger] s1[q] by {
                if q < i {
                    assert(s0[p] <= s0[q]);
                }
            }
            assert(is_sorted(s1));
        }
        i = i + 1;
    }
    proof {
        assert(array@.subrange(0, n as int) =~= array@);
    }
}


/// Node `j` of the heap `s[..end]` is no smaller than its children there.
pub open spec fn node_ok(s: Seq<i32>, j: int, end: int) -> bool {
    &&& 2 * j + 1 < end ==> s[j] >= s[2 * j + 1]
    &&& 2 * j + 2 < end ==> s[j] >= s[2 * j + 2]
}

/// Every node of `s[..end]` from `start` on is no smaller than its children.
pub open spec fn heap_from(s: Seq<i32>, start: int, end: int) -> bool {
    forall|j: int| start <= j < end ==> #[trigger] node_ok(s, j, end)
}

/// The root of a heap is its largest element.
proof fn lemma_heap_root_max(s: Seq<i32>, end: int, k: int)
    requires
        heap_from(s, 0, end),
        0 <= k < end,
    ensures
        s[0] >= s[k],
    decreases k,
{
    if k > 0 {
        let p = (k - 1) / 2;
        assert(node_ok(s, p, end));
        lemma_heap_root_max(s, end, p);
    }
}

/// `v` is among `s[lo..hi]`.
pub open spec fn in_range_of(s: Seq<i32>, lo: int, hi: int, v: i32) -> bool {
    exists|m: int| lo <= m < hi && #[trigger] s[m] == v
}

/// Each element of `a[lo..hi]` is among `b[lo..hi]`.
pub open spec fn drawn_from(a: Seq<i32>, b: Seq<i32>, lo: int, hi: int) -> bool {
    forall|k: int| lo <= k < hi ==> #[trigger] in_range_of(b, lo, hi, a[k])
}

/// Moves `array[root]` down the heap `array[..end]` until it is no smaller
/// than its children, given that every node after `root` already is.
fn sift_down(array: &mut [i32], root: usize, end: usize)
    requires
        root < end <= old(array)@.len(),
        end <= usize::MAX / 2,
        heap_from(old(array)@, root + 1, end as int),
    ensures
        final(array)@.len() == old(array)@.len(),
        heap_from(final(array)@, root as int, end as int),
        final(array)@.to_multiset() == old(array)@.to_multiset(),
        forall|k: int| 0 <= k < old(array)@.len() && !(root <= k < end) ==> final(array)@[k] == old(array)@[k],
        drawn_from(final(array)@, old(array)@, root as int, end as int),
{
    let ghost original = array@;
    proof {
        assert forall|k: int| root <= k < end implies #[trigger] in_range_of(original, root as int, end as int, array@[k]) by {
            assert(original[k] == array@[k]);
        }
    }
    let mut i: usize = root;
    loop
        invariant
            original == old(array)@,
            root <= i < end <= array@.len() == original.len(),
            end <= usize::MAX / 2,
            forall|j: int| root <= j < end && j != i ==> #[trigger] node_ok(array@, j, end as int),
            i > root ==> {
                let p = (i - 1) / 2;
                &&& root <= p
                &&& (2 * i + 1 < end ==> array@[p] >= array@[2 * i + 1])
                &&& (2 * i + 2 < end ==> array@[p] >= array@[2 * i + 2])
            },
            array@.to_multiset() == original.to_multiset(),
            forall|k: int| 0 <= k < original.len() && !(root <= k < end) ==> array@[k] == original[k],
            drawn_from(array@, original, root as int, end as int),
        decreases end - i,
    {
        let left = 2 * i + 1;
        if left >= end {
            proof {
                assert(node_ok(array@, i as int, end as int));
            }
            return;
        }
        let right = left + 1;
        let child = if right < end && array[right] > array[left] {
            right
        } else {
            left
        };
        if array[i] >= array[child] {
            proof {
                assert(node_ok(array@, i as int, end as int));
            }
            return;
        }
        let ghost before = array@;
        let t = array[i];
        array[i] = array[child];
        array[child] = t;
        proof {
            assert(array@ =~= before.update(i as int, before[child as int]).update(child as int, before[i as int]));
            crate::probabilities::lemma_swap_keeps_elements(before, i as int, child as int);
            assert(node_ok(array@, i as int, end as int));
            assert forall|j: int| root <= j < end && j != child implies #[trigger] node_ok(array@, j, end as int) by {
                if j != i {
                    assert(node_ok(before, j, end as int));
                    if i > root && j == (i - 1) / 2 {
                        assert(2 * j + 1 == i || 2 * j + 2 == i);
                    }
                }
            }
            assert forall|k: int| root <= k < end implies #[trigger] in_range_of(original, root as int, end as int, array@[k]) by {
                assert(in_range_of(original, root as int, end as int, before[k]));
                assert(in_range_of(original, root as int, end as int, before[i as int]));
                assert(in_range_of(original, root as int, end as int, before[child as int]));
                if k == i {
                    assert(array@[k] == before[child as int]);
                } else if k == child {
                    assert(array@[k] == before[i as int]);
                } else {
                    assert(array@[k] == before[k]);
                }
            }
            assert(node_ok(before, child as int, end as int));
        }
        i = child;
    }
}

/// Sorts `array` by heap sort: makes it a heap whose root is its largest
/// element, then moves the root behind the heap again and again.
pub fn heap_sort(array: &mut [i32])
    requires
        old(array)@.len() <= usize::MAX / 2,
    ensures
        is_sorted(final(array)@),
        final(array)@.to_multiset() == old(array)@.to_multiset(),
{
    let n = array.len();
    if n <= 1 {
        return;
    }
    let ghost original = array@;
    let mut start: usize = n / 2;
    while start > 0
        invariant
            start <= n / 2,
            n == array@.len() == original.len(),
            n <= usize::MAX / 2,
            heap_from(array@, start as int, n as int),
            array@.to_multiset() == original.to_multiset(),
        decreases start,
    {
        start = start - 1;
        sift_down(array, start, n);
    }
    let mut end: usize = n;
    while end > 1
        invariant
            1 <= end <= n == array@.len() == original.len(),
            n <= usize::MAX / 2,
            heap_from(array@, 0, end as int),
            is_sorted(array@.subrange(end as int, n as int)),
            forall|p: int, q: int| 0 <= p < end <= q < n ==> array@[p] <= array@[q],
            array@.to_multiset() == original.to_multiset(),
        decreases end,
    {
        end = end - 1;
        let ghost before = array@;
        proof {
            lemma_heap_root_max(before, (end + 1) as int, end as int);
        }
        let t = array[0];
        array[0] = array[end];
        array[end] = t;
        proof {
            assert(array@ =~= before.update(0, before[end as int]).update(end as int, before[0]));
            crate::probabilities::lemma_swap_keeps_elements(before, 0, end as int);
            assert forall|j: int| 1 <= j < end implies #[trigger] node_ok(array@, j, end as int) by {
                assert(node_ok(before, j, end + 1));
            }
        }
        let ghost swapped = array@;
        sift_down(array, 0, end);
        proof {
            assert forall|p: int, q: int| 0 <= p < end && end <= q < n implies array@[p] <= array@[q] by {
                assert(in_range_of(swapped, 0, end as int, array@[p]));
                let m = choose|m: int| 0 <= m < end && #[trigger] swapped[m] == array@[p];
                if m == 0 {
                    assert(swapped[0] == before[end as int]);
                } else {
                    assert(swapped[m] == before[m]);
                    lemma_heap_root_max(before, (end + 1) as int, m);
                }
                assert(array@[end as int] == before[0]);
            }
            let tail = array@.subrange(end as int, n as int);
            let old_tail = before.subrange(end + 1, n as int);
            assert forall|p: int, q: int| 0 <= p <= q < tail.len() implies #[trigger] tail[p] <= #[trigger] tail[q] by {
                if p > 0 {
                    assert(tail[p] == old_tail[p - 1]);
                    assert(tail[q] == old_tail[q - 1]);
                } else {
                    assert(tail[0] == before[0]);
                    if q > 0 {
                        assert(tail[q] == before[end + q]);
                        assert(before[end as int] <= before[end + q]);
                        lemma_heap_root_max(before, (end + 1) as int, 0);
                    }
                }
            }
        }
    }
    proof {
        assert forall|p: int, q: int| 0 <= p <= q < n implies array@[p] <= array@[q] by {
            if p == 0 && q > 0 {
                assert(array@[0] <= array@[q]);
            } else if p > 0 {
                assert(array@.subrange(1, n as int)[p - 1] <= array@.subrange(1, n as int)[q - 1]);
            }
        }
    }
}

} // verus!
