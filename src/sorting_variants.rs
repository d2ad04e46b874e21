//! Indirect sorting: the permutation that sorts a slice, and applying a
//! permutation.
use vstd::prelude::*;

use crate::sorting::is_sorted;

verus! {

/// The elements of `array` at the indices in `permutation`, in that order.
pub fn permute_copy_array<T: Copy>(array: &[T], permutation: &[usize]) -> (r: Vec<T>)
    requires
        permutation@.len() >= array@.len(),
        forall|i: int| 0 <= i < array@.len() ==> #[trigger] permutation@[i] < array@.len(),
    ensures
        r@.len() == array@.len(),
        forall|i: int| 0 <= i < array@.len() ==> #[trigger] r@[i] == array@[permutation@[i] as int],
{
    let n = array.len();
    let mut sorted_array: Vec<T> = Vec::new();
    let mut i: usize = 0;
    while i < n
        invariant
            n == array@.len(),
            i <= n,
            permutation@.len() >= n,
            forall|j: int| 0 <= j < n ==> #[trigger] permutation@[j] < n,
            sorted_array@.len() == i,
            forall|j: int| 0 <= j < i ==> #[trigger] sorted_array@[j] == array@[permutation@[j] as int],
        decreases n - i,
    {
        sorted_array.push(array[permutation[i]]);
        i = i + 1;
    }
    sorted_array
}

/// The position in `permutation[from..]` of an index whose element of
/// `array` is least; among equal elements, the first.
fn find_min_indirect(array: &[i32], permutation: &Vec<usize>, from: usize) -> (r: usize)
    requires
        from < permutation@.len(),
        forall|i: int| 0 <= i < permutation@.len() ==> #[trigger] permutation@[i] < array@.len(),
    ensures
        from <= r < permutation@.len(),
        forall|j: int|
            from <= j < permutation@.len() ==> array@[permutation@[r as int] as int] <= array@[#[trigger] permutation@[j] as int],
{
    let n = permutation.len();
    let mut min_index = from;
    let mut i = from + 1;
    while i < n
        invariant
            n == permutation@.len(),
            from <= min_index < i <= n,
            forall|k: int| 0 <= k < permutation@.len() ==> #[trigger] permutation@[k] < array@.len(),
            forall|j: int|
                from <= j < i ==> array@[permutation@[min_index as int] as int] <= array@[#[trigger] permutation@[j] as int],
        decreases n - i,
    {
        if array[permutation[i]] < array[permutation[min_index]] {
            min_index = i;
        }
        i = i + 1;
    }
    min_index
}

/// Whether `p` lists each index below its length exactly once.
pub open spec fn is_permutation_of_indices(p: Seq<usize>) -> bool {
    &&& forall|i: int| 0 <= i < p.len() ==> #[trigger] p[i] < p.len()
    &&& forall|i: int, j: int| 0 <= i < j < p.len() ==> #[trigger] p[i] != #[trigger] p[j]
}

/// The permutation of indices that sorts `array`, found by selection sort
/// on the indices; `array` is left as it is.
pub fn generic_indirect_selection_sort(array: &[i32]) -> (r: Vec<usize>)
    ensures
        r@.len() == array@.len(),
        is_permutation_of_indices(r@),
        forall|i: int, j: int|
            0 <= i <= j < r@.len() ==> array@[#[trigger] r@[i] as int] <= array@[#[trigger] r@[j] as int],
{
    let n = array.len();
    let mut permutation: Vec<usize> = Vec::new();
    let mut k: usize = 0;
    while k < n
        invariant
            k <= n == array@.len(),
            permutation@.len() == k,
            forall|i: int| 0 <= i < k ==> #[trigger] permutation@[i] == i,
        decreases n - k,
    {
        permutation.push(k);
        k = k + 1;
    }
    let mut i: usize = 0;
    while i < n
        invariant
            n == array@.len() == permutation@.len(),
            i <= n,
            is_permutation_of_indices(permutation@),
            forall|a: int, b: int|
                0 <= a <= b < i ==> array@[#[trigger] permutation@[a] as int] <= array@[#[trigger] permutation@[b] as int],
            forall|a: int, b: int|
                0 <= a < i <= b < n ==> array@[#[trigger] permutation@[a] as int] <= array@[#[trigger] permutation@[b] as int],
        decreases n - i,
    {
        let min_index = find_min_indirect(array, &permutation, i);
        let ghost before = permutation@;
        let a = permutation[i];
        let b = permutation[min_index];
        permutation.set(i, b);
        permutation.set(min_index, a);
        proof {
            assert(permutation@ =~= before.update(i as int, b).update(min_index as int, a));
            assert forall|x: int, y: int| 0 <= x < y < n implies #[trigger] permutation@[x]
                != #[trigger] permutation@[y] by {
                let x0 = if x == i { min_index as int } else if x == min_index { i as int } else { x };
                let y0 = if y == i { min_index as int } else if y == min_index { i as int } else { y };
                assert(permutation@[x] == before[x0]);
                assert(permutation@[y] == before[y0]);
                assert(x0 != y0);
            }
            assert forall|x: int, y: int| 0 <= x <= y < i + 1 implies array@[#[trigger] permutation@[x] as int]
                <= array@[#[trigger] permutation@[y] as int] by {
                if y == i {
                    if x < i {
                        assert(array@[before[x] as int] <= array@[before[min_index as int] as int]);
                    }
                }
            }
            assert forall|x: int, y: int| 0 <= x < i + 1 <= y < n implies array@[#[trigger] permutation@[x]
                as int] <= array@[#[trigger] permutation@[y] as int] by {
                let y0 = if y == min_index { i as int } else { y };
                assert(permutation@[y] == before[y0]);
                if x == i {
                    assert(array@[before[min_index as int] as int] <= array@[before[y0] as int]);
                } else {
                    assert(array@[before[x] as int] <= array@[before[y0] as int]);
                }
            }
        }
        i = i + 1;
    }
    permutation
}


broadcast use {vstd::seq_lib::group_to_multiset_ensures, vstd::multiset::group_multiset_axioms};

/// Sorts `array[min_index..=max_index]` by merge sort, merging through the
/// first half of `temp_array`; the rest of `array` is left as it is.
fn merge_sort_range(array: &mut [i32], min_index: usize, max_index: usize, temp_array: &mut [i32])
    requires
        min_index <= max_index < old(array)@.len(),
        old(temp_array)@.len() >= (max_index - min_index) / 2 + 1,
    ensures
        final(array)@.len() == old(array)@.len(),
        final(temp_array)@.len() == old(temp_array)@.len(),
        is_sorted(final(array)@.subrange(min_index as int, max_index + 1)),
        final(array)@.subrange(min_index as int, max_index + 1).to_multiset() == old(array)@.subrange(
            min_index as int,
            max_index + 1,
        ).to_multiset(),
        forall|k: int|
            0 <= k < old(array)@.len() && !(min_index <= k <= max_index) ==> final(array)@[k] == old(
                array,
            )@[k],
    decreases max_index - min_index,
{
    let ghost original = array@;
    let n = max_index - min_index;
    if n == 0 {
        return;
    }
    if n == 1 {
        if array[min_index] > array[max_index] {
            let t = array[min_index];
            array[min_index] = array[max_index];
            array[max_index] = t;
            proof {
                let lo = min_index as int;
                assert(original.subrange(lo, lo + 2) =~= seq![original[lo]] + seq![original[lo + 1]]);
                assert(array@.subrange(lo, lo + 2) =~= seq![original[lo + 1]] + seq![original[lo]]);
                vstd::seq_lib::lemma_multiset_commutative(seq![original[lo]], seq![original[lo + 1]]);
                vstd::seq_lib::lemma_multiset_commutative(seq![original[lo + 1]], seq![original[lo]]);
            }
        }
        return;
    }
    let mid = min_index + (max_index - min_index) / 2;
    let mid_plus_1 = mid + 1;
    merge_sort_range(array, min_index, mid, temp_array);
    let ghost after_left = array@;
    merge_sort_range(array, mid_plus_1, max_index, temp_array);
    let ghost sorted_halves = array@;
    let ghost left = sorted_halves.subrange(min_index as int, mid + 1);
    let ghost right = sorted_halves.subrange(mid + 1, max_index + 1);
    proof {
        assert(sorted_halves.subrange(min_index as int, mid + 1) == after_left.subrange(min_index as int, mid + 1));
        assert(left.to_multiset() == original.subrange(min_index as int, mid + 1).to_multiset()) by {
            assert(sorted_halves.subrange(min_index as int, mid + 1) =~= after_left.subrange(min_index as int, mid + 1));
        }
        assert(original.subrange(min_index as int, max_index + 1) =~= original.subrange(min_index as int, mid + 1)
            + original.subrange(mid + 1, max_index + 1));
        assert(after_left.subrange(mid + 1, max_index + 1) =~= original.subrange(mid + 1, max_index + 1));
        vstd::seq_lib::lemma_multiset_commutative(
            original.subrange(min_index as int, mid + 1),
            original.subrange(mid + 1, max_index + 1),
        );
    }
    let left_len = mid - min_index + 1;
    let mut c: usize = 0;
    while c < left_len
        invariant
            c <= left_len == mid - min_index + 1,
            temp_array@.len() >= left_len,
            temp_array@.len() == old(temp_array)@.len(),
            array@ == sorted_halves,
            forall|k: int| 0 <= k < c ==> temp_array@[k] == left[k],
            left == sorted_halves.subrange(min_index as int, mid + 1),
            min_index <= mid < max_index < array@.len(),
        decreases left_len - c,
    {
        temp_array[c] = array[min_index + c];
        c = c + 1;
    }
    let ghost tl = temp_array@.subrange(0, left_len as int);
    proof {
        assert(tl =~= left);
    }
    let mut merge_index_left: usize = 0;
    let mut merge_index_right: usize = mid_plus_1;
    let mut out: usize = min_index;
    while out <= max_index
        invariant
            min_index <= mid < max_index < array@.len() == original.len(),
            mid_plus_1 == mid + 1,
            left_len == mid - min_index + 1,
            temp_array@.len() >= left_len,
            temp_array@.len() == old(temp_array)@.len(),
            right.len() == max_index - mid,
            sorted_halves.len() == original.len(),
            temp_array@.subrange(0, left_len as int) == left,
            is_sorted(left),
            is_sorted(right),
            left.len() == left_len,
            right == sorted_halves.subrange(mid + 1, max_index + 1),
            merge_index_left <= left_len,
            mid + 1 <= merge_index_right <= max_index + 1,
            out == min_index + merge_index_left + (merge_index_right - mid - 1),
            out <= max_index + 1,
            forall|k: int| merge_index_right <= k <= max_index ==> array@[k] == sorted_halves[k],
            forall|k: int| 0 <= k < array@.len() && !(min_index <= k <= max_index) ==> array@[k] == original[k],
            is_sorted(array@.subrange(min_index as int, out as int)),
            array@.subrange(min_index as int, out as int).to_multiset() == left.subrange(
                0,
                merge_index_left as int,
            ).to_multiset().add(right.subrange(0, merge_index_right - mid - 1).to_multiset()),
            forall|p: int, q: int|
                min_index <= p < out && merge_index_left <= q < left_len ==> array@[p] <= left[q],
            forall|p: int, q: int|
                min_index <= p < out && merge_index_right - mid - 1 <= q < right.len() ==> array@[p]
                    <= right[q],
        decreases max_index + 1 - out,
    {
        let ghost before = array@.subrange(min_index as int, out as int);
        let ghost ri: int = merge_index_right - mid - 1;
        let ghost li: int = merge_index_left as int;
        let left_not_exhausted = merge_index_left < left_len;
        let right_not_exhausted = merge_index_right <= max_index;
        proof {
            if left_not_exhausted {
                assert(temp_array@[li] == temp_array@.subrange(0, left_len as int)[li]);
            }
            if right_not_exhausted {
                assert(0 <= ri < right.len());
                assert(right[ri] == sorted_halves[merge_index_right as int]);
                assert(array@[merge_index_right as int] == sorted_halves[merge_index_right as int]);
            }
        }
        let take_left = left_not_exhausted && (!right_not_exhausted || !(array[merge_index_right]
            < temp_array[merge_index_left]));
        let v = if take_left {
            temp_array[merge_index_left]
        } else {
            array[merge_index_right]
        };
        proof {
            if take_left {
                assert(v == left[li]);
                assert(left.subrange(0, li + 1) =~= left.subrange(0, li) + seq![v]);
                vstd::seq_lib::lemma_multiset_commutative(left.subrange(0, li), seq![v]);
            } else {
                assert(right_not_exhausted);
                assert(v == right[ri]);
                assert(right.subrange(0, ri + 1) =~= right.subrange(0, ri) + seq![v]);
                vstd::seq_lib::lemma_multiset_commutative(right.subrange(0, ri), seq![v]);
            }
            assert forall|q: int| (if take_left { li + 1 } else { li }) <= q < left_len implies v <= #[trigger] left[q] by {
                if !take_left {
                    assert(left[li] <= left[q]);
                }
            }
            assert forall|q: int| (if take_left { ri } else { ri + 1 }) <= q < right.len() implies v <= #[trigger] right[q] by {
                if take_left {
                    assert(right[ri] <= right[q]);
                }
            }
            assert forall|p: int| min_index <= p < out implies array@[p] <= v by {
                if take_left {
                    assert(array@[p] <= left[li]);
                } else {
                    assert(array@[p] <= right[ri]);
                }
            }
        }
        array[out] = v;
        if take_left {
            merge_index_left = merge_index_left + 1;
        } else {
            merge_index_right = merge_index_right + 1;
        }
        proof {
            let now = array@.subrange(min_index as int, out + 1);
            assert(now =~= before + seq![v]);
            vstd::seq_lib::lemma_multiset_commutative(before, seq![v]);
            assert forall|p: int, q: int| 0 <= p <= q < now.len() implies #[trigger] now[p] <= #[trigger] now[q] by {
                if q < now.len() - 1 {
                    assert(before[p] <= before[q]);
                }
            }
        }
        out = out + 1;
    }
    proof {
        assert(left.subrange(0, left_len as int) =~= left);
        assert(right.subrange(0, right.len() as int) =~= right);
        assert(sorted_halves.subrange(min_index as int, max_index + 1) =~= left + right);
        vstd::seq_lib::lemma_multiset_commutative(left, right);
        assert(left.to_multiset().add(right.to_multiset()) == original.subrange(min_index as int, max_index + 1).to_multiset());
    }
}

/// Sorts `array` by merge sort with one buffer of half its length, merging
/// each pair of sorted halves in place.
pub fn optimized_merge_sort(array: &mut [i32])
    ensures
        is_sorted(final(array)@),
        final(array)@.to_multiset() == old(array)@.to_multiset(),
{
    let array_len = array.len();
    if array_len == 0 {
        return;
    }
    let temp_array_len = array_len / 2 + 1;
    let mut temp_array_vec: Vec<i32> = vec![0; temp_array_len];
    let ghost original = array@;
    merge_sort_range(array, 0, array_len - 1, temp_array_vec.as_mut_slice());
    proof {
        assert(array@.subrange(0, array_len as int) =~= array@);
        assert(original.subrange(0, array_len as int) =~= original);
    }
}

} // verus!
