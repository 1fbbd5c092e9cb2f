//! Helpers around in-place sorting of integer vectors: test inputs, a
//! sortedness check, a checksum, and the median-of-three step.
use vstd::prelude::*;
use vstd::arithmetic::div_mod::{lemma_add_mod_noop_right, lemma_fundamental_div_mod_converse};

verus! {

broadcast use vstd::seq_lib::group_to_multiset_ensures;

/// The number of `u128` values.
pub open spec fn u128_range() -> int {
    u128::MAX as int + 1
}

/// The sum of a sequence of integers.
pub open spec fn seq_sum(s: Seq<i32>) -> int
    decreases s.len(),
{
    if s.len() == 0 {
        0
    } else {
        seq_sum(s.drop_last()) + s.last() as int
    }
}

/// Every element is at most the next one.
pub open spec fn sorted(s: Seq<i32>) -> bool {
    forall|i: int| 1 <= i < s.len() ==> #[trigger] s[i - 1] <= s[i]
}

/// The sum of the elements, taken modulo 2^128: a checksum that sorting
/// must not change.
pub fn sum(vec: &Vec<i32>) -> (r: u128)
    ensures
        r as int == seq_sum(vec@) % u128_range(),
{
    let mut total: u128 = 0;
    let mut i: usize = 0;
    while i < vec.len()
        invariant
            i <= vec@.len(),
            total as int == seq_sum(vec@.subrange(0, i as int)) % u128_range(),
        decreases vec@.len() - i,
    {
        let x = vec[i];
        let ghost before = seq_sum(vec@.subrange(0, i as int));
        let next = total.wrapping_add_signed(x as i128);
        proof {
            assert(vec@.subrange(0, i + 1).drop_last() =~= vec@.subrange(0, i as int));
            let m = u128_range();
            let v = total as int + x as int;
            if v > u128::MAX {
                lemma_fundamental_div_mod_converse(v, m, 1, v - m);
            } else if v < 0 {
                lemma_fundamental_div_mod_converse(v, m, -1, v + m);
            } else {
                lemma_fundamental_div_mod_converse(v, m, 0, v);
            }
            lemma_add_mod_noop_right(x as int, before, m);
        }
        total = next;
        i = i + 1;
    }
    assert(vec@.subrange(0, vec@.len() as int) =~= vec@);
    total
}

/// Whether every element is at most the next one.
pub fn check_if_sorted(vec: &Vec<i32>) -> (r: bool)
    ensures
        r == sorted(vec@),
{
    let mut i: usize = 1;
    while i < vec.len()
        invariant
            1 <= i,
            forall|k: int| 1 <= k < i && k < vec@.len() ==> #[trigger] vec@[k - 1] <= vec@[k],
        decreases vec@.len() - i,
    {
        if vec[i - 1] > vec[i] {
            return false;
        }
        i = i + 1;
    }
    true
}

/// `0, 1, 2, ..., len - 1`.
pub fn get_sorted_vec(len: usize) -> (r: Vec<i32>)
    requires
        len <= i32::MAX as int + 1,
    ensures
        r@.len() == len,
        forall|i: int| 0 <= i < len ==> #[trigger] r@[i] == i,
{
    let mut vec: Vec<i32> = Vec::new();
    let mut i: usize = 0;
    while i < len
        invariant
            i <= len <= i32::MAX as int + 1,
            vec@.len() == i,
            forall|k: int| 0 <= k < i ==> #[trigger] vec@[k] == k,
        decreases len - i,
    {
        vec.push(i as i32);
        i = i + 1;
    }
    vec
}

/// `len` values in which every even position holds 5 and every odd
/// position its own index.
pub fn get_many_same_vec(len: usize) -> (r: Vec<i32>)
    requires
        len <= i32::MAX,
    ensures
        r@.len() == len,
        forall|i: int| 0 <= i < len ==> #[trigger] r@[i] == if i % 2 == 0 { 5 } else { i },
{
    let mut vec: Vec<i32> = Vec::new();
    let mut same = true;
    let mut i: i32 = 0;
    while i < len as i32
        invariant
            0 <= i <= len <= i32::MAX,
            vec@.len() == i,
            same == (i % 2 == 0),
            forall|k: int| 0 <= k < i ==> #[trigger] vec@[k] == if k % 2 == 0 { 5 } else { k },
        decreases len - i,
    {
        if same {
            vec.push(5);
            same = false;
        } else {
            vec.push(i);
            same = true;
        }
        i = i + 1;
    }
    vec
}

/// Exchanges two elements.
fn swap(arr: &mut Vec<i32>, i: usize, j: usize)
    requires
        i < old(arr)@.len(),
        j < old(arr)@.len(),
    ensures
        final(arr)@ == old(arr)@.update(i as int, old(arr)@[j as int]).update(
            j as int,
            old(arr)@[i as int],
        ),
        final(arr)@.to_multiset() == old(arr)@.to_multiset(),
{
    let a = arr[i];
    let b = arr[j];
    arr.set(i, b);
    arr.set(j, a);
    proof {
        let s = old(arr)@;
        let s1 = s.update(i as int, b);
        vstd::seq_lib::to_multiset_update(s, i as int, b);
        vstd::seq_lib::to_multiset_update(s1, j as int, a);
        assert(s1.update(j as int, a).to_multiset() =~= s.to_multiset());
    }
}

/// Orders the first, middle and last element of `arr[left..=right]` among
/// themselves and returns the middle position.
pub fn median3sort(arr: &mut Vec<i32>, left: usize, right: usize) -> (r: usize)
    requires
        left <= right < old(arr)@.len(),
    ensures
        r == (left + right) / 2,
        final(arr)@.len() == old(arr)@.len(),
        final(arr)@.to_multiset() == old(arr)@.to_multiset(),
        final(arr)@[left as int] <= final(arr)@[r as int] <= final(arr)@[right as int],
        forall|k: int|
            0 <= k < old(arr)@.len() && k != left && k != r && k != right ==> #[trigger] final(arr)@[k]
                == old(arr)@[k],
{
    let mid = left + (right - left) / 2;
    if arr[left] > arr[mid] {
        swap(arr, left, mid);
    }
    if arr[mid] > arr[right] {
        swap(arr, mid, right);
        if arr[left] > arr[mid] {
            swap(arr, left, mid);
        }
    }
    mid
}

/// `after` rearranges the elements of `before` at positions `left..=right`
/// and keeps every other position.
pub open spec fn perm_within(after: Seq<i32>, before: Seq<i32>, left: int, right: int) -> bool {
    &&& after.len() == before.len()
    &&& after.to_multiset() == before.to_multiset()
    &&& forall|k: int|
        0 <= k < before.len() && (k < left || k > right) ==> #[trigger] after[k] == before[k]
}

/// The positions `left..=right` are in ascending order.
pub open spec fn sorted_between(s: Seq<i32>, left: int, right: int) -> bool {
    forall|i: int, j: int| left <= i <= j <= right ==> #[trigger] s[i] <= #[trigger] s[j]
}

proof fn lemma_perm_trans(a: Seq<i32>, b: Seq<i32>, c: Seq<i32>, l1: int, r1: int, l: int, r: int)
    requires
        perm_within(b, a, l, r),
        perm_within(c, b, l1, r1),
        l <= l1,
        r1 <= r,
    ensures
        perm_within(c, a, l, r),
{
}

/// A rearrangement within `left..=right` rearranges that range.
proof fn lemma_range_perm(after: Seq<i32>, before: Seq<i32>, left: int, right: int)
    requires
        perm_within(after, before, left, right),
        0 <= left <= right + 1 <= before.len(),
    ensures
        after.subrange(left, right + 1).to_multiset() == before.subrange(left, right + 1).to_multiset(),
{
    broadcast use vstd::multiset::group_multiset_axioms;

    let n = before.len() as int;
    let (pa, xa, sa) = (after.subrange(0, left), after.subrange(left, right + 1), after.subrange(right + 1, n));
    let (pb, xb, sb) = (before.subrange(0, left), before.subrange(left, right + 1), before.subrange(right + 1, n));
    assert(pa =~= pb);
    assert(sa =~= sb);
    assert(after =~= pa + xa + sa);
    assert(before =~= pb + xb + sb);
    vstd::seq_lib::lemma_multiset_commutative(pa + xa, sa);
    vstd::seq_lib::lemma_multiset_commutative(pa, xa);
    vstd::seq_lib::lemma_multiset_commutative(pb + xb, sb);
    vstd::seq_lib::lemma_multiset_commutative(pb, xb);
    assert forall|v: i32| xa.to_multiset().count(v) == xb.to_multiset().count(v) by {
        assert(after.to_multiset().count(v) == before.to_multiset().count(v));
    }
    assert(xa.to_multiset() =~= xb.to_multiset());
}

/// Rearranging a range keeps a bound that all its elements satisfied.
proof fn lemma_bound_kept(after: Seq<i32>, before: Seq<i32>, left: int, right: int, p: i32, below: bool)
    requires
        perm_within(after, before, left, right),
        0 <= left <= right + 1 <= before.len(),
        forall|k: int| left <= k <= right ==> if below { #[trigger] before[k] <= p } else { before[k] >= p },
    ensures
        forall|k: int| left <= k <= right ==> if below { #[trigger] after[k] <= p } else { after[k] >= p },
{
    lemma_range_perm(after, before, left, right);
    let xa = after.subrange(left, right + 1);
    let xb = before.subrange(left, right + 1);
    assert forall|k: int| left <= k <= right implies if below { #[trigger] after[k] <= p } else { after[k] >= p } by {
        let v = after[k];
        assert(xa[k - left] == v);
        assert(xa.contains(v));
        vstd::seq_lib::to_multiset_contains(xa, v);
        vstd::seq_lib::to_multiset_contains(xb, v);
        let j = choose|j: int| 0 <= j < xb.len() && xb[j] == v;
        assert(before[left + j] == v);
    }
}

/// Partitions `arr[left..=right]` around the median of its first, middle and
/// last element: returns the pivot's final position, with no larger element
/// before it and no smaller one after it.
pub fn split(arr: &mut Vec<i32>, left: usize, right: usize) -> (r: usize)
    requires
        left + 2 < right < old(arr)@.len(),
    ensures
        left < r < right,
        perm_within(final(arr)@, old(arr)@, left as int, right as int),
        forall|k: int| left <= k < r ==> #[trigger] final(arr)@[k] <= final(arr)@[r as int],
        forall|k: int| r < k <= right ==> #[trigger] final(arr)@[k] >= final(arr)@[r as int],
{
    let ghost a0 = arr@;
    let mut left_index = left;
    let mut right_index = right - 1;
    let mid = median3sort(arr, left, right);
    let pivot = arr[mid];
    swap(arr, mid, right - 1);
    loop
        invariant_except_break
            left_index < right_index,
            forall|k: int| left <= k <= left_index ==> #[trigger] arr@[k] <= pivot,
            forall|k: int| right_index <= k <= right ==> #[trigger] arr@[k] >= pivot,
        invariant
            left <= left_index <= right - 1,
            right_index <= right - 1,
            right < arr@.len(),
            perm_within(arr@, a0, left as int, right as int),
            arr@[right - 1] == pivot,
            forall|k: int| right_index < k <= right ==> #[trigger] arr@[k] >= pivot,
        ensures
            left < left_index <= right - 1,
            right_index <= left_index,
            perm_within(arr@, a0, left as int, right as int),
            arr@[right - 1] == pivot,
            arr@[left_index as int] >= pivot,
            forall|k: int| left <= k < left_index ==> #[trigger] arr@[k] <= pivot,
            forall|k: int| right_index < k <= right ==> #[trigger] arr@[k] >= pivot,
        decreases right_index - left_index,
    {
        let ghost li0 = left_index;
        let ghost ri0 = right_index;
        loop
            invariant_except_break
                left_index < ri0,
                forall|k: int| li0 < k <= left_index ==> #[trigger] arr@[k] < pivot,
            invariant
                li0 <= left_index <= ri0,
                ri0 <= right - 1,
                right < arr@.len(),
                forall|k: int| ri0 <= k <= right ==> #[trigger] arr@[k] >= pivot,
            ensures
                li0 < left_index <= ri0,
                arr@[left_index as int] >= pivot,
                forall|k: int| li0 < k < left_index ==> #[trigger] arr@[k] < pivot,
            decreases ri0 - left_index,
        {
            left_index = left_index + 1;
            if arr[left_index] >= pivot {
                break;
            }
        }
        loop
            invariant_except_break
                left_index <= right_index,
                forall|k: int| right_index <= k < ri0 ==> #[trigger] arr@[k] > pivot,
            invariant
                left_index - 1 <= right_index <= ri0,
                ri0 <= right - 1,
                left < left_index,
                right < arr@.len(),
                forall|k: int| left <= k < left_index ==> #[trigger] arr@[k] <= pivot,
            ensures
                left_index - 1 <= right_index < ri0,
                arr@[right_index as int] <= pivot,
                forall|k: int| right_index < k < ri0 ==> #[trigger] arr@[k] > pivot,
            decreases right_index,
        {
            right_index = right_index - 1;
            if arr[right_index] <= pivot {
                break;
            }
        }
        if left_index >= right_index {
            break;
        }
        swap(arr, left_index, right_index);
    }
    swap(arr, left_index, right - 1);
    left_index
}

/// Sorts `arr[left..=right]` in place.
pub fn single_pivot_quicksort(arr: &mut Vec<i32>, left: usize, right: usize)
    requires
        left <= right < old(arr)@.len(),
    ensures
        perm_within(final(arr)@, old(arr)@, left as int, right as int),
        sorted_between(final(arr)@, left as int, right as int),
    decreases right - left,
{
    if right - left > 2 {
        let ghost a0 = arr@;
        let mid = split(arr, left, right);
        let ghost a1 = arr@;
        let p = arr[mid];
        single_pivot_quicksort(arr, left, mid - 1);
        let ghost a2 = arr@;
        proof {
            lemma_bound_kept(a2, a1, left as int, mid - 1, p, true);
        }
        single_pivot_quicksort(arr, mid + 1, right);
        proof {
            lemma_bound_kept(arr@, a2, mid + 1, right as int, p, false);
            lemma_perm_trans(a0, a1, a2, left as int, mid - 1, left as int, right as int);
            lemma_perm_trans(a0, a2, arr@, mid + 1, right as int, left as int, right as int);
        }
    } else {
        median3sort(arr, left, right);
        proof {
            broadcast use vstd::seq_lib::group_to_multiset_ensures;
        }
    }
}

/// Partitions `arr[left..=right]` around two pivots, taken from a third of
/// the way in from each end. Returns their final positions `(lo, hi)`:
/// elements before `lo` are smaller than `arr[lo]`, those between lie
/// between the pivots, and those after `hi` are at least `arr[hi]`.
pub fn partition(arr: &mut Vec<i32>, left: usize, right: usize) -> (r: (usize, usize))
    requires
        left < right < old(arr)@.len(),
    ensures
        left <= r.0 < r.1 <= right,
        perm_within(final(arr)@, old(arr)@, left as int, right as int),
        final(arr)@[r.0 as int] <= final(arr)@[r.1 as int],
        forall|t: int| left <= t < r.0 ==> #[trigger] final(arr)@[t] < final(arr)@[r.0 as int],
        forall|t: int|
            r.0 < t < r.1 ==> final(arr)@[r.0 as int] <= #[trigger] final(arr)@[t]
                <= final(arr)@[r.1 as int],
        forall|t: int| r.1 < t <= right ==> #[trigger] final(arr)@[t] >= final(arr)@[r.1 as int],
{
    let ghost a0 = arr@;
    swap(arr, left, left + (right - left) / 3);
    swap(arr, right, right - (right - left) / 3);
    if arr[left] > arr[right] {
        swap(arr, left, right);
    }
    let mut j = left + 1;
    let mut k = left + 1;
    let mut g = right - 1;
    let left_pivot = arr[left];
    let right_pivot = arr[right];
    while k <= g
        invariant
            left + 1 <= j <= k <= g + 2,
            k <= g + 2,
            left <= g <= right - 1,
            j <= g + 1,
            right < arr@.len(),
            left_pivot <= right_pivot,
            perm_within(arr@, a0, left as int, right as int),
            arr@[left as int] == left_pivot,
            arr@[right as int] == right_pivot,
            forall|t: int| left + 1 <= t < j ==> #[trigger] arr@[t] < left_pivot,
            forall|t: int|
                j <= t < k && t <= g ==> left_pivot <= #[trigger] arr@[t] <= right_pivot,
            forall|t: int| g < t <= right - 1 ==> #[trigger] arr@[t] >= right_pivot,
            k == g + 2 ==> j <= g + 1,
        decreases g + 2 - k,
    {
        if arr[k] < left_pivot {
            swap(arr, k, j);
            j = j + 1;
        } else if arr[k] >= right_pivot {
            let ghost g0 = g;
            while arr[g] > right_pivot && k < g
                invariant
                    g <= g0,
                    left + 1 <= j <= k <= g <= right - 1,
                    right < arr@.len(),
                    forall|t: int| g < t <= right - 1 ==> #[trigger] arr@[t] >= right_pivot,
                decreases g,
            {
                g = g - 1;
            }
            swap(arr, k, g);
            g = g - 1;
            if arr[k] < left_pivot {
                swap(arr, k, j);
                j = j + 1;
            }
        }
        k = k + 1;
    }
    j = j - 1;
    g = g + 1;
    swap(arr, left, j);
    swap(arr, right, g);
    (j, g)
}

/// Sorts `arr[left..=right]` in place; an empty range (`right < left`) is
/// left alone.
pub fn dual_pivot_quicksort(arr: &mut Vec<i32>, left: isize, right: isize)
    requires
        0 <= left <= right + 1,
        right < old(arr)@.len(),
    ensures
        perm_within(final(arr)@, old(arr)@, left as int, right as int),
        sorted_between(final(arr)@, left as int, right as int),
    decreases right - left + 1,
{
    if left < right {
        let ghost a0 = arr@;
        let (lo, hi) = partition(arr, left as usize, right as usize);
        let ghost a1 = arr@;
        let p = arr[lo];
        let q = arr[hi];
        let lo = lo as isize;
        let hi = hi as isize;
        dual_pivot_quicksort(arr, left, lo - 1);
        let ghost a2 = arr@;
        proof {
            lemma_bound_kept(a2, a1, left as int, lo - 1, p, true);
        }
        dual_pivot_quicksort(arr, lo + 1, hi - 1);
        let ghost a3 = arr@;
        proof {
            lemma_bound_kept(a3, a2, lo + 1, hi - 1, q, true);
            lemma_bound_kept(a3, a2, lo + 1, hi - 1, p, false);
        }
        if hi < right {
            dual_pivot_quicksort(arr, hi + 1, right);
        }
        proof {
            lemma_bound_kept(arr@, a3, hi + 1, right as int, q, false);
            lemma_perm_trans(a0, a1, a2, left as int, lo - 1, left as int, right as int);
            lemma_perm_trans(a0, a2, a3, lo + 1, hi - 1, left as int, right as int);
            lemma_perm_trans(a0, a3, arr@, hi + 1, right as int, left as int, right as int);
        }
    }
}

} // verus!
