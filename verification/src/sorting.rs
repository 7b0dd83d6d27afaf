use vstd::prelude::*;
use vstd::pervasive::VecAdditionalExecFns;
use rand::seq::SliceRandom;

verus! {

/// The elements of `s` at positions `lo..hi` (exclusive upper bound) are in
/// non-decreasing order.
pub open spec fn sorted_between(s: Seq<i32>, lo: int, hi: int) -> bool {
    forall|i: int, j: int| lo <= i <= j < hi ==> s[i] <= s[j]
}

/// The whole sequence is in non-decreasing order.
pub open spec fn sorted(s: Seq<i32>) -> bool {
    sorted_between(s, 0, s.len() as int)
}

/// Swapping the values at two positions of a sequence leaves its multiset of
/// values unchanged.
proof fn lemma_swap_preserves_multiset(s: Seq<i32>, i: int, j: int)
    requires
        0 <= i < s.len(),
        0 <= j < s.len(),
    ensures
        s.update(i, s[j]).update(j, s[i]).to_multiset() == s.to_multiset(),
{
    broadcast use vstd::seq_lib::group_to_multiset_ensures;
    broadcast use vstd::multiset::group_multiset_axioms;

    let t = s.update(i, s[j]);
    assert(s.contains(s[i]));
    assert(s.to_multiset().count(s[i]) > 0);
    assert(t.to_multiset() == s.to_multiset().insert(s[j]).remove(s[i]));
    assert(t.update(j, s[i]).to_multiset() == t.to_multiset().insert(s[i]).remove(t[j]));
    assert(t.update(j, s[i]).to_multiset() =~= s.to_multiset());
}

/// A range of a sequence is sorted exactly when the subrange it carves out is
/// sorted as a sequence of its own.
proof fn lemma_sorted_subrange(s: Seq<i32>, lo: int, hi: int)
    requires
        0 <= lo <= hi <= s.len(),
    ensures
        sorted(s.subrange(lo, hi)) <==> sorted_between(s, lo, hi),
{
    let sub = s.subrange(lo, hi);
    if sorted(sub) {
        assert forall|i: int, j: int| lo <= i <= j < hi implies s[i] <= s[j] by {
            assert(sub[i - lo] == s[i]);
            assert(sub[j - lo] == s[j]);
        }
    }
    if sorted_between(s, lo, hi) {
        assert forall|i: int, j: int| 0 <= i <= j < sub.len() implies sub[i] <= sub[j] by {
            assert(sub[i] == s[lo + i]);
            assert(sub[j] == s[lo + j]);
        }
    }
}

/// Taking one value out of either buffer and appending it to the written
/// prefix keeps the prefix's multiset equal to the multiset of everything
/// consumed so far.
proof fn lemma_push_add_multiset(a: Seq<i32>, b: Seq<i32>, v: i32)
    ensures
        (a.push(v) + b).to_multiset() == (a + b).to_multiset().insert(v),
        (a + b.push(v)).to_multiset() == (a + b).to_multiset().insert(v),
{
    broadcast use vstd::seq_lib::group_to_multiset_ensures;
    broadcast use vstd::seq_lib::lemma_multiset_commutative;
    broadcast use vstd::multiset::group_multiset_axioms;

    assert(a.push(v).to_multiset() =~= a.to_multiset().insert(v));
    assert((a.push(v) + b).to_multiset() =~= (a + b).to_multiset().insert(v));
    assert(a + b.push(v) =~= (a + b).push(v));
    assert((a + b).push(v).to_multiset() =~= (a + b).to_multiset().insert(v));
}

/// Merge step of `merge_sort`: copies the two adjacent sorted runs
/// `[start, middle]` and `[middle + 1, end]` of `vect` into scratch buffers,
/// then writes them back in one linear pass, taking the left head whenever it
/// is less than or equal to the right head (stable, left-biased on ties).
#[verifier::loop_isolation(false)]
#[verifier::rlimit(100)]
#[verifier::spinoff_prover]
fn merge(vect: &mut Vec<i32>, start: usize, middle: usize, end: usize)
    requires
        start <= middle <= end < old(vect)@.len(),
        sorted_between(old(vect)@, start as int, middle as int + 1),
        sorted_between(old(vect)@, middle as int + 1, end as int + 1),
    ensures
        final(vect)@.len() == old(vect)@.len(),
        sorted_between(final(vect)@, start as int, end as int + 1),
        final(vect)@.subrange(start as int, end as int + 1).to_multiset() == old(
            vect,
        )@.subrange(start as int, end as int + 1).to_multiset(),
        forall|m: int|
            0 <= m < old(vect)@.len() && !(start <= m <= end) ==> final(vect)@[m] == old(
                vect,
            )@[m],
{
    broadcast use vstd::seq_lib::to_multiset_build;

    let n = vect.len();
    assert(end < n);
    let size1: usize = middle - start + 1;
    let size2: usize = end - middle;

    let mut left: Vec<i32> = Vec::new();
    let mut right: Vec<i32> = Vec::new();
    for i in 0..size1
        invariant
            left@ =~= old(vect)@.subrange(start as int, start as int + i as int),
    {
        left.push(vect[start + i]);
    }
    for j in 0..size2
        invariant
            right@ =~= old(vect)@.subrange(middle as int + 1, middle as int + 1 + j as int),
    {
        right.push(vect[middle + 1 + j]);
    }
    proof {
        assert(left@ =~= old(vect)@.subrange(start as int, middle as int + 1));
        assert(right@ =~= old(vect)@.subrange(middle as int + 1, end as int + 1));
        lemma_sorted_subrange(old(vect)@, start as int, middle as int + 1);
        lemma_sorted_subrange(old(vect)@, middle as int + 1, end as int + 1);
        assert(sorted(left@));
        assert(sorted(right@));
    }

    proof {
        assert(vect@.subrange(start as int, start as int) =~= Seq::<i32>::empty());
        assert(left@.subrange(0, 0) + right@.subrange(0, 0) =~= Seq::<i32>::empty());
    }
    let mut i: usize = 0;
    let mut j: usize = 0;
    let mut k: usize = start;
    while i < size1 && j < size2
        invariant
            i <= size1,
            j <= size2,
            k == start + i + j,
            k <= end + 1,
            vect@.len() == old(vect)@.len(),
            forall|m: int|
                0 <= m < vect@.len() && !(start <= m <= end) ==> vect@[m] == old(vect)@[m],
            vect@.subrange(start as int, k as int).to_multiset() == (left@.subrange(0, i as int)
                + right@.subrange(0, j as int)).to_multiset(),
            sorted_between(vect@, start as int, k as int),
            i < size1 && k > start ==> vect@[k as int - 1] <= left@[i as int],
            j < size2 && k > start ==> vect@[k as int - 1] <= right@[j as int],
        decreases size1 - i + size2 - j,
    {
        let ghost prev = vect@;
        if left[i] <= right[j] {
            let v = left[i];
            vect.set(k, v);
            proof {
                assert(vect@.subrange(start as int, k as int) =~= prev.subrange(
                    start as int,
                    k as int,
                ));
                assert(vect@.subrange(start as int, k as int + 1) =~= vect@.subrange(
                    start as int,
                    k as int,
                ).push(v));
                assert(left@.subrange(0, i as int + 1) =~= left@.subrange(0, i as int).push(v));
                lemma_push_add_multiset(
                    left@.subrange(0, i as int),
                    right@.subrange(0, j as int),
                    v,
                );
                assert(vect@.subrange(start as int, k as int + 1).to_multiset() == (left@.subrange(
                    0,
                    i as int + 1,
                ) + right@.subrange(0, j as int)).to_multiset());
            }
            i = i + 1;
        } else {
            let v = right[j];
            vect.set(k, v);
            proof {
                assert(vect@.subrange(start as int, k as int) =~= prev.subrange(
                    start as int,
                    k as int,
                ));
                assert(vect@.subrange(start as int, k as int + 1) =~= vect@.subrange(
                    start as int,
                    k as int,
                ).push(v));
                assert(right@.subrange(0, j as int + 1) =~= right@.subrange(0, j as int).push(v));
                lemma_push_add_multiset(
                    left@.subrange(0, i as int),
                    right@.subrange(0, j as int),
                    v,
                );
                assert(vect@.subrange(start as int, k as int + 1).to_multiset() == (left@.subrange(
                    0,
                    i as int,
                ) + right@.subrange(0, j as int + 1)).to_multiset());
            }
            j = j + 1;
        }
        k = k + 1;
    }
    if i == size1 {
        while k <= end
            invariant
                i == size1,
                j <= size2,
                k == start + i + j,
                k <= end + 1,
                vect@.len() == old(vect)@.len(),
                forall|m: int|
                    0 <= m < vect@.len() && !(start <= m <= end) ==> vect@[m] == old(vect)@[m],
                vect@.subrange(start as int, k as int).to_multiset() == (left@.subrange(
                    0,
                    i as int,
                ) + right@.subrange(0, j as int)).to_multiset(),
                sorted_between(vect@, start as int, k as int),
                j < size2 && k > start ==> vect@[k as int - 1] <= right@[j as int],
            decreases end + 1 - k,
        {
            let ghost prev = vect@;
            let v = right[j];
            vect.set(k, v);
            proof {
                assert(vect@.subrange(start as int, k as int) =~= prev.subrange(
                    start as int,
                    k as int,
                ));
                assert(vect@.subrange(start as int, k as int + 1) =~= vect@.subrange(
                    start as int,
                    k as int,
                ).push(v));
                assert(right@.subrange(0, j as int + 1) =~= right@.subrange(0, j as int).push(v));
                lemma_push_add_multiset(
                    left@.subrange(0, i as int),
                    right@.subrange(0, j as int),
                    v,
                );
                assert(vect@.subrange(start as int, k as int + 1).to_multiset() == (left@.subrange(
                    0,
                    i as int,
                ) + right@.subrange(0, j as int + 1)).to_multiset());
            }
            k = k + 1;
            j = j + 1;
        }
    } else if j == size2 {
        while k <= end
            invariant
                j == size2,
                i <= size1,
                k == start + i + j,
                k <= end + 1,
                vect@.len() == old(vect)@.len(),
                forall|m: int|
                    0 <= m < vect@.len() && !(start <= m <= end) ==> vect@[m] == old(vect)@[m],
                vect@.subrange(start as int, k as int).to_multiset() == (left@.subrange(
                    0,
                    i as int,
                ) + right@.subrange(0, j as int)).to_multiset(),
                sorted_between(vect@, start as int, k as int),
                i < size1 && k > start ==> vect@[k as int - 1] <= left@[i as int],
            decreases end + 1 - k,
        {
            let ghost prev = vect@;
            let v = left[i];
            vect.set(k, v);
            proof {
                assert(vect@.subrange(start as int, k as int) =~= prev.subrange(
                    start as int,
                    k as int,
                ));
                assert(vect@.subrange(start as int, k as int + 1) =~= vect@.subrange(
                    start as int,
                    k as int,
                ).push(v));
                assert(left@.subrange(0, i as int + 1) =~= left@.subrange(0, i as int).push(v));
                lemma_push_add_multiset(
                    left@.subrange(0, i as int),
                    right@.subrange(0, j as int),
                    v,
                );
                assert(vect@.subrange(start as int, k as int + 1).to_multiset() == (left@.subrange(
                    0,
                    i as int + 1,
                ) + right@.subrange(0, j as int)).to_multiset());
            }
            k = k + 1;
            i = i + 1;
        }
    }
    proof {
        assert(k == end + 1);
        assert(i == size1 && j == size2);
        assert(left@.subrange(0, i as int) =~= left@);
        assert(right@.subrange(0, j as int) =~= right@);
        assert(vect@.subrange(start as int, end as int + 1).to_multiset() == (left@
            + right@).to_multiset());
        assert(left@ + right@ =~= old(vect)@.subrange(start as int, end as int + 1));
    }
}

/// Recursive divide-and-conquer sort: puts the inclusive range
/// `[start, end]` of `vect` into non-decreasing order in place, leaving every
/// position outside the range untouched. An empty range (`start > end`,
/// reachable only through the internal recursion) performs no work; callers
/// must not invoke it on an empty sequence, since such a sequence has no
/// valid `end` index.
pub fn merge_sort(vect: &mut Vec<i32>, start: usize, end: usize)
    requires
        start <= end ==> end < old(vect)@.len(),
    ensures
        final(vect)@.len() == old(vect)@.len(),
        start <= end ==> sorted_between(final(vect)@, start as int, end as int + 1),
        start <= end ==> final(vect)@.subrange(start as int, end as int + 1).to_multiset() == old(
            vect,
        )@.subrange(start as int, end as int + 1).to_multiset(),
        forall|m: int|
            0 <= m < old(vect)@.len() && !(start <= m <= end) ==> final(vect)@[m] == old(
                vect,
            )@[m],
        start > end ==> final(vect)@ == old(vect)@,
        start <= end && sorted_between(old(vect)@, start as int, end as int + 1) ==> final(vect)@
            == old(vect)@,
    decreases end - start,
{
    broadcast use vstd::seq_lib::lemma_multiset_commutative;

    if start < end {
        let middle: usize = start + (end - start) / 2;
        assert(start <= middle < end);
        let ghost v0 = vect@;
        merge_sort(vect, start, middle);
        let ghost v1 = vect@;
        merge_sort(vect, middle + 1, end);
        let ghost v2 = vect@;
        proof {
            assert(sorted_between(v2, start as int, middle as int + 1)) by {
                assert forall|m: int| start <= m <= middle implies v2[m] == v1[m] by {}
            }
            assert(v2.subrange(start as int, middle as int + 1) =~= v1.subrange(
                start as int,
                middle as int + 1,
            ));
            assert(v1.subrange(middle as int + 1, end as int + 1) =~= v0.subrange(
                middle as int + 1,
                end as int + 1,
            ));
        }
        merge(vect, start, middle, end);
        proof {
            let vf = vect@;
            assert(v2.subrange(start as int, end as int + 1) =~= v2.subrange(
                start as int,
                middle as int + 1,
            ) + v2.subrange(middle as int + 1, end as int + 1));
            assert(v0.subrange(start as int, end as int + 1) =~= v0.subrange(
                start as int,
                middle as int + 1,
            ) + v0.subrange(middle as int + 1, end as int + 1));
            assert(vf.subrange(start as int, end as int + 1).to_multiset() == v0.subrange(
                start as int,
                end as int + 1,
            ).to_multiset());
        }
    }
    proof {
        if start <= end && sorted_between(old(vect)@, start as int, end as int + 1) {
            lemma_sorted_subrange(old(vect)@, start as int, end as int + 1);
            lemma_sorted_subrange(vect@, start as int, end as int + 1);
            lemma_sorted_same_multiset(
                vect@.subrange(start as int, end as int + 1),
                old(vect)@.subrange(start as int, end as int + 1),
            );
            assert forall|m: int| 0 <= m < old(vect)@.len() implies vect@[m] == old(vect)@[m] by {
                if start <= m <= end {
                    assert(vect@.subrange(start as int, end as int + 1)[m - start] == vect@[m]);
                    assert(old(vect)@.subrange(start as int, end as int + 1)[m - start] == old(
                        vect,
                    )@[m]);
                }
            }
            assert(vect@ =~= old(vect)@);
        }
    }
}

/// Adjacent-swap sort with early termination: repeats passes over the whole
/// sequence, swapping each out-of-order neighbouring pair, and stops as soon
/// as a pass makes no swap.
pub fn bubble_sort(vect: &mut Vec<i32>)
    ensures
        final(vect)@.len() == old(vect)@.len(),
        sorted(final(vect)@),
        final(vect)@.to_multiset() == old(vect)@.to_multiset(),
        sorted(old(vect)@) ==> final(vect)@ == old(vect)@,
        old(vect)@.len() <= 1 ==> final(vect)@ == old(vect)@,
{
    let n = vect.len();
    if n < 2 {
        return ;
    }
    let mut p: usize = 0;
    let mut swapped: bool = true;
    while swapped && p < n - 1
        invariant
            n == vect@.len(),
            vect@.len() == old(vect)@.len(),
            vect@.to_multiset() == old(vect)@.to_multiset(),
            2 <= n,
            p <= n - 1,
            sorted_between(vect@, n - p, n as int),
            forall|a: int, b: int| 0 <= a < n - p <= b < n ==> vect@[a] <= vect@[b],
            !swapped ==> sorted(vect@),
        decreases n - p,
    {
        swapped = false;
        let mut j: usize = 0;
        while j < n - 1
            invariant
                n == vect@.len(),
                vect@.len() == old(vect)@.len(),
                vect@.to_multiset() == old(vect)@.to_multiset(),
                2 <= n,
                p < n - 1,
                j <= n - 1,
                sorted_between(vect@, n - p, n as int),
                forall|a: int, b: int| 0 <= a < n - p <= b < n ==> vect@[a] <= vect@[b],
                forall|m: int| 0 <= m <= j ==> vect@[m] <= vect@[j as int],
                j >= n - p - 1 ==> forall|m: int|
                    0 <= m <= n - p - 1 ==> #[trigger] vect@[m] <= vect@[n - p - 1],
                !swapped ==> sorted_between(vect@, 0, j as int + 1),
            decreases n - 1 - j,
        {
            if vect[j] > vect[j + 1] {
                let ghost s0 = vect@;
                let a = vect[j];
                let b = vect[j + 1];
                vect.set(j, b);
                vect.set(j + 1, a);
                swapped = true;
                proof {
                    lemma_swap_preserves_multiset(s0, j as int, j as int + 1);
                }
            }
            j = j + 1;
        }
        p = p + 1;
    }
    proof {
        if !swapped {
        } else {
            assert(p == n - 1);
            assert(sorted_between(vect@, 1, n as int));
            assert forall|i: int, j: int| 0 <= i <= j < n implies vect@[i] <= vect@[j] by {
                if i == 0 && j > 0 {
                    assert(vect@[0] <= vect@[j]);
                }
            }
        }
        if sorted(old(vect)@) {
            lemma_sorted_same_multiset(vect@, old(vect)@);
        }
    }
}

/// How many elements of `s` are strictly greater than `x`.
spec fn count_gt(s: Seq<i32>, x: i32) -> nat
    decreases s.len(),
{
    if s.len() == 0 {
        0
    } else {
        count_gt(s.drop_last(), x) + if s.last() > x {
            1nat
        } else {
            0nat
        }
    }
}

/// The number of inverted pairs of `s`: pairs of positions `i < j` with
/// `s[i] > s[j]`. A sequence is sorted exactly when it has none, and each
/// adjacent swap that gnome sort makes removes exactly one, which bounds how
/// long the cursor can keep stepping back.
spec fn inversions(s: Seq<i32>) -> nat
    decreases s.len(),
{
    if s.len() == 0 {
        0
    } else {
        inversions(s.drop_last()) + count_gt(s.drop_last(), s.last())
    }
}

/// Appending a value contributes its comparison with `x` and nothing else.
proof fn lemma_count_gt_push(s: Seq<i32>, y: i32, x: i32)
    ensures
        count_gt(s.push(y), x) == count_gt(s, x) + if y > x {
            1nat
        } else {
            0nat
        },
{
    assert(s.push(y).drop_last() =~= s);
    assert(s.push(y).last() == y);
}

/// Replacing the value at one position changes the greater-than count by the
/// contributions of the old and the new value alone.
proof fn lemma_count_gt_update(s: Seq<i32>, k: int, y: i32, x: i32)
    requires
        0 <= k < s.len(),
    ensures
        count_gt(s.update(k, y), x) + (if s[k] > x {
            1nat
        } else {
            0nat
        }) == count_gt(s, x) + (if y > x {
            1nat
        } else {
            0nat
        }),
    decreases s.len(),
{
    if k == s.len() - 1 {
        assert(s.update(k, y).drop_last() =~= s.drop_last());
        assert(s.update(k, y).last() == y);
    } else {
        lemma_count_gt_update(s.drop_last(), k, y, x);
        assert(s.update(k, y).drop_last() =~= s.drop_last().update(k, y));
        assert(s.update(k, y).last() == s.last());
    }
}

/// Appending a value adds exactly its inverted pairs with the elements
/// already present.
proof fn lemma_inversions_push(s: Seq<i32>, x: i32)
    ensures
        inversions(s.push(x)) == inversions(s) + count_gt(s, x),
{
    assert(s.push(x).drop_last() =~= s);
    assert(s.push(x).last() == x);
}

/// Swapping an out-of-order adjacent pair removes exactly one inverted pair.
proof fn lemma_swap_adjacent_inversions(s: Seq<i32>, p: int)
    requires
        0 < p < s.len(),
        s[p - 1] > s[p],
    ensures
        inversions(s.update(p - 1, s[p]).update(p, s[p - 1])) + 1 == inversions(s),
    decreases s.len(),
{
    let t = s.update(p - 1, s[p]).update(p, s[p - 1]);
    if p == s.len() - 1 {
        let c = s.subrange(0, p - 1);
        let a = s[p - 1];
        let b = s[p];
        assert(s =~= c.push(a).push(b));
        assert(t =~= c.push(b).push(a));
        lemma_inversions_push(c.push(a), b);
        lemma_count_gt_push(c, a, b);
        lemma_inversions_push(c, a);
        lemma_inversions_push(c.push(b), a);
        lemma_count_gt_push(c, b, a);
        lemma_inversions_push(c, b);
    } else {
        let d = s.drop_last();
        assert(t.drop_last() =~= d.update(p - 1, s[p]).update(p, s[p - 1]));
        assert(t.last() == s.last());
        lemma_swap_adjacent_inversions(d, p);
        lemma_count_gt_update(d, p - 1, s[p], s.last());
        assert(d.update(p - 1, s[p])[p] == s[p]);
        lemma_count_gt_update(d.update(p - 1, s[p]), p, s[p - 1], s.last());
    }
}

/// Single-cursor sort: advances when the pair behind the cursor is in order,
/// otherwise swaps that pair and steps back; an insertion sort expressed with
/// one moving cursor and no nested loop.
#[verifier::loop_isolation(false)]
pub fn gnome_sort(vect: &mut Vec<i32>)
    ensures
        final(vect)@.len() == old(vect)@.len(),
        sorted(final(vect)@),
        final(vect)@.to_multiset() == old(vect)@.to_multiset(),
        sorted(old(vect)@) ==> final(vect)@ == old(vect)@,
        old(vect)@.len() <= 1 ==> final(vect)@ == old(vect)@,
{
    let mut pos: usize = 0;
    while pos < vect.len()
        invariant
            pos <= vect@.len(),
            vect@.len() == old(vect)@.len(),
            vect@.to_multiset() == old(vect)@.to_multiset(),
            sorted_between(vect@, 0, pos as int),
        decreases inversions(vect@), vect@.len() - pos,
    {
        if pos == 0 || vect[pos] >= vect[pos - 1] {
            pos = pos + 1;
        } else {
            let ghost s0 = vect@;
            let temp = vect[pos];
            let prev_val = vect[pos - 1];
            vect.set(pos - 1, temp);
            vect.set(pos, prev_val);
            proof {
                lemma_swap_preserves_multiset(s0, pos as int - 1, pos as int);
                lemma_swap_adjacent_inversions(s0, pos as int);
            }
            pos = pos - 1;
        }
    }
    proof {
        if sorted(old(vect)@) {
            lemma_sorted_same_multiset(vect@, old(vect)@);
        }
    }
}

/// Declares rand::rngs::ThreadRng so that it can stand in signatures; the
/// verifier sees nothing of its inside.
#[verifier::external_type_specification]
#[verifier::external_body]
pub struct ExThreadRng(rand::rngs::ThreadRng);

/// Relies on rand::thread_rng: a handle to the thread-local random number
/// generator. Nothing is assumed of the values it will yield.
#[verifier::external_body]
fn fresh_rng() -> rand::rngs::ThreadRng {
    rand::thread_rng()
}

/// Relies on rand::seq::SliceRandom::shuffle, a Fisher-Yates pass that
/// reorders the slice in place by swapping pairs of its own elements:
/// whatever order comes back, the sequence holds exactly the values it held
/// before, so its multiset and its length are unchanged.
#[verifier::external_body]
fn shuffle(vect: &mut Vec<i32>, rng: &mut rand::rngs::ThreadRng)
    ensures
        final(vect)@.to_multiset() == old(vect)@.to_multiset(),
        final(vect)@.len() == old(vect)@.len(),
{
    vect.shuffle(rng);
}

/// Scans adjacent pairs and reports whether the whole sequence is in
/// non-decreasing order, stopping at the first violation.
#[verifier::loop_isolation(false)]
fn is_sorted(vect: &Vec<i32>) -> (r: bool)
    ensures
        r == sorted(vect@),
{
    if vect.len() < 2 {
        return true;
    }
    let mut i: usize = 0;
    let mut r: bool = true;
    while i < vect.len() - 1 && r
        invariant
            i + 1 <= vect@.len(),
            r ==> sorted_between(vect@, 0, i as int + 1),
            !r ==> !sorted(vect@),
        decreases vect@.len() - i,
    {
        if vect[i] > vect[i + 1] {
            r = false;
        }
        i = i + 1;
    }
    r
}

/// Shuffle-and-check sort: permutes the sequence uniformly at random and
/// scans it, over and over, stopping as soon as a scan finds it sorted and
/// giving up after `attempts` rounds. Returns whether the sequence ended up
/// sorted; either way it holds the same values as before. The expected number
/// of rounds is factorial in the length, so callers must keep the sequence
/// short or accept that a generous `attempts` may be exhausted.
#[verifier::loop_isolation(false)]
pub fn bogo_sort(vect: &mut Vec<i32>, attempts: u64) -> (done: bool)
    requires
        attempts >= 1,
    ensures
        final(vect)@.len() == old(vect)@.len(),
        final(vect)@.to_multiset() == old(vect)@.to_multiset(),
        done == sorted(final(vect)@),
        done && sorted(old(vect)@) ==> final(vect)@ == old(vect)@,
        old(vect)@.len() <= 1 ==> final(vect)@ == old(vect)@,
{
    if vect.len() <= 1 {
        return true;
    }
    let mut rounds: u64 = 0;
    let mut done: bool = false;
    while !done && rounds < attempts
        invariant
            vect@.len() == old(vect)@.len(),
            vect@.to_multiset() == old(vect)@.to_multiset(),
            rounds == 0 ==> !done,
            rounds >= 1 ==> done == sorted(vect@),
            rounds <= attempts,
        decreases attempts - rounds,
    {
        let mut rng = fresh_rng();
        shuffle(vect, &mut rng);
        done = is_sorted(vect);
        rounds = rounds + 1;
    }
    proof {
        if done && sorted(old(vect)@) {
            lemma_sorted_same_multiset(vect@, old(vect)@);
        }
    }
    done
}

/// Two sequences that are both in non-decreasing order and hold the same
/// multiset of values are equal: a sorted arrangement of given values is
/// unique. In particular, sorting an already-sorted sequence cannot change
/// it.
pub proof fn lemma_sorted_same_multiset(a: Seq<i32>, b: Seq<i32>)
    requires
        sorted(a),
        sorted(b),
        a.to_multiset() == b.to_multiset(),
    ensures
        a == b,
{
    let leq = |x: i32, y: i32| x <= y;
    assert(vstd::relations::total_ordering(leq)) by {
        assert(vstd::relations::reflexive(leq));
        assert(vstd::relations::transitive(leq));
        assert(vstd::relations::antisymmetric(leq));
        assert(vstd::relations::strongly_connected(leq));
    }
    assert(vstd::relations::sorted_by(a, leq));
    assert(vstd::relations::sorted_by(b, leq));
    vstd::seq_lib::lemma_sorted_unique(a, b, leq);
    assert(a =~= b);
}

} // verus!
