//! Sixty-four-cell sets held in a `u64`, read one cell at a time.

use vstd::prelude::*;

verus! {

/// Whether cell `i` belongs to the set `x`.
pub open spec fn has_bit(x: u64, i: int) -> bool {
    0 <= i < 64 && (x >> (i as u64)) & 1 == 1
}

/// The cells of `x` as a mathematical set.
pub open spec fn cells(x: u64) -> Set<int> {
    Set::new(|i: int| has_bit(x, i))
}

proof fn bv_bitwise(x: u64, y: u64, i: u64)
    by (bit_vector)
    requires
        i < 64,
    ensures
        ((x & y) >> i) & 1 == 1 <==> ((x >> i) & 1 == 1 && (y >> i) & 1 == 1),
        ((x | y) >> i) & 1 == 1 <==> ((x >> i) & 1 == 1 || (y >> i) & 1 == 1),
        ((x ^ y) >> i) & 1 == 1 <==> ((x >> i) & 1 == 1) != ((y >> i) & 1 == 1),
        ((!x) >> i) & 1 == 1 <==> (x >> i) & 1 != 1,
        (0u64 >> i) & 1 == 0,
{
}

proof fn bv_shifts(x: u64, s: u64, i: u64)
    by (bit_vector)
    requires
        i < 64,
        s < 64,
    ensures
        ((x >> s) >> i) & 1 == 1 <==> (i + s < 64 && (x >> ((i + s) as u64)) & 1 == 1),
        ((x << s) >> i) & 1 == 1 <==> (i >= s && (x >> ((i - s) as u64)) & 1 == 1),
        ((1u64 << s) >> i) & 1 == 1 <==> i == s,
{
}

/// Cell by cell, `&`, `|`, `^` and `!` are the set operations.
pub proof fn lemma_bitwise(x: u64, y: u64)
    ensures
        forall|i: int| #[trigger] has_bit(x & y, i) == (has_bit(x, i) && has_bit(y, i)),
        forall|i: int| #[trigger] has_bit(x | y, i) == (has_bit(x, i) || has_bit(y, i)),
        forall|i: int| #[trigger] has_bit(x ^ y, i) == (has_bit(x, i) != has_bit(y, i)),
        forall|i: int| #[trigger] has_bit(!x, i) == (0 <= i < 64 && !has_bit(x, i)),
{
    assert forall|i: int| #[trigger] has_bit(x & y, i) == (has_bit(x, i) && has_bit(y, i)) by {
        if 0 <= i < 64 {
            bv_bitwise(x, y, i as u64);
        }
    }
    assert forall|i: int| #[trigger] has_bit(x | y, i) == (has_bit(x, i) || has_bit(y, i)) by {
        if 0 <= i < 64 {
            bv_bitwise(x, y, i as u64);
        }
    }
    assert forall|i: int| #[trigger] has_bit(x ^ y, i) == (has_bit(x, i) != has_bit(y, i)) by {
        if 0 <= i < 64 {
            bv_bitwise(x, y, i as u64);
        }
    }
    assert forall|i: int| #[trigger] has_bit(!x, i) == (0 <= i < 64 && !has_bit(x, i)) by {
        if 0 <= i < 64 {
            bv_bitwise(x, y, i as u64);
        }
    }
}

/// Shifting right by `s` moves every cell `s` places down.
pub proof fn lemma_shr(x: u64, s: u64)
    requires
        s < 64,
    ensures
        forall|i: int| #[trigger] has_bit(x >> s, i) == (0 <= i && has_bit(x, i + s)),
{
    assert forall|i: int| #[trigger] has_bit(x >> s, i) == (0 <= i && has_bit(x, i + s)) by {
        if 0 <= i < 64 {
            bv_shifts(x, s, i as u64);
        }
    }
}

/// Shifting left by `s` moves every cell `s` places up; cells pushed past 63 are lost.
pub proof fn lemma_shl(x: u64, s: u64)
    requires
        s < 64,
    ensures
        forall|i: int| #[trigger] has_bit(x << s, i) == (i < 64 && has_bit(x, i - s)),
{
    assert forall|i: int| #[trigger] has_bit(x << s, i) == (i < 64 && has_bit(x, i - s)) by {
        if 0 <= i < 64 {
            bv_shifts(x, s, i as u64);
        }
    }
}

/// `1 << k` holds cell `k` and no other; the empty set holds none.
pub proof fn lemma_single(k: u64)
    requires
        k < 64,
    ensures
        forall|i: int| #[trigger] has_bit(1u64 << k, i) == (i == k),
        forall|i: int| !#[trigger] has_bit(0u64, i),
{
    assert forall|i: int| #[trigger] has_bit(1u64 << k, i) == (i == k) by {
        if 0 <= i < 64 {
            bv_shifts(0, k, i as u64);
        }
    }
    assert forall|i: int| !#[trigger] has_bit(0u64, i) by {
        if 0 <= i < 64 {
            bv_bitwise(0, 0, i as u64);
        }
    }
}

/// Intersection and union do not depend on the order of the two sets.
pub proof fn lemma_commute(x: u64, y: u64)
    by (bit_vector)
    ensures
        x & y == y & x,
        x | y == y | x,
{
}

/// Two sets with the same cells are the same `u64`.
pub proof fn lemma_same_cells(x: u64, y: u64)
    requires
        forall|i: int| 0 <= i < 64 ==> has_bit(x, i) == has_bit(y, i),
    ensures
        x == y,
{
    let z = x ^ y;
    if z != 0 {
        vstd::std_specs::bits::axiom_u64_trailing_zeros(z);
        let k = vstd::std_specs::bits::u64_trailing_zeros(z) as int;
        assert(has_bit(z, k));
        lemma_bitwise(x, y);
    }
    assert(z == 0 ==> x == y) by (bit_vector)
        requires
            z == x ^ y,
    ;
}

/// How many of the cells `0..k` belong to `x`.
pub open spec fn count_below(x: u64, k: nat) -> nat
    decreases k,
{
    if k == 0 {
        0
    } else {
        count_below(x, (k - 1) as nat) + if has_bit(x, k - 1) {
            1nat
        } else {
            0nat
        }
    }
}

/// The number of cells in `x`.
pub open spec fn popcount(x: u64) -> nat {
    count_below(x, 64)
}

/// `u64::count_ones` returns the number of one bits in the binary
/// representation of its argument, which is the number of cells in the set.
pub assume_specification[ u64::count_ones ](x: u64) -> (r: u32)
    ensures
        r == popcount(x),
;

/// The cells of `x` below `k`.
pub open spec fn cells_below(x: u64, k: nat) -> Set<int> {
    Set::new(|i: int| i < k && has_bit(x, i))
}

/// The count of the cells below `k` is the size of their set.
pub proof fn lemma_count_is_len_below(x: u64, k: nat)
    ensures
        cells_below(x, k).finite(),
        cells_below(x, k).len() == count_below(x, k),
    decreases k,
{
    if k == 0 {
        assert(cells_below(x, 0) =~= Set::<int>::empty());
    } else {
        lemma_count_is_len_below(x, (k - 1) as nat);
        let before = cells_below(x, (k - 1) as nat);
        if has_bit(x, k - 1) {
            assert(cells_below(x, k) =~= before.insert(k - 1));
        } else {
            assert(cells_below(x, k) =~= before);
        }
    }
}

/// The count of a set is the number of its cells.
pub proof fn lemma_count_is_len(x: u64)
    ensures
        cells(x).finite(),
        cells(x).len() == popcount(x),
{
    lemma_count_is_len_below(x, 64);
    assert(cells(x) =~= cells_below(x, 64));
}

/// No more than `k` of the cells `0..k` can belong to a set.
pub proof fn lemma_count_bound(x: u64, k: nat)
    ensures
        count_below(x, k) <= k,
    decreases k,
{
    if k > 0 {
        lemma_count_bound(x, (k - 1) as nat);
    }
}

/// The count of a union of two disjoint sets is the sum of their counts.
pub proof fn lemma_count_disjoint(x: u64, y: u64, k: nat)
    requires
        x & y == 0,
    ensures
        count_below(x | y, k) == count_below(x, k) + count_below(y, k),
    decreases k,
{
    if k > 0 {
        lemma_count_disjoint(x, y, (k - 1) as nat);
        lemma_bitwise(x, y);
        lemma_single(0);
        assert(!has_bit(x & y, k - 1));
    }
}

/// A set is empty exactly when its count is zero.
pub proof fn lemma_count_zero(x: u64)
    ensures
        popcount(x) == 0 <==> x == 0,
{
    lemma_single(0);
    if x == 0 {
        lemma_count_none(x, 64);
    } else {
        if popcount(x) == 0 {
            assert forall|i: int| 0 <= i < 64 implies has_bit(x, i) == has_bit(0u64, i) by {
                if has_bit(x, i) {
                    lemma_count_some(x, 64, i);
                }
            }
            lemma_same_cells(x, 0);
        }
    }
}

proof fn lemma_count_none(x: u64, k: nat)
    requires
        forall|i: int| 0 <= i < k ==> !has_bit(x, i),
    ensures
        count_below(x, k) == 0,
    decreases k,
{
    if k > 0 {
        lemma_count_none(x, (k - 1) as nat);
    }
}

proof fn lemma_count_some(x: u64, k: nat, i: int)
    requires
        0 <= i < k,
        has_bit(x, i),
    ensures
        count_below(x, k) > 0,
    decreases k,
{
    if i < k - 1 {
        lemma_count_some(x, (k - 1) as nat, i);
    }
}

/// A set of one cell has count one.
pub proof fn lemma_count_single(k: u64)
    requires
        k < 64,
    ensures
        popcount(1u64 << k) == 1,
{
    lemma_single(k);
    lemma_count_upto(1u64 << k, k as int, 64);
}

proof fn lemma_count_upto(x: u64, only: int, k: nat)
    requires
        forall|i: int| 0 <= i < 64 ==> has_bit(x, i) == (i == only),
        0 <= only < 64,
        k <= 64,
    ensures
        count_below(x, k) == if only < k { 1nat } else { 0nat },
    decreases k,
{
    if k > 0 {
        lemma_count_upto(x, only, (k - 1) as nat);
    }
}

/// The empty set is the one `u64` without cells.
pub proof fn lemma_zero(y: u64)
    ensures
        (y == 0) == (forall|i: int| !has_bit(y, i)),
{
    lemma_single(0);
    if y != 0 && (forall|i: int| !has_bit(y, i)) {
        lemma_same_cells(y, 0);
    }
}

proof fn bv_member(h: u64, k: u64)
    by (bit_vector)
    requires
        k < 64,
    ensures
        (h & (1u64 << k) == (1u64 << k)) == ((h >> k) & 1 == 1),
        (h & (1u64 << k) != 0) == ((h >> k) & 1 == 1),
{
}

/// Testing a set against a one-cell set tells whether the cell is in it.
pub proof fn lemma_member(h: u64, k: u64)
    requires
        k < 64,
    ensures
        (h & (1u64 << k) == (1u64 << k)) == has_bit(h, k as int),
        (h & (1u64 << k) != 0) == has_bit(h, k as int),
{
    bv_member(h, k);
}

proof fn bv_remove(y: u64, x: u64)
    by (bit_vector)
    requires
        x & y == x,
    ensures
        (y ^ x) & x == 0,
        (y ^ x) | x == y,
{
}

/// Taking a subset `x` out of `y` lowers the count by the count of `x`.
pub proof fn lemma_remove(y: u64, x: u64)
    requires
        forall|i: int| has_bit(x, i) ==> has_bit(y, i),
    ensures
        popcount(y ^ x) + popcount(x) == popcount(y),
{
    lemma_bitwise(x, y);
    lemma_same_cells(x & y, x);
    bv_remove(y, x);
    lemma_count_disjoint(y ^ x, x, 64);
}

proof fn lemma_count_two(x: u64, k: nat, i: int, j: int)
    requires
        0 <= i < j < k,
        has_bit(x, i),
        has_bit(x, j),
    ensures
        count_below(x, k) >= 2,
    decreases k,
{
    if j < k - 1 {
        lemma_count_two(x, (k - 1) as nat, i, j);
    } else {
        lemma_count_some(x, (k - 1) as nat, i);
    }
}

/// A set of one cell is `1 << k` for the cell `k` that `trailing_zeros` finds.
pub proof fn lemma_one_bit(x: u64)
    requires
        popcount(x) == 1,
    ensures
        vstd::std_specs::bits::u64_trailing_zeros(x) < 64,
        x == 1u64 << (vstd::std_specs::bits::u64_trailing_zeros(x) as u64),
        has_bit(x, vstd::std_specs::bits::u64_trailing_zeros(x) as int),
{
    lemma_count_zero(x);
    vstd::std_specs::bits::axiom_u64_trailing_zeros(x);
    let k = vstd::std_specs::bits::u64_trailing_zeros(x) as u64;
    lemma_single(k);
    assert forall|i: int| 0 <= i < 64 implies has_bit(x, i) == has_bit(1u64 << k, i) by {
        if has_bit(x, i) && i != k {
            if i < k {
                lemma_count_two(x, 64, i, k as int);
            } else {
                lemma_count_two(x, 64, k as int, i);
            }
        }
    }
    lemma_same_cells(x, 1u64 << k);
}

} // verus!
