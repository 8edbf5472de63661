//! Bit positions of a modifier mask, and the masks made of subsets of those positions.
use vstd::prelude::*;
use vstd::arithmetic::power2::pow2;
use vstd::arithmetic::power2::{lemma_pow2_pos, lemma_pow2_unfold};
use vstd::arithmetic::div_mod::lemma_basic_div;
use vstd::bits::{
    lemma_u32_pow2_no_overflow, lemma_u32_shl_is_mul, lemma_u32_shr_is_div,
    lemma_usize_pow2_no_overflow, lemma_usize_shl_is_mul,
};

verus! {

/// Whether bit `i` of `n` is set.
pub open spec fn bit_set(n: u32, i: u32) -> bool {
    (n >> i) & 1u32 == 1u32
}

/// The positions below `k` of the set bits of `n`, in increasing order.
pub open spec fn ones_below(n: u32, k: nat) -> Seq<u32>
    decreases k,
{
    if k == 0 {
        Seq::empty()
    } else {
        let prev = ones_below(n, (k - 1) as nat);
        if bit_set(n, (k - 1) as u32) {
            prev.push((k - 1) as u32)
        } else {
            prev
        }
    }
}

/// The positions of the set bits of `n`, in increasing order.
pub open spec fn ones_indexes(n: u32) -> Seq<u32> {
    ones_below(n, 32)
}

proof fn lemma_ones_below(n: u32, k: nat)
    requires
        k <= 32,
    ensures
        ones_below(n, k).len() <= k,
        forall|t: int|
            0 <= t < ones_below(n, k).len() ==> #[trigger] ones_below(n, k)[t] < k && bit_set(
                n,
                ones_below(n, k)[t],
            ),
        forall|a: int, b: int|
            0 <= a < b < ones_below(n, k).len() ==> #[trigger] ones_below(n, k)[a]
                < #[trigger] ones_below(n, k)[b],
        forall|i: u32| i < k && #[trigger] bit_set(n, i) ==> ones_below(n, k).contains(i),
    decreases k,
{
    if k > 0 {
        let p = ones_below(n, (k - 1) as nat);
        let s = ones_below(n, k);
        lemma_ones_below(n, (k - 1) as nat);
        assert forall|i: u32| i < k && #[trigger] bit_set(n, i) implies s.contains(i) by {
            if i == k - 1 {
                assert(s[s.len() - 1] == i);
            } else {
                assert(p.contains(i));
                let t = choose|t: int| 0 <= t < p.len() && p[t] == i;
                assert(s[t] == i);
            }
        }
    }
}

proof fn lemma_shr_step(n: u32, i: u32, j: u32)
    by (bit_vector)
    requires
        i <= 32,
        j == i + 1,
    ensures
        (n >> i) != 0 ==> i < 32,
        i < 32 ==> (n >> i) >> 1u32 == n >> j,
{
}

proof fn lemma_no_bit_above(n: u32, i: u32, j: u32)
    by (bit_vector)
    requires
        n >> i == 0,
        i <= j,
        j < 32,
    ensures
        !bit_set(n, j),
{
}

proof fn lemma_ones_below_stable(n: u32, k: nat, m: nat)
    requires
        k <= m <= 32,
        forall|j: u32| k <= j < m ==> !#[trigger] bit_set(n, j),
    ensures
        ones_below(n, m) == ones_below(n, k),
    decreases m,
{
    if m > k {
        lemma_ones_below_stable(n, k, (m - 1) as nat);
        assert(!bit_set(n, (m - 1) as u32));
    }
}

/// The positions of the set bits of `n`, from the lowest up.
pub fn get_ones_indexes(n: u32) -> (result: Vec<u32>)
    ensures
        result@ == ones_indexes(n),
        result.len() <= 32,
        forall|t: int| 0 <= t < result.len() ==> #[trigger] result[t] < 32 && bit_set(n, result[t]),
        forall|a: int, b: int| 0 <= a < b < result.len() ==> #[trigger] result[a] < #[trigger] result[b],
        forall|i: u32| i < 32 && #[trigger] bit_set(n, i) ==> result@.contains(i),
{
    let mut result: Vec<u32> = Vec::new();
    let mut m: u32 = n;
    let mut index: u32 = 0;
    assert(n >> 0u32 == n) by (bit_vector);
    while m != 0
        invariant
            index <= 32,
            m == n >> index,
            result@ == ones_below(n, index as nat),
        decreases 32 - index,
    {
        proof {
            lemma_shr_step(n, index, (index + 1) as u32);
        }
        if m & 1 == 1 {
            result.push(index);
        }
        m = m >> 1;
        index = index + 1;
    }
    proof {
        assert forall|j: u32| index <= j < 32 implies !#[trigger] bit_set(n, j) by {
            lemma_no_bit_above(n, index, j);
        }
        lemma_ones_below_stable(n, index as nat, 32);
        lemma_ones_below(n, 32);
    }
    result
}

/// The mask with bit `indexes[p]` set for each `p` of `positions`.
pub open spec fn or_shifts(indexes: Seq<u32>, positions: Seq<u32>) -> u32
    decreases positions.len(),
{
    if positions.len() == 0 {
        0
    } else {
        or_shifts(indexes, positions.drop_last()) | (1u32 << indexes[positions.last() as int])
    }
}

/// The mask that `combination` selects from `indexes`: bit `indexes[j]` for each set bit `j`
/// of `combination`.
pub open spec fn combination_mask(indexes: Seq<u32>, combination: u32) -> u32 {
    or_shifts(indexes, ones_indexes(combination))
}

/// Every set bit of `combination` names an entry of `indexes`, and that entry is a bit
/// position of a `u32`.
pub open spec fn combination_fits(indexes: Seq<u32>, combination: u32) -> bool {
    forall|j: u32|
        j < 32 && #[trigger] bit_set(combination, j) ==> j < indexes.len() && indexes[j as int]
            < 32
}

/// Maps a combination (a number whose bits select entries of `indexes`) to the mask that has
/// the bits named by the selected entries.
pub fn map_indexes_combination(indexes: &Vec<u32>, combination: u32) -> (result: u32)
    requires
        combination_fits(indexes@, combination),
    ensures
        result == combination_mask(indexes@, combination),
{
    let mut result: u32 = 0;
    let combination_indexes = get_ones_indexes(combination);
    let mut k: usize = 0;
    while k < combination_indexes.len()
        invariant
            k <= combination_indexes.len(),
            combination_indexes@ == ones_indexes(combination),
            forall|t: int|
                0 <= t < combination_indexes.len() ==> #[trigger] combination_indexes[t] < 32
                    && bit_set(combination, combination_indexes[t]),
            combination_fits(indexes@, combination),
            result == or_shifts(indexes@, combination_indexes@.take(k as int)),
        decreases combination_indexes.len() - k,
    {
        let index = combination_indexes[k];
        assert(bit_set(combination, index));
        let v = indexes[index as usize];
        result = result | (1u32 << v);
        proof {
            assert(combination_indexes@.take(k + 1).drop_last() =~= combination_indexes@.take(
                k as int,
            ));
        }
        k = k + 1;
    }
    proof {
        assert(combination_indexes@.take(k as int) =~= combination_indexes@);
    }
    result
}

/// The number of combinations of `indexes_len` entries: `2^indexes_len`.
pub fn total_combinations(indexes_len: usize) -> (total: usize)
    requires
        indexes_len < usize::BITS,
    ensures
        total == pow2(indexes_len as nat),
{
    proof {
        lemma_usize_pow2_no_overflow(indexes_len as nat);
        lemma_usize_shl_is_mul(1, indexes_len);
    }
    1usize << indexes_len
}

proof fn lemma_or_bit(x: u32, v: u32, k: u32)
    by (bit_vector)
    requires
        v < 32,
        k < 32,
    ensures
        bit_set(x | (1u32 << v), k) == (bit_set(x, k) || k == v),
{
}

proof fn lemma_zero_has_no_bits(k: u32)
    by (bit_vector)
    ensures
        !bit_set(0u32, k),
{
}

proof fn lemma_or_shifts_bits(indexes: Seq<u32>, positions: Seq<u32>, k: u32)
    requires
        k < 32,
        forall|t: int|
            0 <= t < positions.len() ==> #[trigger] positions[t] < indexes.len()
                && indexes[positions[t] as int] < 32,
    ensures
        bit_set(or_shifts(indexes, positions), k) <==> exists|t: int|
            0 <= t < positions.len() && #[trigger] indexes[positions[t] as int] == k,
    decreases positions.len(),
{
    if positions.len() == 0 {
        lemma_zero_has_no_bits(k);
    } else {
        let front = positions.drop_last();
        let last = positions.len() - 1;
        assert(positions[last] < indexes.len());
        assert forall|t: int| 0 <= t < front.len() implies #[trigger] front[t] < indexes.len()
            && indexes[front[t] as int] < 32 by {
            assert(front[t] == positions[t]);
        }
        lemma_or_shifts_bits(indexes, front, k);
        lemma_or_bit(or_shifts(indexes, front), indexes[positions[last] as int], k);
        if bit_set(or_shifts(indexes, positions), k) {
            if bit_set(or_shifts(indexes, front), k) {
                let t = choose|t: int| 0 <= t < front.len() && #[trigger] indexes[front[t] as int] == k;
                assert(indexes[positions[t] as int] == k);
            } else {
                assert(indexes[positions[last] as int] == k);
            }
        }
        if exists|t: int| 0 <= t < positions.len() && #[trigger] indexes[positions[t] as int] == k {
            let t = choose|t: int| 0 <= t < positions.len() && #[trigger] indexes[positions[t] as int] == k;
            if t < last {
                assert(indexes[front[t] as int] == k);
            }
        }
    }
}

/// Bit `k` of the mask that `combination` selects from `indexes` is set exactly when some set
/// bit `j` of `combination` selects an entry equal to `k`.
pub proof fn lemma_combination_bits(indexes: Seq<u32>, combination: u32, k: u32)
    requires
        combination_fits(indexes, combination),
        k < 32,
    ensures
        bit_set(combination_mask(indexes, combination), k) <==> exists|j: u32|
            j < 32 && bit_set(combination, j) && #[trigger] indexes[j as int] == k,
{
    let pos = ones_indexes(combination);
    lemma_ones_below(combination, 32);
    assert forall|t: int| 0 <= t < pos.len() implies #[trigger] pos[t] < indexes.len()
        && indexes[pos[t] as int] < 32 by {
        assert(bit_set(combination, pos[t]));
    }
    lemma_or_shifts_bits(indexes, pos, k);
    if bit_set(combination_mask(indexes, combination), k) {
        let t = choose|t: int| 0 <= t < pos.len() && #[trigger] indexes[pos[t] as int] == k;
        let j = pos[t];
        assert(j < 32 && bit_set(combination, j) && indexes[j as int] == k);
    }
    if exists|j: u32| j < 32 && bit_set(combination, j) && #[trigger] indexes[j as int] == k {
        let j = choose|j: u32| j < 32 && bit_set(combination, j) && #[trigger] indexes[j as int] == k;
        assert(pos.contains(j));
        let t = choose|t: int| 0 <= t < pos.len() && pos[t] == j;
        assert(indexes[pos[t] as int] == k);
    }
}

proof fn lemma_shr_recompose(x: u32, y: u32, i: u32, j: u32)
    by (bit_vector)
    requires
        i < 32,
        j == i + 1,
        x >> j == y >> j,
        bit_set(x, i) == bit_set(y, i),
    ensures
        x >> i == y >> i,
{
}

proof fn lemma_shr_agree_from(x: u32, y: u32, i: u32)
    requires
        i <= 32,
        forall|k: u32| i <= k < 32 ==> #[trigger] bit_set(x, k) == bit_set(y, k),
    ensures
        x >> i == y >> i,
    decreases 32 - i,
{
    if i == 32 {
        assert(x >> 32u32 == 0 && y >> 32u32 == 0) by (bit_vector);
    } else {
        lemma_shr_agree_from(x, y, (i + 1) as u32);
        assert(bit_set(x, i) == bit_set(y, i));
        lemma_shr_recompose(x, y, i, (i + 1) as u32);
    }
}

/// Two `u32` values with the same bits are equal.
proof fn lemma_bits_ext(x: u32, y: u32)
    requires
        forall|k: u32| k < 32 ==> #[trigger] bit_set(x, k) == bit_set(y, k),
    ensures
        x == y,
{
    lemma_shr_agree_from(x, y, 0);
    assert(x >> 0u32 == x && y >> 0u32 == y) by (bit_vector);
}

proof fn lemma_and_bit(x: u32, y: u32, k: u32)
    by (bit_vector)
    requires
        k < 32,
    ensures
        bit_set(x & y, k) == (bit_set(x, k) && bit_set(y, k)),
{
}

/// A number below `2^len` has no set bit at `len` or above.
proof fn lemma_bits_below(c: u32, len: nat)
    requires
        len <= 32,
        c < pow2(len),
    ensures
        forall|j: u32| len <= j < 32 ==> !#[trigger] bit_set(c, j),
{
    if len < 32 {
        lemma_u32_shr_is_div(c, len as u32);
        lemma_pow2_pos(len);
        lemma_basic_div(c as int, pow2(len) as int);
        assert forall|j: u32| len <= j < 32 implies !#[trigger] bit_set(c, j) by {
            lemma_no_bit_above(c, len as u32, j);
        }
    }
}

proof fn lemma_ones_fit(mask: u32, combination: u32)
    requires
        combination < pow2(ones_indexes(mask).len()),
    ensures
        combination_fits(ones_indexes(mask), combination),
{
    let idx = ones_indexes(mask);
    lemma_ones_below(mask, 32);
    lemma_bits_below(combination, idx.len());
    assert forall|j: u32| j < 32 && #[trigger] bit_set(combination, j) implies j < idx.len()
        && idx[j as int] < 32 by {
        if j >= idx.len() {
            assert(!bit_set(combination, j));
        }
        assert(idx[j as int] < 32);
    }
}

/// A combination below `2^n`, where `n` is the number of set bits of `mask`, selects only bits
/// of `mask`.
pub proof fn lemma_combination_within_mask(mask: u32, combination: u32)
    requires
        combination < pow2(ones_indexes(mask).len()),
    ensures
        combination_fits(ones_indexes(mask), combination),
        combination_mask(ones_indexes(mask), combination) & mask == combination_mask(
            ones_indexes(mask),
            combination,
        ),
{
    let idx = ones_indexes(mask);
    let r = combination_mask(idx, combination);
    lemma_ones_fit(mask, combination);
    lemma_ones_below(mask, 32);
    assert forall|k: u32| k < 32 implies #[trigger] bit_set(r & mask, k) == bit_set(r, k) by {
        lemma_and_bit(r, mask, k);
        lemma_combination_bits(idx, combination, k);
        if bit_set(r, k) {
            let j = choose|j: u32| j < 32 && bit_set(combination, j) && #[trigger] idx[j as int] == k;
            assert(bit_set(mask, idx[j as int]));
        }
    }
    lemma_bits_ext(r & mask, r);
}

proof fn lemma_selected_bit(mask: u32, combination: u32, j: u32)
    requires
        combination < pow2(ones_indexes(mask).len()),
        j < ones_indexes(mask).len(),
    ensures
        ones_indexes(mask)[j as int] < 32,
        bit_set(combination_mask(ones_indexes(mask), combination), ones_indexes(mask)[j as int])
            == bit_set(combination, j),
{
    let idx = ones_indexes(mask);
    lemma_ones_fit(mask, combination);
    lemma_ones_below(mask, 32);
    assert(idx[j as int] < 32);
    lemma_combination_bits(idx, combination, idx[j as int]);
    if bit_set(combination_mask(idx, combination), idx[j as int]) {
        let j2 = choose|j2: u32|
            j2 < 32 && bit_set(combination, j2) && #[trigger] idx[j2 as int] == idx[j as int];
        assert(j2 < idx.len());
        if j2 < j {
            assert(idx[j2 as int] < idx[j as int]);
        } else if j < j2 {
            assert(idx[j as int] < idx[j2 as int]);
        }
    }
    if bit_set(combination, j) {
        assert(j < 32 && bit_set(combination, j) && idx[j as int] == idx[j as int]);
    }
}

/// Distinct combinations below `2^n`, where `n` is the number of set bits of `mask`, select
/// distinct masks.
pub proof fn lemma_combination_injective(mask: u32, c1: u32, c2: u32)
    requires
        c1 < pow2(ones_indexes(mask).len()),
        c2 < pow2(ones_indexes(mask).len()),
        combination_mask(ones_indexes(mask), c1) == combination_mask(ones_indexes(mask), c2),
    ensures
        c1 == c2,
{
    let idx = ones_indexes(mask);
    lemma_ones_below(mask, 32);
    lemma_bits_below(c1, idx.len());
    lemma_bits_below(c2, idx.len());
    assert forall|j: u32| j < 32 implies #[trigger] bit_set(c1, j) == bit_set(c2, j) by {
        if j < idx.len() {
            lemma_selected_bit(mask, c1, j);
            lemma_selected_bit(mask, c2, j);
        }
    }
    lemma_bits_ext(c1, c2);
}

/// The combination that selects, among the set bits of a mask, those listed in `indexes[..k]`
/// whose bit is set in `sub`.
spec fn compress(sub: u32, indexes: Seq<u32>, k: nat) -> u32
    decreases k,
{
    if k == 0 {
        0
    } else {
        let prev = compress(sub, indexes, (k - 1) as nat);
        if bit_set(sub, indexes[k - 1]) {
            prev | (1u32 << ((k - 1) as u32))
        } else {
            prev
        }
    }
}

proof fn lemma_or_le(x: u32, y: u32)
    by (bit_vector)
    ensures
        x | y <= x + y,
{
}

proof fn lemma_compress(sub: u32, indexes: Seq<u32>, k: nat)
    requires
        k <= 32,
    ensures
        compress(sub, indexes, k) < pow2(k),
        forall|j: u32|
            j < 32 ==> (#[trigger] bit_set(compress(sub, indexes, k), j) <==> (j < k && bit_set(
                sub,
                indexes[j as int],
            ))),
    decreases k,
{
    if k == 0 {
        lemma_pow2_pos(0);
        assert forall|j: u32| j < 32 implies !#[trigger] bit_set(compress(sub, indexes, k), j) by {
            lemma_zero_has_no_bits(j);
        }
    } else {
        let prev = compress(sub, indexes, (k - 1) as nat);
        lemma_compress(sub, indexes, (k - 1) as nat);
        lemma_pow2_unfold(k);
        if bit_set(sub, indexes[k - 1]) {
            let b = (k - 1) as u32;
            lemma_u32_pow2_no_overflow((k - 1) as nat);
            lemma_u32_shl_is_mul(1, b);
            lemma_or_le(prev, 1u32 << b);
            assert forall|j: u32| j < 32 implies (#[trigger] bit_set(
                compress(sub, indexes, k),
                j,
            ) <==> (j < k && bit_set(sub, indexes[j as int]))) by {
                lemma_or_bit(prev, b, j);
            }
        }
    }
}

/// Every submask of `mask` is selected by some combination below `2^n`, where `n` is the
/// number of set bits of `mask`.
pub proof fn lemma_combination_covers(mask: u32, sub: u32)
    requires
        sub & mask == sub,
    ensures
        exists|c: u32|
            c < pow2(ones_indexes(mask).len()) && #[trigger] combination_mask(
                ones_indexes(mask),
                c,
            ) == sub,
{
    let idx = ones_indexes(mask);
    lemma_ones_below(mask, 32);
    let c = compress(sub, idx, idx.len());
    lemma_compress(sub, idx, idx.len());
    lemma_ones_fit(mask, c);
    let r = combination_mask(idx, c);
    assert forall|k: u32| k < 32 implies #[trigger] bit_set(r, k) == bit_set(sub, k) by {
        lemma_combination_bits(idx, c, k);
        lemma_and_bit(sub, mask, k);
        if bit_set(sub, k) {
            assert(idx.contains(k));
            let t = choose|t: int| 0 <= t < idx.len() && idx[t] == k;
            assert(bit_set(c, t as u32));
            assert((t as u32) < 32 && bit_set(c, t as u32) && idx[(t as u32) as int] == k);
        }
        if bit_set(r, k) {
            let j = choose|j: u32| j < 32 && bit_set(c, j) && #[trigger] idx[j as int] == k;
            assert(bit_set(sub, idx[j as int]));
        }
    }
    lemma_bits_ext(r, sub);
    assert(c < pow2(idx.len()) && combination_mask(idx, c) == sub);
}

} // verus!
