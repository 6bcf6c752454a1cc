//! The bit-address mapper.
//!
//! A gate on `k` qubits partitions the `2^n` basis indices into `2^(n-k)`
//! groups of `2^k`.  Each full index is equivalently a pair of a
//! *compressed index* over the non-participating bits and a `k`-bit
//! *pattern* over the participating bits.  `expand` builds a full index
//! from such a pair for a sorted set of participating positions, `compress`
//! decodes it again, and the two are proved to form a bijection.
//!
//! The `clear`/`set`/`row` family expresses the same addressing for a qubit
//! list in caller order, where the first listed qubit is the most
//! significant pattern bit; gate application addresses its groups this way.

use crate::bits::{
    bit_at, del_bit, ins_bit, lemma_bit_at_half, lemma_bit_at_low, lemma_bit_at_range,
    lemma_bit_at_ext, lemma_bit_at_weight, lemma_del_bit_at,
    lemma_clear_bit, lemma_del_bit_bound, lemma_del_ins_bit, lemma_ins_bit_at,
    lemma_ins_bit_bound, lemma_ins_del_bit, lemma_set_bit, lemma_set_bit_bound,
};
use crate::Qubit;
use vstd::arithmetic::div_mod::*;
use vstd::arithmetic::mul::*;
use vstd::arithmetic::power2::*;
use vstd::prelude::*;

verus! {

/// The index positions named by a list of qubit handles.
pub open spec fn idxs(qubits: Seq<Qubit>) -> Seq<usize> {
    qubits.map_values(|q: Qubit| q.index)
}

/// Strictly ascending positions (a sorted set).
pub open spec fn sorted_strict(pos: Seq<usize>) -> bool {
    forall|a: int, b: int| 0 <= a < b < pos.len() ==> pos[a] < pos[b]
}

/// Pairwise distinct positions.
pub open spec fn distinct_pos(pos: Seq<usize>) -> bool {
    forall|a: int, b: int| 0 <= a < b < pos.len() ==> pos[a] != pos[b]
}

/// Every position below `n`.
pub open spec fn all_below(pos: Seq<usize>, n: nat) -> bool {
    forall|a: int| 0 <= a < pos.len() ==> pos[a] < n
}

/// Does `r` occur among the first `j` positions?
pub open spec fn has_pos(pos: Seq<usize>, j: int, r: nat) -> bool {
    exists|m: int| 0 <= m < j && pos[m] as nat == r
}

/// Build a full index from a compressed index and a pattern, for strictly
/// ascending positions.  Bit `j` of the sorted position list receives bit
/// `k - 1 - j` of the pattern (the lowest position is the most significant
/// pattern bit), and the bits of `c` fill the remaining places in order.
pub open spec fn expand_rec(pos: Seq<usize>, c: int, p: int) -> int
    decreases pos.len(),
{
    if pos.len() == 0 {
        c
    } else {
        ins_bit(expand_rec(pos.drop_last(), c, p / 2), pos.last() as nat, p % 2)
    }
}

/// Recover the compressed index from a full index.
pub open spec fn compress_rec(pos: Seq<usize>, f: int) -> int
    decreases pos.len(),
{
    if pos.len() == 0 {
        f
    } else {
        compress_rec(pos.drop_last(), del_bit(f, pos.last() as nat))
    }
}

/// Recover the pattern from a full index.
pub open spec fn pattern_rec(pos: Seq<usize>, f: int) -> int
    decreases pos.len(),
{
    if pos.len() == 0 {
        0
    } else {
        pattern_rec(pos.drop_last(), del_bit(f, pos.last() as nat)) * 2 + bit_at(
            f,
            pos.last() as nat,
        )
    }
}

/// `expand` stays below `2^n` when its inputs are in range.
pub proof fn lemma_expand_bound(pos: Seq<usize>, c: int, p: int, n: nat)
    requires
        sorted_strict(pos),
        all_below(pos, n),
        pos.len() <= n,
        0 <= c < pow2((n - pos.len()) as nat),
        0 <= p,
    ensures
        0 <= expand_rec(pos, c, p) < pow2(n),
    decreases pos.len(),
{
    let k = pos.len();
    if k == 0 {
    } else {
        let pos2 = pos.drop_last();
        let q = pos.last() as nat;
        // every earlier position is below the last one, which is below n
        assert(all_below(pos2, (n - 1) as nat));
        assert(pow2((n - k) as nat) == pow2(((n - 1) - (k - 1)) as nat));
        assert(0 <= p / 2) by {
            lemma_div_pos_is_pos(p, 2);
        }
        lemma_expand_bound(pos2, c, p / 2, (n - 1) as nat);
        lemma_mod_division_less_than_divisor(p, 2);
        lemma_ins_bit_bound(expand_rec(pos2, c, p / 2), q, p % 2, (n - 1) as nat);
        assert(expand_rec(pos, c, p) == ins_bit(expand_rec(pos2, c, p / 2), q, p % 2));
    }
}

/// `expand` is non-negative for non-negative inputs (no order needed).
pub proof fn lemma_expand_nonneg(pos: Seq<usize>, c: int, p: int)
    requires
        0 <= c,
        0 <= p,
    ensures
        0 <= expand_rec(pos, c, p),
    decreases pos.len(),
{
    if pos.len() == 0 {
    } else {
        let e = expand_rec(pos.drop_last(), c, p / 2);
        lemma_div_pos_is_pos(p, 2);
        lemma_expand_nonneg(pos.drop_last(), c, p / 2);
        lemma_mod_division_less_than_divisor(p, 2);
        lemma_ins_bit_at(e, pos.last() as nat, p % 2);
    }
}

/// Decoding an expanded index recovers the compressed index and pattern.
pub proof fn lemma_expand_then_compress(pos: Seq<usize>, c: int, p: int)
    requires
        0 <= c,
        0 <= p < pow2(pos.len()),
    ensures
        compress_rec(pos, expand_rec(pos, c, p)) == c,
        pattern_rec(pos, expand_rec(pos, c, p)) == p,
    decreases pos.len(),
{
    let k = pos.len();
    if k == 0 {
        lemma2_to64();
        assert(pow2(0) == 1);
    } else {
        let pos2 = pos.drop_last();
        let q = pos.last() as nat;
        let e = expand_rec(pos2, c, p / 2);
        lemma_div_pos_is_pos(p, 2);
        lemma_mod_division_less_than_divisor(p, 2);
        assert(p / 2 < pow2((k - 1) as nat)) by {
            lemma_pow2_unfold(k);
            lemma_multiply_divide_lt(p, 2, pow2((k - 1) as nat) as int);
            lemma_mul_is_commutative(2, pow2((k - 1) as nat) as int);
        }
        lemma_expand_then_compress(pos2, c, p / 2);
        lemma_expand_nonneg(pos2, c, p / 2);
        let f = expand_rec(pos, c, p);
        assert(f == ins_bit(e, q, p % 2));
        lemma_del_ins_bit(e, q, p % 2);
        lemma_ins_bit_at(e, q, p % 2);
        assert(del_bit(f, q) == e);
        assert(compress_rec(pos, f) == compress_rec(pos2, e));
        assert(pattern_rec(pos, f) == pattern_rec(pos2, e) * 2 + bit_at(f, q));
        lemma_fundamental_div_mod(p, 2);
    }
}

/// Expanding a decoded index rebuilds it, and the decoded parts are
/// non-negative.
pub proof fn lemma_compress_then_expand(pos: Seq<usize>, f: int)
    requires
        0 <= f,
    ensures
        0 <= compress_rec(pos, f),
        0 <= pattern_rec(pos, f),
        expand_rec(pos, compress_rec(pos, f), pattern_rec(pos, f)) == f,
    decreases pos.len(),
{
    let k = pos.len();
    if k == 0 {
    } else {
        let pos2 = pos.drop_last();
        let q = pos.last() as nat;
        let d = del_bit(f, q);
        lemma_ins_del_bit(f, q);
        lemma_compress_then_expand(pos2, d);
        let c = compress_rec(pos, f);
        let p = pattern_rec(pos, f);
        assert(c == compress_rec(pos2, d));
        let p2 = pattern_rec(pos2, d);
        let b = bit_at(f, q);
        lemma_bit_at_range(f, q);
        assert(p == p2 * 2 + b);
        lemma_fundamental_div_mod_converse(p, 2, p2, b);
        assert(p / 2 == p2 && p % 2 == b);
        assert(expand_rec(pos, c, p) == ins_bit(expand_rec(pos2, c, p / 2), q, p % 2));
        assert(expand_rec(pos2, c, p2) == d);
    }
}

/// The decoded parts of a bounded index are bounded.
pub proof fn lemma_compress_bound(pos: Seq<usize>, f: int, n: nat)
    requires
        sorted_strict(pos),
        all_below(pos, n),
        pos.len() <= n,
        0 <= f < pow2(n),
    ensures
        compress_rec(pos, f) < pow2((n - pos.len()) as nat),
        pattern_rec(pos, f) < pow2(pos.len()),
    decreases pos.len(),
{
    let k = pos.len();
    if k == 0 {
        lemma2_to64();
    } else {
        let pos2 = pos.drop_last();
        let q = pos.last() as nat;
        let d = del_bit(f, q);
        lemma_del_bit_bound(f, q, (n - 1) as nat);
        assert(all_below(pos2, (n - 1) as nat));
        lemma_compress_bound(pos2, d, (n - 1) as nat);
        lemma_bit_at_range(f, q);
        assert(pattern_rec(pos, f) == pattern_rec(pos2, d) * 2 + bit_at(f, q));
        assert(pattern_rec(pos2, d) * 2 <= (pow2((k - 1) as nat) - 1) * 2) by {
            lemma_ins_del_bit(f, q);
            lemma_compress_then_expand(pos2, d);
            lemma_mul_inequality(pattern_rec(pos2, d), pow2((k - 1) as nat) - 1, 2);
        }
        lemma_pow2_unfold(k);
    }
}

/// The defining property of `expand` for a sorted qubit set: bit
/// `pos[j]` of the produced full index is bit `k - 1 - j` of the pattern.
pub proof fn lemma_expand_bits(pos: Seq<usize>, c: int, p: int, j: int)
    requires
        sorted_strict(pos),
        0 <= c,
        0 <= p,
        0 <= j < pos.len(),
    ensures
        bit_at(expand_rec(pos, c, p), pos[j] as nat) == bit_at(p, (pos.len() - 1 - j) as nat),
    decreases pos.len(),
{
    let k = pos.len();
    let pos2 = pos.drop_last();
    let q = pos.last() as nat;
    let e = expand_rec(pos2, c, p / 2);
    lemma_div_pos_is_pos(p, 2);
    lemma_mod_division_less_than_divisor(p, 2);
    lemma_expand_nonneg(pos2, c, p / 2);
    lemma_ins_bit_at(e, q, p % 2);
    let f = expand_rec(pos, c, p);
    assert(f == ins_bit(e, q, p % 2));
    if j == k - 1 {
        // the last (highest) position carries the lowest pattern bit
        lemma2_to64();
        assert(bit_at(p, 0) == p % 2) by {
            lemma_pow2_pos(0);
            assert(pow2(0) == 1);
            lemma_div_basics_1(p);
        }
    } else {
        assert(pos[j] < pos[k - 1]);
        lemma_expand_bits(pos2, c, p / 2, j);
        assert(bit_at(f, pos[j] as nat) == bit_at(e, pos[j] as nat)) by {
            lemma_bit_at_low(f, e, q, pos[j] as nat);
        }
        lemma_bit_at_half(p, (k - 2 - j) as nat);
    }
}

/// Clear the bits at the first `j` listed positions of `x`.
pub open spec fn clear_rec(pos: Seq<usize>, x: int, j: int) -> int
    decreases j,
{
    if j <= 0 {
        x
    } else {
        let y = clear_rec(pos, x, j - 1);
        y - bit_at(y, pos[j - 1] as nat) * pow2(pos[j - 1] as nat)
    }
}

/// Write the pattern `col` into the first `j` listed positions: position
/// `pos[m]` receives bit `k - 1 - m` of `col` (the first listed position
/// is the most significant pattern bit).
pub open spec fn setbits_rec(pos: Seq<usize>, base: int, col: int, j: int) -> int
    decreases j,
{
    if j <= 0 {
        base
    } else {
        setbits_rec(pos, base, col, j - 1) + bit_at(col, (pos.len() - j) as nat) * pow2(
            pos[j - 1] as nat,
        )
    }
}

/// Read the pattern held by the first `j` listed positions of `x`, with
/// the first listed position as the most significant bit.
pub open spec fn row_rec(pos: Seq<usize>, x: int, j: int) -> int
    decreases j,
{
    if j <= 0 {
        0
    } else {
        row_rec(pos, x, j - 1) + bit_at(x, pos[j - 1] as nat) * pow2((pos.len() - j) as nat)
    }
}

/// The pattern of `x` at the listed positions.
pub open spec fn row_of(pos: Seq<usize>, x: int) -> int {
    row_rec(pos, x, pos.len() as int)
}

/// The index `x` with the listed positions overwritten by the pattern
/// `col`: the address of matrix column `col` within `x`'s group.
pub open spec fn target_index(pos: Seq<usize>, x: int, col: int) -> int {
    setbits_rec(pos, clear_rec(pos, x, pos.len() as int), col, pos.len() as int)
}

/// Clearing positions zeroes exactly those bits and keeps the rest.
pub proof fn lemma_clear_rec_props(pos: Seq<usize>, x: int, j: int)
    requires
        distinct_pos(pos),
        0 <= x,
        0 <= j <= pos.len(),
    ensures
        0 <= clear_rec(pos, x, j) <= x,
        forall|m: int| 0 <= m < j ==> bit_at(clear_rec(pos, x, j), pos[m] as nat) == 0,
        forall|r: nat|
            !has_pos(pos, j, r) ==> bit_at(clear_rec(pos, x, j), r) == bit_at(x, r),
    decreases j,
{
    if j <= 0 {
    } else {
        lemma_clear_rec_props(pos, x, j - 1);
        let y = clear_rec(pos, x, j - 1);
        let q = pos[j - 1] as nat;
        lemma_clear_bit(y, q);
        let z = clear_rec(pos, x, j);
        assert(z == y - bit_at(y, q) * pow2(q));
        assert forall|m: int| 0 <= m < j implies bit_at(z, pos[m] as nat) == 0 by {
            if m < j - 1 {
                // distinct positions: clearing q does not disturb pos[m]
                assert(pos[m] != pos[j - 1]);
            }
        }
        assert forall|r: nat| !has_pos(pos, j, r) implies bit_at(z, r) == bit_at(x, r) by {
            assert(!has_pos(pos, j - 1, r));
            assert(pos[j - 1] as nat != r);
        }
    }
}

/// Setting pattern bits into cleared positions writes exactly those bits,
/// keeps every other bit, and stays below the bound.
pub proof fn lemma_setbits_rec_props(pos: Seq<usize>, base: int, col: int, j: int, n: nat)
    requires
        distinct_pos(pos),
        all_below(pos, n),
        0 <= base < pow2(n),
        0 <= col,
        0 <= j <= pos.len(),
        forall|m: int| 0 <= m < j ==> bit_at(base, pos[m] as nat) == 0,
    ensures
        0 <= setbits_rec(pos, base, col, j) < pow2(n),
        forall|m: int|
            0 <= m < j ==> bit_at(setbits_rec(pos, base, col, j), pos[m] as nat) == bit_at(
                col,
                (pos.len() - 1 - m) as nat,
            ),
        forall|r: nat|
            !has_pos(pos, j, r) ==> bit_at(setbits_rec(pos, base, col, j), r) == bit_at(base, r),
    decreases j,
{
    if j <= 0 {
    } else {
        lemma_setbits_rec_props(pos, base, col, j - 1, n);
        let y = setbits_rec(pos, base, col, j - 1);
        let q = pos[j - 1] as nat;
        let b = bit_at(col, (pos.len() - j) as nat);
        lemma_bit_at_range(col, (pos.len() - j) as nat);
        // position q was untouched so far, so it still holds base's zero bit
        assert(bit_at(y, q) == bit_at(base, q)) by {
            assert(!has_pos(pos, j - 1, q)) by {
                assert forall|m: int| 0 <= m < j - 1 implies pos[m] as nat != q by {
                    assert(pos[m] != pos[j - 1]);
                }
            }
        }
        lemma_set_bit(y, q, b);
        lemma_set_bit_bound(y, q, b, n);
        let z = setbits_rec(pos, base, col, j);
        assert(z == y + b * pow2(q));
        assert forall|m: int|
            0 <= m < j implies bit_at(z, pos[m] as nat) == bit_at(
            col,
            (pos.len() - 1 - m) as nat,
        ) by {
            if m < j - 1 {
                assert(pos[m] != pos[j - 1]);
            }
        }
        assert forall|r: nat| !has_pos(pos, j, r) implies bit_at(z, r) == bit_at(base, r) by {
            assert(!has_pos(pos, j - 1, r));
            assert(pos[j - 1] as nat != r);
        }
    }
}

/// The pattern read from `j` positions is below `2^j`'s share of `2^k`.
pub proof fn lemma_row_rec_bound(pos: Seq<usize>, x: int, j: int)
    requires
        0 <= x,
        0 <= j <= pos.len(),
    ensures
        0 <= row_rec(pos, x, j) <= pow2(pos.len()) - pow2((pos.len() - j) as nat),
    decreases j,
{
    let k = pos.len();
    if j <= 0 {
    } else {
        lemma_row_rec_bound(pos, x, j - 1);
        let q = pos[j - 1] as nat;
        lemma_bit_at_range(x, q);
        let w = pow2((k - j) as nat) as int;
        lemma_pow2_pos((k - j) as nat);
        assert(bit_at(x, q) * w <= w) by {
            lemma_mul_inequality(bit_at(x, q), 1, w);
            lemma_mul_nonnegative(bit_at(x, q), w);
        }
        lemma_pow2_unfold((k - j + 1) as nat);
    }
}

/// The group address is in range whenever the inputs are.
pub proof fn lemma_target_index_bound(pos: Seq<usize>, x: int, col: int, n: nat)
    requires
        distinct_pos(pos),
        all_below(pos, n),
        0 <= x < pow2(n),
        0 <= col,
    ensures
        0 <= target_index(pos, x, col) < pow2(n),
{
    let k = pos.len() as int;
    lemma_clear_rec_props(pos, x, k);
    lemma_setbits_rec_props(pos, clear_rec(pos, x, k), col, k, n);
}

/// Strictly ascending positions are pairwise distinct.
pub proof fn lemma_sorted_implies_distinct(pos: Seq<usize>)
    requires
        sorted_strict(pos),
    ensures
        distinct_pos(pos),
{
}

/// Two bounded indices that agree on every non-participating bit have the
/// same compressed index.
pub proof fn lemma_compress_same_outside(pos: Seq<usize>, x: int, y: int, n: nat)
    requires
        sorted_strict(pos),
        all_below(pos, n),
        pos.len() <= n,
        0 <= x < pow2(n),
        0 <= y < pow2(n),
        forall|r: nat|
            r < n && !has_pos(pos, pos.len() as int, r) ==> bit_at(x, r) == bit_at(y, r),
    ensures
        compress_rec(pos, x) == compress_rec(pos, y),
    decreases pos.len(),
{
    let k = pos.len() as int;
    if k == 0 {
        assert forall|r: nat| r < n implies bit_at(x, r) == bit_at(y, r) by {
            assert(!has_pos(pos, 0, r));
        }
        lemma_bit_at_ext(x, y, n);
    } else {
        let q = pos.last() as nat;
        let pos2 = pos.drop_last();
        let dx = del_bit(x, q);
        let dy = del_bit(y, q);
        lemma_del_bit_bound(x, q, (n - 1) as nat);
        lemma_del_bit_bound(y, q, (n - 1) as nat);
        assert(all_below(pos2, (n - 1) as nat));
        assert forall|r: nat|
            r < (n - 1) as nat && !has_pos(pos2, k - 1, r) implies bit_at(dx, r) == bit_at(
            dy,
            r,
        ) by {
            lemma_del_bit_at(x, q, r);
            lemma_del_bit_at(y, q, r);
            if r < q {
                assert(!has_pos(pos, k, r)) by {
                    if has_pos(pos, k, r) {
                        let m = choose|m: int| 0 <= m < k && pos[m] as nat == r;
                        assert(m < k - 1 ==> pos2[m] as nat == r);
                    }
                }
            } else {
                // r + 1 sits above the largest participating position
                assert(!has_pos(pos, k, (r + 1) as nat)) by {
                    if has_pos(pos, k, (r + 1) as nat) {
                        let m = choose|m: int| 0 <= m < k && pos[m] as nat == r + 1;
                        if m < k - 1 {
                            assert(pos[m] < pos[k - 1]);
                        }
                    }
                }
                assert(bit_at(x, (r + 1) as nat) == bit_at(y, (r + 1) as nat));
            }
        }
        lemma_compress_same_outside(pos2, dx, dy, (n - 1) as nat);
    }
}

/// Reading back the pattern bits written into an index reconstructs the
/// pattern: the partial row plus the unread low bits always make `p`.
proof fn lemma_row_reconstruct(pos: Seq<usize>, f: int, p: int, j: int)
    requires
        0 <= f,
        0 <= p < pow2(pos.len()),
        0 <= j <= pos.len(),
        forall|m: int|
            0 <= m < pos.len() ==> bit_at(f, #[trigger] pos[m] as nat) == bit_at(
                p,
                (pos.len() - 1 - m) as nat,
            ),
    ensures
        row_rec(pos, f, j) + p % pow2((pos.len() - j) as nat) as int == p,
    decreases j,
{
    let k = pos.len() as int;
    if j == 0 {
        lemma_pow2_pos(k as nat);
        lemma_small_mod(p as nat, pow2(k as nat));
    } else {
        lemma_row_reconstruct(pos, f, p, j - 1);
        let w = pow2((k - j) as nat) as int;
        lemma_pow2_pos((k - j) as nat);
        lemma_breakdown(p, w, 2);
        lemma_pow2_unfold((k - j + 1) as nat);
        lemma_mul_is_commutative(w, 2);
        assert(bit_at(p, (k - j) as nat) == (p / w) % 2);
        assert(bit_at(f, pos[j - 1] as nat) == bit_at(p, (k - j) as nat));
        lemma_mul_is_commutative(bit_at(p, (k - j) as nat), w);
    }
}

/// The engine's row of an expanded index is exactly the pattern that was
/// inserted: for a sorted qubit set the two address forms agree.
pub proof fn lemma_row_of_expand(pos: Seq<usize>, c: int, p: int)
    requires
        sorted_strict(pos),
        0 <= c,
        0 <= p < pow2(pos.len()),
    ensures
        row_of(pos, expand_rec(pos, c, p)) == p,
{
    let k = pos.len() as int;
    let f = expand_rec(pos, c, p);
    lemma_expand_nonneg(pos, c, p);
    assert forall|m: int|
        0 <= m < k implies bit_at(f, #[trigger] pos[m] as nat) == bit_at(
        p,
        (k - 1 - m) as nat,
    ) by {
        lemma_expand_bits(pos, c, p, m);
    }
    lemma_row_reconstruct(pos, f, p, k);
    lemma2_to64();
    lemma_div_basics(p);
    lemma_fundamental_div_mod(p, 1);
    lemma_mul_basics(p);
}

/// The row sum only reads the bits at the listed positions.
proof fn lemma_row_rec_same_bits(pos: Seq<usize>, x: int, y: int, j: int)
    requires
        0 <= j <= pos.len(),
        forall|m: int|
            0 <= m < pos.len() ==> bit_at(x, #[trigger] pos[m] as nat) == bit_at(
                y,
                pos[m] as nat,
            ),
    ensures
        row_rec(pos, x, j) == row_rec(pos, y, j),
    decreases j,
{
    if j > 0 {
        lemma_row_rec_same_bits(pos, x, y, j - 1);
    }
}

/// Dropping the last (highest) position halves every weight of the row.
proof fn lemma_row_rec_scale(pos: Seq<usize>, x: int, j: int)
    requires
        pos.len() >= 1,
        0 <= j <= pos.len() - 1,
    ensures
        row_rec(pos, x, j) == 2 * row_rec(pos.drop_last(), x, j),
    decreases j,
{
    let k = pos.len() as int;
    if j == 0 {
    } else {
        lemma_row_rec_scale(pos, x, j - 1);
        let pos2 = pos.drop_last();
        assert(pos2[j - 1] == pos[j - 1]);
        let b = bit_at(x, pos[j - 1] as nat);
        lemma_pow2_unfold((k - j) as nat);
        assert(b * pow2((k - j) as nat) == 2 * (b * pow2((k - 1 - j) as nat))) by {
            lemma_mul_is_associative(2, b, pow2((k - 1 - j) as nat) as int);
            lemma_mul_is_commutative(2, b);
            lemma_mul_is_associative(b, 2, pow2((k - 1 - j) as nat) as int);
        }
        lemma_mul_is_distributive_add(
            2,
            row_rec(pos2, x, j - 1),
            b * pow2((k - 1 - j) as nat) as int,
        );
    }
}

/// For a sorted qubit set, the decoded pattern and the engine's row are
/// one and the same reading of the participating bits.
pub proof fn lemma_pattern_is_row(pos: Seq<usize>, x: int)
    requires
        sorted_strict(pos),
        0 <= x,
    ensures
        pattern_rec(pos, x) == row_of(pos, x),
    decreases pos.len(),
{
    let k = pos.len() as int;
    if k == 0 {
    } else {
        let q = pos.last() as nat;
        let pos2 = pos.drop_last();
        let d = del_bit(x, q);
        lemma_ins_del_bit(x, q);
        lemma_pattern_is_row(pos2, d);
        // the low positions keep their bits under the deletion
        assert forall|m: int|
            0 <= m < pos2.len() implies bit_at(d, #[trigger] pos2[m] as nat) == bit_at(
            x,
            pos2[m] as nat,
        ) by {
            assert(pos2[m] < pos[k - 1]);
            lemma_del_bit_at(x, q, pos2[m] as nat);
        }
        lemma_row_rec_same_bits(pos2, d, x, k - 1);
        lemma_row_rec_scale(pos, x, k - 1);
        assert(row_of(pos, x) == 2 * row_rec(pos2, x, k - 1) + bit_at(x, q) * pow2(0)) by {
            lemma2_to64();
        }
        lemma_mul_basics(bit_at(x, q));
        lemma2_to64();
    }
}

/// The engine's group addressing agrees with the mapper's bijection:
/// overwriting the pattern bits of an expanded index yields exactly the
/// expansion of the new pattern over the same compressed index.
pub proof fn lemma_target_of_expand(pos: Seq<usize>, c: int, p: int, col: int, n: nat)
    requires
        sorted_strict(pos),
        all_below(pos, n),
        pos.len() <= n,
        0 <= c < pow2((n - pos.len()) as nat),
        0 <= p < pow2(pos.len()),
        0 <= col < pow2(pos.len()),
    ensures
        target_index(pos, expand_rec(pos, c, p), col) == expand_rec(pos, c, col),
{
    let k = pos.len() as int;
    lemma_sorted_implies_distinct(pos);
    let f = expand_rec(pos, c, p);
    lemma_expand_bound(pos, c, p, n);
    let base = clear_rec(pos, f, k);
    lemma_clear_rec_props(pos, f, k);
    let t = target_index(pos, f, col);
    lemma_setbits_rec_props(pos, base, col, k, n);
    // the non-participating bits of the target are those of f
    assert forall|r: nat|
        r < n && !has_pos(pos, k, r) implies bit_at(t, r) == bit_at(f, r) by {}
    lemma_compress_same_outside(pos, t, f, n);
    lemma_expand_then_compress(pos, c, p);
    assert(compress_rec(pos, t) == c);
    // the participating bits of the target read back as the new pattern
    assert forall|m: int|
        0 <= m < k implies bit_at(t, #[trigger] pos[m] as nat) == bit_at(
        col,
        (k - 1 - m) as nat,
    ) by {}
    lemma_row_reconstruct(pos, t, col, k);
    lemma2_to64();
    lemma_fundamental_div_mod(col, 1);
    lemma_div_basics(col);
    lemma_mul_basics(col);
    lemma_pattern_is_row(pos, t);
    assert(pattern_rec(pos, t) == col);
    lemma_compress_then_expand(pos, t);
}

/// In a strictly ascending list, positions grow at least as fast as their
/// rank.
pub proof fn lemma_sorted_gap(pos: Seq<usize>, a: int, b: int)
    requires
        sorted_strict(pos),
        0 <= a <= b < pos.len(),
    ensures
        pos[b] >= pos[a] + (b - a),
    decreases b - a,
{
    if a < b {
        lemma_sorted_gap(pos, a, b - 1);
    }
}

/// The matrix row selected by index `x`: the pattern its bits hold at the
/// listed positions, first listed qubit as the most significant bit.
pub fn row_of_exec(qubits: &Vec<Qubit>, x: usize) -> (r: usize)
    requires
        all_below(idxs(qubits@), 30),
        qubits.len() <= 30,
        x < pow2(30),
    ensures
        r == row_of(idxs(qubits@), x as int),
        r < pow2(qubits.len() as nat),
{
    let ghost pos = idxs(qubits@);
    let k = qubits.len();
    let mut r: usize = 0;
    let mut j: usize = 0;
    while j < k
        invariant
            j <= k <= 30,
            pos == idxs(qubits@),
            qubits.len() == k,
            x < pow2(30),
            all_below(pos, 30),
            r == row_rec(pos, x as int, j as int),
        decreases k - j,
    {
        let q = qubits[j].index;
        proof {
            assert(pos[j as int] == q);
        }
        let pq = pow2_usize(q);
        let pw = pow2_usize(k - 1 - j);
        proof {
            lemma_pow2_pos(q as nat);
            lemma_row_rec_bound(pos, x as int, j as int);
            lemma_bit_at_range(x as int, q as nat);
            lemma_pow2_pos((k - 1 - j) as nat);
            lemma_pow2_strictly_increases((k - 1 - j) as nat, 31);
            lemma_pow2_strictly_increases(k as nat, 31);
            lemma2_to64();
            lemma_mul_inequality((x as int / pq as int) % 2, 1, pw as int);
            lemma_mul_nonnegative((x as int / pq as int) % 2, pw as int);
        }
        let b = (x / pq) % 2;
        r = r + b * pw;
        j = j + 1;
    }
    proof {
        lemma_row_rec_bound(pos, x as int, k as int);
        lemma2_to64();
        lemma_pow2_pos(k as nat);
    }
    r
}

/// The full index obtained from `x` by overwriting the listed positions
/// with the pattern `col` (the address of matrix column `col` inside
/// `x`'s group).
pub fn target_exec(qubits: &Vec<Qubit>, x: usize, col: usize) -> (r: usize)
    requires
        distinct_pos(idxs(qubits@)),
        all_below(idxs(qubits@), 30),
        qubits.len() <= 30,
        x < pow2(30),
    ensures
        r == target_index(idxs(qubits@), x as int, col as int),
        r < pow2(30),
{
    let ghost pos = idxs(qubits@);
    let k = qubits.len();
    let mut base: usize = x;
    let mut j: usize = 0;
    while j < k
        invariant
            j <= k <= 30,
            pos == idxs(qubits@),
            qubits.len() == k,
            x < pow2(30),
            all_below(pos, 30),
            distinct_pos(pos),
            base == clear_rec(pos, x as int, j as int),
            base <= x,
        decreases k - j,
    {
        let q = qubits[j].index;
        proof {
            assert(pos[j as int] == q);
        }
        let pq = pow2_usize(q);
        proof {
            lemma_pow2_pos(q as nat);
            lemma_clear_rec_props(pos, x as int, j as int);
            lemma_bit_at_range(base as int, q as nat);
            if bit_at(base as int, q as nat) == 1 {
                lemma_bit_at_weight(base as int, q as nat);
            }
            lemma_mul_inequality(bit_at(base as int, q as nat), 1, pq as int);
            lemma_mul_nonnegative(bit_at(base as int, q as nat), pq as int);
        }
        let b = (base / pq) % 2;
        proof {
            assert(b == bit_at(base as int, q as nat));
            if b == 1 {
                assert(b * pq <= base);
            } else {
                assert(b * pq == 0) by {
                    lemma_mul_basics(pq as int);
                }
            }
        }
        base = base - b * pq;
        j = j + 1;
    }
    let ghost base0 = clear_rec(pos, x as int, k as int);
    proof {
        lemma_clear_rec_props(pos, x as int, k as int);
    }
    let mut t: usize = base;
    let mut j2: usize = 0;
    while j2 < k
        invariant
            j2 <= k <= 30,
            pos == idxs(qubits@),
            qubits.len() == k,
            all_below(pos, 30),
            distinct_pos(pos),
            base0 == clear_rec(pos, x as int, k as int),
            0 <= base0 < pow2(30),
            forall|m: int| 0 <= m < k ==> bit_at(base0, pos[m] as nat) == 0,
            t == setbits_rec(pos, base0, col as int, j2 as int),
            t < pow2(30),
        decreases k - j2,
    {
        let q = qubits[j2].index;
        proof {
            assert(pos[j2 as int] == q);
        }
        let pq = pow2_usize(q);
        let pw = pow2_usize(k - 1 - j2);
        proof {
            lemma_pow2_pos(q as nat);
            lemma_pow2_pos((k - 1 - j2) as nat);
            lemma_bit_at_range(col as int, (k - 1 - j2) as nat);
            lemma_pow2_strictly_increases(q as nat, 30);
            lemma2_to64();
            lemma_mul_inequality(bit_at(col as int, (k - 1 - j2) as nat), 1, pq as int);
            lemma_mul_nonnegative(bit_at(col as int, (k - 1 - j2) as nat), pq as int);
            lemma_setbits_rec_props(pos, base0, col as int, (j2 + 1) as int, 30);
        }
        let b = (col / pw) % 2;
        t = t + b * pq;
        j2 = j2 + 1;
    }
    t
}

/// `2^k` as a machine word.
pub fn pow2_usize(k: usize) -> (r: usize)
    requires
        k <= 31,
    ensures
        r == pow2(k as nat),
{
    let mut r: usize = 1;
    let mut i: usize = 0;
    proof {
        lemma2_to64();
    }
    while i < k
        invariant
            i <= k <= 31,
            r == pow2(i as nat),
        decreases k - i,
    {
        proof {
            lemma_pow2_unfold((i + 1) as nat);
            if i + 1 < 31 {
                lemma_pow2_strictly_increases((i + 1) as nat, 31);
            }
            lemma2_to64();
            assert(2 * pow2(i as nat) <= 0x80000000);
        }
        r = r * 2;
        i = i + 1;
    }
    r
}

/// The two masks of the one-qubit address split: `upper` selects the bits
/// strictly above the qubit's position (in the widened index), `lower` the
/// bits strictly below it.
pub fn mask_pair(qubit: &Qubit) -> (r: (usize, usize))
    requires
        qubit.index <= 30,
    ensures
        r.0 == usize::MAX - (pow2((qubit.index + 1) as nat) - 1),
        r.1 == pow2(qubit.index as nat) - 1,
{
    let p1 = pow2_usize(qubit.index + 1);
    let p = pow2_usize(qubit.index);
    proof {
        lemma_pow2_strictly_increases((qubit.index + 1) as nat, 32);
        lemma2_to64();
    }
    (usize::MAX - (p1 - 1), p - 1)
}

/// The pair of full indices that share the compressed index `index` over
/// all qubits but the given one: first the index with that qubit at 0,
/// then with it at 1.
pub fn index_pair(index: usize, qubit: &Qubit, upper_mask: usize, lower_mask: usize) -> (r: (
    usize,
    usize,
))
    requires
        qubit.index <= 30,
        index < 0x40000000,
        upper_mask == usize::MAX - (pow2((qubit.index + 1) as nat) - 1),
        lower_mask == pow2(qubit.index as nat) - 1,
    ensures
        r.0 == ins_bit(index as int, qubit.index as nat, 0),
        r.1 == ins_bit(index as int, qubit.index as nat, 1),
{
    let q = qubit.index;
    proof {
        lemma_pow2_strictly_increases((q + 1) as nat, 32);
        lemma2_to64();
        lemma_pow2_pos(q as nat);
        lemma_pow2_unfold((q + 1) as nat);
    }
    let p1 = usize::MAX - upper_mask + 1;
    let p = lower_mask + 1;
    let doubled = index * 2;
    proof {
        lemma_fundamental_div_mod(doubled as int, p1 as int);
        lemma_mod_division_less_than_divisor(doubled as int, p1 as int);
        lemma_div_pos_is_pos(doubled as int, p1 as int);
        lemma_mul_nonnegative(doubled as int / p1 as int, p1 as int);
        lemma_mul_is_commutative(p1 as int, doubled as int / p1 as int);
        lemma_mod_division_less_than_divisor(index as int, p as int);
        lemma_div_pos_is_pos(index as int, p as int);
    }
    let iz = (doubled / p1) * p1 + index % p;
    let io = iz + p;
    proof {
        // (2 * index) / 2^(q+1) == index / 2^q
        assert(doubled as int / p1 as int == index as int / p as int) by {
            lemma_div_denominator(doubled as int, 2, p as int);
            lemma_div_multiples_vanish(index as int, 2);
            lemma_mul_is_commutative(2, p as int);
        }
        lemma_mod_division_less_than_divisor(index as int, p as int);
        lemma_mul_basics_2(p as int);
    }
    (iz, io)
}

/// Build the full index that carries `compressed` on the non-participating
/// bits and `pattern` on the given (strictly ascending) qubit positions.
pub fn expand(qubits: &Vec<Qubit>, compressed: usize, pattern: usize) -> (r: usize)
    requires
        sorted_strict(idxs(qubits@)),
        all_below(idxs(qubits@), 30),
        qubits.len() <= 30,
        compressed < pow2((30 - qubits.len()) as nat),
        pattern < pow2(qubits.len() as nat),
    ensures
        r == expand_rec(idxs(qubits@), compressed as int, pattern as int),
        r < pow2(30),
{
    let ghost pos = idxs(qubits@);
    let k = qubits.len();
    let mut x: usize = compressed;
    let mut j: usize = 0;
    proof {
        lemma2_to64();
        assert(pos.take(0) =~= Seq::<usize>::empty());
        lemma_pow2_pos((30 - k) as nat);
    }
    while j < k
        invariant
            j <= k <= 30,
            sorted_strict(pos),
            all_below(pos, 30),
            pos == idxs(qubits@),
            qubits.len() == k,
            pattern < pow2(k as nat),
            x == expand_rec(pos.take(j as int), compressed as int, pattern as int / pow2((k
                - j) as nat) as int),
            x < pow2((30 - (k - j)) as nat),
        decreases k - j,
    {
        let q = qubits[j].index;
        proof {
            assert(pos[j as int] == q);
            if j < k - 1 {
                lemma_sorted_gap(pos, j as int, k - 1);
            }
            assert(q + (k - 1 - j) <= 29);
        }
        let pq = pow2_usize(q);
        let pb = pow2_usize(k - 1 - j);
        proof {
            lemma_pow2_pos(q as nat);
            lemma_pow2_pos((k - 1 - j) as nat);
        }
        let b = (pattern / pb) % 2;
        proof {
            lemma_mod_division_less_than_divisor(
                pattern as int / pow2((k - 1 - j) as nat) as int,
                2,
            );
            lemma_div_pos_is_pos(pattern as int, pow2((k - 1 - j) as nat) as int);
            lemma_mod_division_less_than_divisor(x as int, pq as int);
            lemma_div_pos_is_pos(x as int, pq as int);
            lemma_pow2_unfold((q + 1) as nat);
            // the new value is the old one with bit b inserted at q
            lemma_ins_bit_bound(x as int, q as nat, b as int, (30 - (k - j)) as nat);
            lemma_pow2_strictly_increases((30 - (k - j) + 1) as nat, 32);
            lemma2_to64();
            lemma_mul_nonnegative(x as int / pq as int, 2 * pq);
            lemma_mul_nonnegative(b as int, pq as int);
        }
        let x2 = (x / pq) * (2 * pq) + b * pq + x % pq;
        proof {
            let jj = j as int;
            let pnext = pattern as int / pow2((k - jj - 1) as nat) as int;
            assert(x2 == ins_bit(x as int, q as nat, b as int));
            // the top j+1 pattern bits extend the top j bits by b
            assert(pnext / 2 == pattern as int / pow2((k - jj) as nat) as int) by {
                lemma_div_denominator(pattern as int, pow2((k - jj - 1) as nat) as int, 2);
                lemma_pow2_adds((k - jj - 1) as nat, 1);
                lemma2_to64();
            }
            assert(pnext % 2 == b);
            assert(pos.take(jj + 1).drop_last() =~= pos.take(jj));
            assert(pos.take(jj + 1).last() == pos[jj]);
            assert(expand_rec(pos.take(jj + 1), compressed as int, pnext) == ins_bit(
                expand_rec(pos.take(jj), compressed as int, pnext / 2),
                q as nat,
                pnext % 2,
            ));
        }
        x = x2;
        j = j + 1;
    }
    proof {
        assert(pos.take(k as int) =~= pos);
        lemma2_to64();
        lemma_div_basics(pattern as int);
    }
    x
}

/// Decode a full index into its compressed index and pattern for the
/// given (strictly ascending) qubit positions.
pub fn compress(qubits: &Vec<Qubit>, full: usize) -> (r: (usize, usize))
    requires
        sorted_strict(idxs(qubits@)),
        all_below(idxs(qubits@), 30),
        qubits.len() <= 30,
        full < pow2(30),
    ensures
        r.0 == compress_rec(idxs(qubits@), full as int),
        r.1 == pattern_rec(idxs(qubits@), full as int),
{
    let ghost pos = idxs(qubits@);
    let k = qubits.len();
    let mut x: usize = full;
    let mut pat: usize = 0;
    let mut j: usize = k;
    proof {
        assert(pos.take(k as int) =~= pos);
        lemma2_to64();
        lemma_mul_basics(pattern_rec(pos, full as int));
    }
    while j > 0
        invariant
            j <= k <= 30,
            pos == idxs(qubits@),
            qubits.len() == k,
            all_below(pos, 30),
            x <= full < pow2(30),
            pat < pow2((k - j) as nat),
            compress_rec(pos, full as int) == compress_rec(pos.take(j as int), x as int),
            pattern_rec(pos, full as int) == pattern_rec(pos.take(j as int), x as int) * pow2((k
                - j) as nat) + pat,
        decreases j,
    {
        let q = qubits[j - 1].index;
        proof {
            assert(pos[j - 1] == q);
        }
        let pq = pow2_usize(q);
        let pw = pow2_usize(k - j);
        proof {
            lemma_pow2_pos(q as nat);
            lemma_pow2_pos((k - j) as nat);
        }
        let b = (x / pq) % 2;
        proof {
            lemma_pow2_strictly_increases(q as nat, 30);
            lemma2_to64();
            lemma_pow2_unfold((q + 1) as nat);
            lemma_mod_division_less_than_divisor(x as int / pq as int, 2);
            lemma_div_pos_is_pos(x as int, pq as int);
            lemma_mod_division_less_than_divisor(x as int, pq as int);
            lemma_div_pos_is_pos(x as int, 2 * pq as int);
            lemma_mul_nonnegative(x as int / (2 * pq as int), pq as int);
            // the stripped value cannot exceed the current one
            assert((x as int / (2 * pq as int)) * pq as int + x as int % pq as int
                <= x as int) by {
                let a = x as int / (2 * pq as int);
                lemma_div_pos_is_pos(x as int, 2 * pq as int);
                lemma_mul_inequality(pq as int, 2 * pq as int, a);
                lemma_mul_is_commutative(pq as int, a);
                lemma_mul_is_commutative(2 * pq as int, a);
                lemma_fundamental_div_mod(x as int, 2 * pq as int);
                lemma_mod_division_less_than_divisor(x as int, 2 * pq as int);
                // the remainder below 2^q is part of the remainder below 2^(q+1)
                lemma_breakdown(x as int, pq as int, 2);
                lemma_mod_division_less_than_divisor(x as int / pq as int, 2);
                lemma_mul_nonnegative(pq as int, (x as int / pq as int) % 2);
                lemma_mul_is_commutative(pq as int, 2);
            }
            lemma_fundamental_div_mod(x as int, 2 * pq as int);
            lemma_mod_division_less_than_divisor(x as int, 2 * pq as int);
            // the pattern bit fits ahead of the accumulator
            lemma_bit_at_range(x as int, q as nat);
            assert((x as int / pq as int) % 2 <= 1);
            lemma_mul_inequality(((x as int / pq as int) % 2), 1, pw as int);
            lemma_mul_nonnegative(((x as int / pq as int) % 2), pw as int);
            if (k - j) < 31 {
                lemma_pow2_strictly_increases((k - j) as nat, 31);
            }
            lemma2_to64();
        }
        let x2 = (x / (2 * pq)) * pq + x % pq;
        let pat2 = b * pw + pat;
        proof {
            let jj = j as int;
            assert(x2 == del_bit(x as int, q as nat));
            assert(b == bit_at(x as int, q as nat));
            assert(pos.take(jj).drop_last() =~= pos.take(jj - 1));
            assert(pos.take(jj).last() == pos[jj - 1]);
            let pr = pattern_rec(pos.take(jj - 1), x2 as int);
            assert(pattern_rec(pos.take(jj), x as int) == pr * 2 + b);
            // fold the new bit into the accumulated pattern
            assert((pr * 2 + b) * pow2((k - jj) as nat) + pat == pr * pow2((k - jj + 1) as nat)
                + (b * pow2((k - jj) as nat) + pat)) by {
                lemma_mul_is_distributive_add_other_way(
                    pow2((k - jj) as nat) as int,
                    pr * 2,
                    b as int,
                );
                lemma_mul_is_associative(pr, 2, pow2((k - jj) as nat) as int);
                lemma_pow2_adds(1, (k - jj) as nat);
                lemma2_to64();
                lemma_mul_is_commutative(2, pow2((k - jj) as nat) as int);
                lemma_mul_is_associative(pr, pow2((k - jj) as nat) as int, 2);
            }
            // the pattern accumulator stays in range
            assert(pat2 < pow2((k - jj + 1) as nat)) by {
                lemma_bit_at_range(x as int, q as nat);
                lemma_mul_inequality(b as int, 1, pw as int);
                lemma_mul_nonnegative(b as int, pw as int);
                lemma_pow2_adds(1, (k - jj) as nat);
                lemma2_to64();
            }
            lemma_pow2_strictly_increases((k - jj + 1) as nat, 32);
            lemma2_to64();
        }
        x = x2;
        pat = pat2;
        j = j - 1;
    }
    proof {
        assert(pos.take(0) =~= Seq::<usize>::empty());
        lemma2_to64();
        lemma_mul_basics(pattern_rec(pos.take(0), x as int));
    }
    (x, pat)
}

} // verus!
