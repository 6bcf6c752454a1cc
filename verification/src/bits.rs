//! Bit-level arithmetic on register indices.
//!
//! A basis-state index is a non-negative integer whose bit `q` holds the
//! classical value of qubit `q`.  Everything here is expressed with plain
//! integer division and remainder by powers of two, so that the address
//! arithmetic of the simulator can be reasoned about without bit vectors.

use vstd::arithmetic::div_mod::*;
use vstd::arithmetic::mul::*;
use vstd::arithmetic::power2::*;
use vstd::prelude::*;

verus! {

/// The value (0 or 1) of bit `q` of the index `x`.
pub open spec fn bit_at(x: int, q: nat) -> int {
    (x / pow2(q) as int) % 2
}

/// Insert the bit `b` into `x` at position `q`: bits of `x` at positions
/// `>= q` are shifted up by one, `b` becomes bit `q` of the result.
pub open spec fn ins_bit(x: int, q: nat, b: int) -> int {
    (x / pow2(q) as int) * pow2(q + 1) as int + b * pow2(q) as int + x % pow2(q) as int
}

/// Remove bit `q` from `x`: bits above `q` are shifted down by one, the
/// bits below `q` are kept.  This is the inverse of `ins_bit`.
pub open spec fn del_bit(x: int, q: nat) -> int {
    (x / pow2(q + 1) as int) * pow2(q) as int + x % pow2(q) as int
}

/// Bits are always 0 or 1.
pub proof fn lemma_bit_at_range(x: int, q: nat)
    requires
        x >= 0,
    ensures
        0 <= bit_at(x, q) <= 1,
{
    lemma_pow2_pos(q);
    lemma_div_pos_is_pos(x, pow2(q) as int);
    lemma_mod_division_less_than_divisor(x / pow2(q) as int, 2);
}

/// A set bit contributes at least its own weight: if bit `q` of `x` is 1
/// then `x >= 2^q`.
pub proof fn lemma_bit_at_weight(x: int, q: nat)
    requires
        x >= 0,
        bit_at(x, q) == 1,
    ensures
        x >= pow2(q),
{
    let p = pow2(q) as int;
    lemma_pow2_pos(q);
    lemma_fundamental_div_mod(x, p);
    lemma_mod_division_less_than_divisor(x, p);
    lemma_div_pos_is_pos(x, p);
    // x == (x / p) * p + x % p, and x / p >= 1 because its parity is 1
    assert(x / p >= 1);
    lemma_mul_inequality(1, x / p, p);
}

/// Two indices that agree below position `q` have equal bits at every
/// position `r < q`.
pub proof fn lemma_bit_at_low(x: int, y: int, q: nat, r: nat)
    requires
        x >= 0,
        y >= 0,
        r < q,
        x % pow2(q) as int == y % pow2(q) as int,
    ensures
        bit_at(x, r) == bit_at(y, r),
{
    let pr = pow2(r) as int;
    let pq = pow2(q) as int;
    lemma_pow2_pos(r);
    lemma_pow2_pos(q);
    lemma_pow2_pos((q - r) as nat);
    lemma_pow2_adds(r, (q - r) as nat);
    let m = pow2((q - r) as nat) as int;
    // pq == pr * m with m even, so x / pr == (x / pq) * m + (x % pq) / pr
    lemma_bit_split(x, q, r);
    lemma_bit_split(y, q, r);
    lemma_pow2_unfold((q - r) as nat);
    let me = pow2((q - r - 1) as nat) as int;
    // m == 2 * me: the quotient contribution is even, so the parity of
    // x / pr is that of (x % pq) / pr
    assert((x / pq * m + x % pq / pr) % 2 == (x % pq / pr) % 2) by {
        assert(x / pq * m == (x / pq * me) * 2) by {
            lemma_mul_is_associative(x / pq, me, 2);
        }
        lemma_mod_multiples_vanish(x / pq * me, x % pq / pr, 2);
    }
    assert((y / pq * m + y % pq / pr) % 2 == (y % pq / pr) % 2) by {
        assert(y / pq * m == (y / pq * me) * 2) by {
            lemma_mul_is_associative(y / pq, me, 2);
        }
        lemma_mod_multiples_vanish(y / pq * me, y % pq / pr, 2);
    }
}

/// Decompose a quotient: for `r <= q`, `x / 2^r` splits into the part of
/// `x` above `2^q` and the low remainder.
proof fn lemma_bit_split(x: int, q: nat, r: nat)
    requires
        x >= 0,
        r < q,
    ensures
        x / pow2(r) as int == x / pow2(q) as int * pow2((q - r) as nat) as int + x % pow2(
            q,
        ) as int / pow2(r) as int,
{
    let pr = pow2(r) as int;
    let pq = pow2(q) as int;
    let m = pow2((q - r) as nat) as int;
    lemma_pow2_pos(r);
    lemma_pow2_pos(q);
    lemma_pow2_pos((q - r) as nat);
    lemma_pow2_adds(r, (q - r) as nat);
    assert(pq == pr * m);
    lemma_fundamental_div_mod(x, pq);
    let h = x / pq;
    let l = x % pq;
    lemma_mod_division_less_than_divisor(x, pq);
    lemma_div_pos_is_pos(x, pq);
    // x == h * (pr * m) + l; dividing by pr gives h * m + l / pr
    lemma_fundamental_div_mod(l, pr);
    lemma_mod_division_less_than_divisor(l, pr);
    lemma_div_pos_is_pos(l, pr);
    let lh = l / pr;
    let ll = l % pr;
    assert(x == h * (pr * m) + (lh * pr + ll));
    assert(h * (pr * m) == (h * m) * pr) by {
        lemma_mul_is_associative(h, pr, m);
        lemma_mul_is_commutative(pr, m);
        lemma_mul_is_associative(h, m, pr);
    }
    assert(x == (h * m + lh) * pr + ll) by {
        lemma_mul_is_distributive_add_other_way(pr, h * m, lh);
    }
    // l / pr < m because l < pq == pr * m
    assert(lh < m) by {
        lemma_multiply_divide_lt(l, pr, m);
    }
    lemma_mul_nonnegative(h, m);
    lemma_fundamental_div_mod_converse(x, pr, h * m + lh, ll);
}

/// `ins_bit` places `b` at position `q`.
pub proof fn lemma_ins_bit_at(x: int, q: nat, b: int)
    requires
        x >= 0,
        0 <= b <= 1,
    ensures
        ins_bit(x, q, b) >= 0,
        bit_at(ins_bit(x, q, b), q) == b,
        ins_bit(x, q, b) % pow2(q) as int == x % pow2(q) as int,
        ins_bit(x, q, b) / pow2(q + 1) as int == x / pow2(q) as int,
{
    let p = pow2(q) as int;
    let h = x / p;
    let l = x % p;
    lemma_pow2_pos(q);
    lemma_pow2_unfold(q + 1);
    lemma_mod_division_less_than_divisor(x, p);
    lemma_div_pos_is_pos(x, p);
    let y = ins_bit(x, q, b);
    // y == (2h + b) * p + l with 0 <= l < p
    assert(y == (2 * h + b) * p + l) by {
        assert(h * (p * 2) == (2 * h) * p) by {
            lemma_mul_is_associative(h, p, 2);
            lemma_mul_is_commutative(h, p * 2);
            lemma_mul_is_associative(2, h, p);
            lemma_mul_is_commutative(p, 2);
        }
        lemma_mul_is_distributive_add_other_way(p, 2 * h, b);
    }
    lemma_mul_nonnegative(2 * h + b, p);
    lemma_fundamental_div_mod_converse(y, p, 2 * h + b, l);
    assert(y / p == 2 * h + b);
    lemma_fundamental_div_mod_converse(2 * h + b, 2, h, b);
    assert((2 * h + b) % 2 == b) by {
        assert(2 * h + b == h * 2 + b);
    }
    // y / pow2(q + 1) == h, dividing first by p and then by 2
    lemma_div_denominator(y, p, 2);
    lemma_mul_is_commutative(p, 2);
}

/// `del_bit` undoes `ins_bit`.
pub proof fn lemma_del_ins_bit(x: int, q: nat, b: int)
    requires
        x >= 0,
        0 <= b <= 1,
    ensures
        del_bit(ins_bit(x, q, b), q) == x,
{
    lemma_ins_bit_at(x, q, b);
    lemma_pow2_pos(q);
    lemma_fundamental_div_mod(x, pow2(q) as int);
}

/// `ins_bit` undoes `del_bit` when the removed bit is put back.
pub proof fn lemma_ins_del_bit(x: int, q: nat)
    requires
        x >= 0,
    ensures
        del_bit(x, q) >= 0,
        ins_bit(del_bit(x, q), q, bit_at(x, q)) == x,
{
    let p = pow2(q) as int;
    let p1 = pow2(q + 1) as int;
    lemma_pow2_pos(q);
    lemma_pow2_unfold(q + 1);
    let g = x / p1;
    let l = x % p;
    let h = x / p;
    lemma_mod_division_less_than_divisor(x, p);
    lemma_div_pos_is_pos(x, p);
    lemma_div_pos_is_pos(x, p1);
    // h == 2 g + beta where beta == bit_at(x, q)
    lemma_div_denominator(x, p, 2);
    lemma_mul_is_commutative(p, 2);
    assert(h / 2 == g);
    lemma_fundamental_div_mod(h, 2);
    lemma_mod_division_less_than_divisor(h, 2);
    let beta = h % 2;
    let d = del_bit(x, q);
    assert(d == g * p + l);
    lemma_mul_nonnegative(g, p);
    lemma_fundamental_div_mod_converse(d, p, g, l);
    // now reassemble: ins_bit(d, q, beta) == (2 g + beta) * p + l == h * p + l == x
    let y = ins_bit(d, q, beta);
    assert(y == g * (p * 2) + beta * p + l);
    assert(g * (p * 2) + beta * p == h * p) by {
        lemma_mul_is_associative(g, p, 2);
        lemma_mul_is_commutative(g * p, 2);
        lemma_mul_is_distributive_add_other_way(p, 2 * g, beta);
        lemma_mul_is_associative(2, g, p);
        lemma_mul_is_commutative(2, g);
    }
    lemma_fundamental_div_mod(x, p);
}

/// Inserting below a bound keeps the result below the doubled bound.
pub proof fn lemma_ins_bit_bound(x: int, q: nat, b: int, n: nat)
    requires
        0 <= x < pow2(n),
        0 <= b <= 1,
        q <= n,
    ensures
        0 <= ins_bit(x, q, b) < pow2(n + 1),
{
    let p = pow2(q) as int;
    let h = x / p;
    let l = x % p;
    lemma_pow2_pos(q);
    lemma_pow2_unfold(q + 1);
    lemma_mod_division_less_than_divisor(x, p);
    lemma_div_pos_is_pos(x, p);
    let hm = pow2((n - q) as nat) as int;
    lemma_pow2_adds(q, (n - q) as nat);
    assert(h < hm) by {
        lemma_pow2_pos((n - q) as nat);
        lemma_multiply_divide_lt(x, p, hm);
    }
    let y = ins_bit(x, q, b);
    assert(y <= (hm - 1) * (p * 2) + p + (p - 1)) by {
        assert(h * pow2(q + 1) as int == h * (p * 2));
        lemma_mul_inequality(h, hm - 1, p * 2);
        lemma_mul_nonnegative(h, p * 2);
        lemma_mul_inequality(b, 1, p);
        lemma_mul_nonnegative(b, p);
    }
    assert((hm - 1) * (p * 2) == hm * p * 2 - p * 2) by {
        lemma_mul_is_distributive_sub_other_way(p * 2, hm, 1);
        lemma_mul_is_associative(hm, p, 2);
    }
    lemma_pow2_adds(n, 1);
    assert(pow2(n + 1) as int == pow2(n) as int * 2) by {
        lemma2_to64();
    }
    assert(hm * p * 2 == pow2(n + 1) as int) by {
        lemma_mul_is_commutative(hm, p);
    }
}

/// Deleting a bit from a bounded index shrinks the bound by one place.
pub proof fn lemma_del_bit_bound(x: int, q: nat, n: nat)
    requires
        0 <= x < pow2(n + 1),
        q <= n,
    ensures
        0 <= del_bit(x, q) < pow2(n),
{
    let p = pow2(q) as int;
    let p1 = pow2(q + 1) as int;
    lemma_pow2_pos(q);
    lemma_pow2_unfold(q + 1);
    let g = x / p1;
    let l = x % p;
    lemma_mod_division_less_than_divisor(x, p);
    lemma_div_pos_is_pos(x, p1);
    let gm = pow2((n - q) as nat) as int;
    lemma_pow2_adds(q + 1, (n - q) as nat);
    assert(pow2(n + 1) as int == p1 * gm);
    assert(g < gm) by {
        lemma_pow2_pos((n - q) as nat);
        lemma_multiply_divide_lt(x, p1, gm);
    }
    assert(del_bit(x, q) <= (gm - 1) * p + (p - 1)) by {
        lemma_mul_inequality(g, gm - 1, p);
        lemma_mul_nonnegative(g, p);
    }
    assert((gm - 1) * p == gm * p - p) by {
        lemma_mul_is_distributive_sub_other_way(p, gm, 1);
    }
    lemma_pow2_adds(q, (n - q) as nat);
    lemma_mul_is_commutative(gm, p);
}

/// Clearing a set bit zeroes that position and leaves every other bit alone.
pub proof fn lemma_clear_bit(x: int, q: nat)
    requires
        x >= 0,
    ensures
        0 <= x - bit_at(x, q) * pow2(q) <= x,
        bit_at(x - bit_at(x, q) * pow2(q), q) == 0,
        forall|r: nat| r != q ==> bit_at(x - bit_at(x, q) * pow2(q), r) == bit_at(x, r),
{
    let p = pow2(q) as int;
    let h = x / p;
    let l = x % p;
    lemma_pow2_pos(q);
    lemma_bit_at_range(x, q);
    let b = bit_at(x, q);
    let y = x - b * p;
    lemma_fundamental_div_mod(x, p);
    lemma_mod_division_less_than_divisor(x, p);
    lemma_div_pos_is_pos(x, p);
    lemma_fundamental_div_mod(h, 2);
    lemma_mod_division_less_than_divisor(h, 2);
    lemma_div_pos_is_pos(h, 2);
    let g = h / 2;
    // y == (h - b) * p + l and h - b == 2 g
    assert(y == (h - b) * p + l) by {
        lemma_mul_is_distributive_sub_other_way(p, h, b);
    }
    assert(h - b == 2 * g);
    lemma_mul_nonnegative(g, p);
    assert((2 * g) * p == g * (p * 2)) by {
        lemma_mul_is_associative(2, g, p);
        lemma_mul_is_commutative(2, g);
        lemma_mul_is_associative(g, 2, p);
        lemma_mul_is_commutative(2, p);
    }
    lemma_mul_nonnegative(2 * g, p);
    lemma_fundamental_div_mod_converse(y, p, 2 * g, l);
    assert(bit_at(y, q) == (2 * g) % 2);
    lemma_fundamental_div_mod_converse(2 * g, 2, g, 0);
    assert(bit_at(y, q) == 0);
    assert(b * p <= x) by {
        if b == 1 {
            lemma_bit_at_weight(x, q);
        }
    }
    assert forall|r: nat| r != q implies bit_at(y, r) == bit_at(x, r) by {
        if r < q {
            lemma_bit_at_low(y, x, q, r);
        } else {
            // r > q: both sides have the same high part y / 2^(q+1) == x / 2^(q+1)
            assert(y / pow2(q + 1) as int == x / pow2(q + 1) as int) by {
                lemma_pow2_unfold(q + 1);
                lemma_div_denominator(y, p, 2);
                lemma_div_denominator(x, p, 2);
                lemma_mul_is_commutative(p, 2);
            }
            lemma_same_high_bits(y, x, q, r);
        }
    }
}

/// Setting a clear bit makes that position 1 and leaves every other bit alone.
pub proof fn lemma_set_bit(x: int, q: nat, b: int)
    requires
        x >= 0,
        0 <= b <= 1,
        bit_at(x, q) == 0,
    ensures
        x + b * pow2(q) >= 0,
        bit_at(x + b * pow2(q), q) == b,
        forall|r: nat| r != q ==> bit_at(x + b * pow2(q), r) == bit_at(x, r),
{
    let p = pow2(q) as int;
    let h = x / p;
    let l = x % p;
    lemma_pow2_pos(q);
    let y = x + b * p;
    lemma_fundamental_div_mod(x, p);
    lemma_mod_division_less_than_divisor(x, p);
    lemma_div_pos_is_pos(x, p);
    lemma_fundamental_div_mod(h, 2);
    lemma_mod_division_less_than_divisor(h, 2);
    lemma_div_pos_is_pos(h, 2);
    let g = h / 2;
    assert(h == 2 * g);
    assert(y == (h + b) * p + l) by {
        lemma_mul_is_distributive_add_other_way(p, h, b);
    }
    lemma_mul_nonnegative(h + b, p);
    lemma_fundamental_div_mod_converse(y, p, h + b, l);
    lemma_fundamental_div_mod_converse(h + b, 2, g, b);
    assert(bit_at(y, q) == b);
    lemma_mul_nonnegative(b, p);
    assert forall|r: nat| r != q implies bit_at(y, r) == bit_at(x, r) by {
        if r < q {
            lemma_bit_at_low(y, x, q, r);
        } else {
            assert(y / pow2(q + 1) as int == x / pow2(q + 1) as int) by {
                lemma_pow2_unfold(q + 1);
                lemma_div_denominator(y, p, 2);
                lemma_div_denominator(x, p, 2);
                lemma_mul_is_commutative(p, 2);
            }
            lemma_same_high_bits(y, x, q, r);
        }
    }
}

/// Two indices with the same quotient by `2^(q+1)` agree on every bit
/// strictly above `q`.
proof fn lemma_same_high_bits(x: int, y: int, q: nat, r: nat)
    requires
        x >= 0,
        y >= 0,
        r > q,
        x / pow2(q + 1) as int == y / pow2(q + 1) as int,
    ensures
        bit_at(x, r) == bit_at(y, r),
{
    let p1 = pow2(q + 1) as int;
    let m = pow2((r - q - 1) as nat) as int;
    lemma_pow2_pos(q + 1);
    lemma_pow2_pos((r - q - 1) as nat);
    lemma_pow2_adds(q + 1, (r - q - 1) as nat);
    assert(pow2(r) as int == p1 * m);
    lemma_div_denominator(x, p1, m);
    lemma_div_denominator(y, p1, m);
}

/// Halving shifts the bit positions down by one.
pub proof fn lemma_bit_at_half(p: int, m: nat)
    requires
        p >= 0,
    ensures
        bit_at(p / 2, m) == bit_at(p, m + 1),
{
    lemma_pow2_pos(m);
    lemma_pow2_unfold(m + 1);
    lemma_div_denominator(p, 2, pow2(m) as int);
    lemma_mul_is_commutative(2, pow2(m) as int);
}

/// Setting a clear bit below the bound keeps the value below the bound.
pub proof fn lemma_set_bit_bound(x: int, q: nat, b: int, n: nat)
    requires
        0 <= x < pow2(n),
        0 <= b <= 1,
        q < n,
        bit_at(x, q) == 0,
    ensures
        0 <= x + b * pow2(q) < pow2(n),
{
    let p = pow2(q) as int;
    let p1 = pow2(q + 1) as int;
    lemma_pow2_pos(q);
    lemma_pow2_unfold(q + 1);
    let a = x / p1;
    let r = x % p1;
    lemma_fundamental_div_mod(x, p1);
    lemma_mod_division_less_than_divisor(x, p1);
    lemma_div_pos_is_pos(x, p1);
    // bit q of x clear means the remainder below 2^(q+1) is below 2^q
    assert(r < p) by {
        lemma_div_denominator(x, p, 2);
        lemma_mul_is_commutative(p, 2);
        // x / p == 2 a + r / p and its parity is r / p
        lemma_fundamental_div_mod(r, p);
        lemma_mod_division_less_than_divisor(r, p);
        lemma_div_pos_is_pos(r, p);
        assert(x == (2 * a + r / p) * p + r % p) by {
            lemma_mul_is_distributive_add_other_way(p, 2 * a, r / p);
            lemma_mul_is_associative(2, a, p);
            lemma_mul_is_commutative(a, p1);
            lemma_mul_is_commutative(p, 2);
            lemma_mul_is_associative(a, 2, p);
            lemma_mul_is_commutative(a, 2);
        }
        assert(r / p < 2) by {
            lemma_multiply_divide_lt(r, p, 2);
        }
        lemma_fundamental_div_mod_converse(x, p, 2 * a + r / p, r % p);
        assert(bit_at(x, q) == (2 * a + r / p) % 2);
        lemma_fundamental_div_mod_converse(2 * a + r / p, 2, a, r / p);
        assert(r / p == 0);
        lemma_small_div_converse(r, p);
    }
    // so x + b * 2^q stays within the same 2^(q+1)-block
    let am = pow2((n - q - 1) as nat) as int;
    lemma_pow2_adds(q + 1, (n - q - 1) as nat);
    assert(pow2(n) as int == p1 * am);
    assert(a < am) by {
        lemma_pow2_pos((n - q - 1) as nat);
        lemma_multiply_divide_lt(x, p1, am);
    }
    lemma_mul_inequality(b, 1, p);
    lemma_mul_nonnegative(b, p);
    assert(x + b * p <= a * p1 + r + p);
    assert(a * p1 + 2 * p <= am * p1) by {
        lemma_mul_inequality(a + 1, am, p1);
        lemma_mul_is_distributive_add_other_way(p1, a, 1);
    }
    lemma_mul_is_commutative(am, p1);
}

/// Where each bit of `del_bit` comes from: below `q` unchanged, at and
/// above `q` shifted down from one place higher.
pub proof fn lemma_del_bit_at(x: int, q: nat, r: nat)
    requires
        x >= 0,
    ensures
        r < q ==> bit_at(del_bit(x, q), r) == bit_at(x, r),
        r >= q ==> bit_at(del_bit(x, q), r) == bit_at(x, r + 1),
{
    let p = pow2(q) as int;
    let p1 = pow2(q + 1) as int;
    lemma_pow2_pos(q);
    lemma_pow2_pos(q + 1);
    let d = del_bit(x, q);
    lemma_div_pos_is_pos(x, p1);
    lemma_mod_division_less_than_divisor(x, p);
    lemma_mul_nonnegative(x / p1, p);
    lemma_fundamental_div_mod_converse(d, p, x / p1, x % p);
    if r < q {
        lemma_bit_at_low(d, x, q, r);
    } else {
        // d / 2^r == (d / 2^q) / 2^(r-q) == (x / 2^(q+1)) / 2^(r-q) == x / 2^(r+1)
        let m = pow2((r - q) as nat) as int;
        lemma_pow2_pos((r - q) as nat);
        lemma_pow2_adds(q, (r - q) as nat);
        lemma_div_denominator(d, p, m);
        lemma_pow2_adds(q + 1, (r - q) as nat);
        lemma_div_denominator(x, p1, m);
        assert(pow2(r) as int == p * m);
        assert(pow2(r + 1) as int == p1 * m);
    }
}

/// Bounded indices with the same bits are the same number.
pub proof fn lemma_bit_at_ext(x: int, y: int, n: nat)
    requires
        0 <= x < pow2(n),
        0 <= y < pow2(n),
        forall|r: nat| r < n ==> bit_at(x, r) == bit_at(y, r),
    ensures
        x == y,
    decreases n,
{
    lemma2_to64();
    if n == 0 {
        assert(pow2(0) == 1);
    } else {
        lemma_pow2_unfold(n);
        let xh = x / 2;
        let yh = y / 2;
        lemma_div_pos_is_pos(x, 2);
        lemma_div_pos_is_pos(y, 2);
        assert(xh < pow2((n - 1) as nat)) by {
            lemma_pow2_pos((n - 1) as nat);
            lemma_multiply_divide_lt(x, 2, pow2((n - 1) as nat) as int);
            lemma_mul_is_commutative(2, pow2((n - 1) as nat) as int);
        }
        assert(yh < pow2((n - 1) as nat)) by {
            lemma_pow2_pos((n - 1) as nat);
            lemma_multiply_divide_lt(y, 2, pow2((n - 1) as nat) as int);
            lemma_mul_is_commutative(2, pow2((n - 1) as nat) as int);
        }
        assert forall|r: nat| r < (n - 1) as nat implies bit_at(xh, r) == bit_at(yh, r) by {
            lemma_bit_at_half(x, r);
            lemma_bit_at_half(y, r);
            assert(bit_at(x, r + 1) == bit_at(y, r + 1));
        }
        lemma_bit_at_ext(xh, yh, (n - 1) as nat);
        assert(bit_at(x, 0) == x % 2) by {
            assert(pow2(0) == 1);
            lemma_div_basics(x);
        }
        assert(bit_at(y, 0) == y % 2) by {
            assert(pow2(0) == 1);
            lemma_div_basics(y);
        }
        lemma_fundamental_div_mod(x, 2);
        lemma_fundamental_div_mod(y, 2);
        assert(bit_at(x, 0) == bit_at(y, 0));
    }
}

} // verus!
