//! The state-vector simulator: a dense register of `2^n` fixed-point
//! amplitudes, with generalized gate application and projective
//! measurement.

use crate::bits::{bit_at, lemma_bit_at_range};
use crate::mapper::{
    all_below, distinct_pos, idxs, lemma_target_index_bound, pow2_usize, row_of, row_of_exec,
    target_exec, target_index,
};
use crate::numeric::{
    c_add, c_bounded, c_mul, c_normsq, c_one, c_project, c_renorm, c_zero, isqrt, isqrt_spec,
    lemma_abs_le_of_sq, lemma_isqrt_props, lemma_mul_abs_bound, lemma_normsq_nonneg,
    lemma_renorm_props, lemma_renorm_zero, norm_sqr, project_component, renorm_component, Complex,
    ComplexVal, COMP_LIMIT, SCALE, SCALE_SQ,
};
use crate::{MeasuredResult, QuantumMachine, Qubit, SimulatorError};
use vstd::arithmetic::div_mod::*;
use vstd::arithmetic::mul::*;
use vstd::arithmetic::power2::*;
use vstd::prelude::*;

verus! {

/// The largest register this simulator accepts: `2^30` amplitudes is
/// already sixteen gigabytes of state, and every sum the engine forms
/// stays well inside 128-bit arithmetic.
pub const MAX_QUBITS: usize = 30;

/// A simulator for a quantum computer.
///
/// It owns the wavefunction: `2^n` fixed-point complex amplitudes, where
/// bit `b` of an amplitude's index is the basis value of qubit `b`.
/// Memory consumption scales as `2^n` with the qubit count `n`.
pub struct QuantumSimulator {
    dimension: usize,
    states: Vec<Complex>,
}

/// The initial register state: amplitude one on the all-zero basis state.
pub open spec fn basis_zero(n: nat) -> Seq<ComplexVal> {
    Seq::new(pow2(n), |i: int| if i == 0 { c_one() } else { c_zero() })
}

impl QuantumSimulator {
    /// The number of qubits of the register.
    pub closed spec fn dim(&self) -> nat {
        self.dimension as nat
    }

    /// The amplitudes of the register, as unbounded fixed-point values.
    pub closed spec fn amps(&self) -> Seq<ComplexVal> {
        self.states@.map_values(|c: Complex| c@)
    }

    /// Well-formedness: the register holds `2^n` amplitudes for a
    /// positive, bounded qubit count, every component within the
    /// saturation limit.
    pub open spec fn wf(&self) -> bool {
        &&& 1 <= self.dim() <= MAX_QUBITS
        &&& self.amps().len() == pow2(self.dim())
        &&& forall|i: int|
            0 <= i < self.amps().len() ==> c_bounded(#[trigger] self.amps()[i], COMP_LIMIT as int)
    }

    /// Creates a register of `n` qubits in the basis state 0: the
    /// amplitude of index 0 is one, all others are zero.
    pub fn new(n: usize) -> (r: QuantumSimulator)
        requires
            1 <= n <= MAX_QUBITS,
        ensures
            r.wf(),
            r.dim() == n,
            r.amps() == basis_zero(n as nat),
    {
        let size = pow2_usize(n);
        let mut states: Vec<Complex> = Vec::new();
        let mut i: usize = 0;
        while i < size
            invariant
                i <= size,
                size == pow2(n as nat),
                states@.len() == i,
                forall|m: int|
                    0 <= m < i ==> (#[trigger] states@[m])@ == (if m == 0 {
                        c_one()
                    } else {
                        c_zero()
                    }),
            decreases size - i,
        {
            if i == 0 {
                states.push(Complex::one());
            } else {
                states.push(Complex::zero());
            }
            i = i + 1;
        }
        let r = QuantumSimulator { dimension: n, states };
        proof {
            assert(r.amps() =~= basis_zero(n as nat));
            assert(SCALE < COMP_LIMIT);
        }
        r
    }
}

/// The mathematical values of a vector of stored complex numbers.
pub open spec fn vals(s: Seq<Complex>) -> Seq<ComplexVal> {
    s.map_values(|c: Complex| c@)
}

/// Every entry within the component limit.
pub open spec fn mat_bounded(m: Seq<ComplexVal>) -> bool {
    forall|i: int| 0 <= i < m.len() ==> c_bounded(#[trigger] m[i], COMP_LIMIT as int)
}

/// The arguments of a gate application that the engine accepts: at least
/// one qubit and no more than the register holds, all indices in range,
/// no duplicates, and a `2^k` by `2^k` matrix.
pub open spec fn gate_args_ok(qs: Seq<Qubit>, mlen: nat, n: nat) -> bool {
    &&& 1 <= qs.len() <= n
    &&& all_below(idxs(qs), n)
    &&& distinct_pos(idxs(qs))
    &&& mlen == pow2(qs.len()) * pow2(qs.len())
}

/// The first `cols` terms of the matrix-vector product that rebuilds the
/// amplitude at full index `i`: row `row_of(pos, i)` of the matrix against
/// the amplitudes of `i`'s group, still in `1 / SCALE^2` units.
pub open spec fn dot_rec(
    amps: Seq<ComplexVal>,
    mat: Seq<ComplexVal>,
    pos: Seq<usize>,
    i: int,
    cols: int,
) -> ComplexVal
    decreases cols,
{
    if cols <= 0 {
        c_zero()
    } else {
        c_add(
            dot_rec(amps, mat, pos, i, cols - 1),
            c_mul(
                mat[row_of(pos, i) * pow2(pos.len()) + (cols - 1)],
                amps[target_index(pos, i, cols - 1)],
            ),
        )
    }
}

/// The new amplitude at full index `i` after applying the matrix to the
/// qubits at `pos`: the full row product, rescaled and saturated.
pub open spec fn new_amp(
    amps: Seq<ComplexVal>,
    mat: Seq<ComplexVal>,
    pos: Seq<usize>,
    i: int,
) -> ComplexVal {
    c_project(dot_rec(amps, mat, pos, i, pow2(pos.len()) as int))
}

/// The whole register after applying the matrix to the qubits at `pos`.
pub open spec fn apply_amps(
    amps: Seq<ComplexVal>,
    mat: Seq<ComplexVal>,
    pos: Seq<usize>,
) -> Seq<ComplexVal> {
    Seq::new(amps.len(), |i: int| new_amp(amps, mat, pos, i))
}

impl QuantumSimulator {
    /// Applies a `2^k` by `2^k` unitary matrix (row-major, fixed-point) to
    /// `k` qubits.  The first listed qubit is the most significant bit of
    /// the matrix row and column index.
    ///
    /// Every amplitude is rebuilt from its own group of `2^k` amplitudes;
    /// invalid arguments are rejected before any amplitude changes.
    #[verifier::loop_isolation(false)]
    pub fn apply(&mut self, qubits: &Vec<Qubit>, matrix: &Vec<Complex>) -> (r: Result<
        (),
        SimulatorError,
    >)
        requires
            old(self).wf(),
            mat_bounded(vals(matrix@)),
        ensures
            final(self).wf(),
            final(self).dim() == old(self).dim(),
            r is Ok <==> gate_args_ok(qubits@, matrix@.len(), old(self).dim()),
            r is Ok ==> final(self).amps() == apply_amps(
                old(self).amps(),
                vals(matrix@),
                idxs(qubits@),
            ),
            r is Err ==> final(self).amps() == old(self).amps(),
            r == Err::<(), SimulatorError>(SimulatorError::InvalidQubitCount) <==> (qubits@.len()
                == 0 || qubits@.len() > old(self).dim()),
            r == Err::<(), SimulatorError>(SimulatorError::InvalidQubitIndex) <==> (1
                <= qubits@.len() <= old(self).dim() && !all_below(idxs(qubits@), old(self).dim())),
            r == Err::<(), SimulatorError>(SimulatorError::DuplicateQubit) <==> (1 <= qubits@.len()
                <= old(self).dim() && all_below(idxs(qubits@), old(self).dim()) && !distinct_pos(
                idxs(qubits@),
            )),
            r == Err::<(), SimulatorError>(SimulatorError::DimensionMismatch) <==> (1
                <= qubits@.len() <= old(self).dim() && all_below(idxs(qubits@), old(self).dim())
                && distinct_pos(idxs(qubits@)) && matrix@.len() != pow2(qubits@.len()) * pow2(
                qubits@.len(),
            )),
    {
        let ghost pos = idxs(qubits@);
        let k = qubits.len();
        let n = self.dimension;
        if k == 0 || k > n {
            return Err(SimulatorError::InvalidQubitCount);
        }
        // every index must address a qubit of this register
        let mut a: usize = 0;
        while a < k
            invariant
                a <= k == qubits.len(),
                pos == idxs(qubits@),
                forall|m: int| 0 <= m < a ==> (#[trigger] pos[m]) < n,
            decreases k - a,
        {
            if qubits[a].index >= n {
                proof {
                    assert(pos[a as int] == qubits@[a as int].index);
                    assert(!all_below(pos, n as nat));
                }
                return Err(SimulatorError::InvalidQubitIndex);
            }
            a = a + 1;
        }
        proof {
            assert(all_below(pos, n as nat));
        }
        // the same qubit must not take part twice
        let mut b: usize = 0;
        while b < k
            invariant
                b <= k == qubits.len(),
                pos == idxs(qubits@),
                forall|m1: int, m2: int| 0 <= m1 < b && m1 < m2 < k ==> pos[m1] != pos[m2],
            decreases k - b,
        {
            let mut c: usize = b + 1;
            while c < k
                invariant
                    b < c <= k == qubits.len(),
                    pos == idxs(qubits@),
                    forall|m2: int| b < m2 < c ==> pos[b as int] != pos[m2],
                decreases k - c,
            {
                if qubits[b].index == qubits[c].index {
                    proof {
                        assert(pos[b as int] == pos[c as int]);
                        assert(!distinct_pos(pos));
                    }
                    return Err(SimulatorError::DuplicateQubit);
                }
                c = c + 1;
            }
            b = b + 1;
        }
        proof {
            assert(distinct_pos(pos));
        }
        // the matrix must be 2^k by 2^k
        let side = pow2_usize(k);
        proof {
            lemma_pow2_pos(k as nat);
        }
        if matrix.len() / side != side || matrix.len() % side != 0 {
            proof {
                // a square matrix of that side would pass both checks
                if matrix@.len() == pow2(k as nat) * pow2(k as nat) {
                    lemma_div_multiples_vanish(side as int, side as int);
                    lemma_mod_multiples_basic(side as int, side as int);
                    lemma_mul_is_commutative(side as int, side as int);
                }
            }
            return Err(SimulatorError::DimensionMismatch);
        }
        proof {
            lemma_fundamental_div_mod(matrix@.len() as int, side as int);
        }
        let size = pow2_usize(n);
        let ghost a0 = self.amps();
        let ghost mv = vals(matrix@);
        let mut out: Vec<Complex> = Vec::new();
        let mut i: usize = 0;
        while i < size
            invariant
                i <= size,
                size == pow2(n as nat),
                1 <= k <= n <= MAX_QUBITS,
                side == pow2(k as nat),
                qubits.len() == k,
                matrix@.len() == side * side,
                pos == idxs(qubits@),
                all_below(pos, n as nat),
                distinct_pos(pos),
                self.wf(),
                self.dim() == n,
                a0 == self.amps(),
                mv == vals(matrix@),
                mat_bounded(mv),
                out@.len() == i,
                forall|m: int| 0 <= m < i ==> (#[trigger] out@[m])@ == new_amp(a0, mv, pos, m),
            decreases size - i,
        {
            proof {
                if n < 30 {
                    lemma_pow2_strictly_increases(n as nat, 30);
                }
                assert(i < pow2(30));
                assert(all_below(pos, 30));
            }
            let row = row_of_exec(qubits, i);
            let mut acc_re: i128 = 0;
            let mut acc_im: i128 = 0;
            let mut col: usize = 0;
            while col < side
                invariant
                    col <= side,
                    i < size,
                    size == pow2(n as nat),
                    1 <= k <= n <= MAX_QUBITS,
                    side == pow2(k as nat),
                    qubits.len() == k,
                    matrix@.len() == side * side,
                    pos == idxs(qubits@),
                    all_below(pos, n as nat),
                    all_below(pos, 30),
                    distinct_pos(pos),
                    self.wf(),
                    self.dim() == n,
                    a0 == self.amps(),
                    mv == vals(matrix@),
                    mat_bounded(mv),
                    row == row_of(pos, i as int),
                    row < side,
                    i < pow2(30),
                    (ComplexVal { re: acc_re as int, im: acc_im as int }) == dot_rec(
                        a0,
                        mv,
                        pos,
                        i as int,
                        col as int,
                    ),
                    -(col as int) * 590295810358705651712 <= acc_re as int <= (col as int)
                        * 590295810358705651712,
                    -(col as int) * 590295810358705651712 <= acc_im as int <= (col as int)
                        * 590295810358705651712,
                decreases side - col,
            {
                let t = target_exec(qubits, i, col);
                proof {
                    lemma_target_index_bound(pos, i as int, col as int, n as nat);
                    assert(t < self.states@.len());
                    // the matrix entry index stays inside the matrix
                    lemma_mul_inequality(row as int, side as int - 1, side as int);
                    assert((side as int - 1) * side as int == side as int * side as int
                        - side as int) by {
                        lemma_mul_is_distributive_sub_other_way(side as int, side as int, 1);
                        lemma_mul_basics(side as int);
                    }
                    lemma_mul_nonnegative(row as int, side as int);
                }
                let m = matrix[row * side + col];
                let v = self.states[t];
                proof {
                    assert(mv[row as int * side as int + col as int] == m@);
                    assert(a0[t as int] == v@);
                    assert(c_bounded(m@, COMP_LIMIT as int));
                    assert(c_bounded(v@, COMP_LIMIT as int)) by {
                        assert(a0[t as int] == self.amps()[t as int]);
                    }
                    lemma_mul_abs_bound(
                        m.re as int,
                        v.re as int,
                        COMP_LIMIT as int,
                        COMP_LIMIT as int,
                    );
                    lemma_mul_abs_bound(
                        m.im as int,
                        v.im as int,
                        COMP_LIMIT as int,
                        COMP_LIMIT as int,
                    );
                    lemma_mul_abs_bound(
                        m.re as int,
                        v.im as int,
                        COMP_LIMIT as int,
                        COMP_LIMIT as int,
                    );
                    lemma_mul_abs_bound(
                        m.im as int,
                        v.re as int,
                        COMP_LIMIT as int,
                        COMP_LIMIT as int,
                    );
                    assert((COMP_LIMIT as int) * (COMP_LIMIT as int) == 295147905179352825856)
                        by (nonlinear_arith);
                    // one more term extends the linear accumulator bound
                    assert((col as int + 1) * 590295810358705651712 == (col as int)
                        * 590295810358705651712 + 590295810358705651712);
                    lemma_pow2_strictly_increases(k as nat, 31);
                    lemma2_to64();
                    lemma_mul_inequality(col as int + 1, 0x80000000, 590295810358705651712);
                    assert(0x80000000int * 590295810358705651712
                        == 1267650600228229401496703205376int) by (nonlinear_arith);
                }
                let prod_re = (m.re as i128) * (v.re as i128) - (m.im as i128) * (v.im as i128);
                let prod_im = (m.re as i128) * (v.im as i128) + (m.im as i128) * (v.re as i128);
                acc_re = acc_re + prod_re;
                acc_im = acc_im + prod_im;
                col = col + 1;
            }
            proof {
                // the accumulator bound keeps the projection in range
                assert((side as int) * 590295810358705651712
                    <= 1267650600228229401496703205376int) by {
                    lemma_pow2_strictly_increases(k as nat, 31);
                    lemma2_to64();
                    lemma_mul_inequality(side as int, 0x80000000, 590295810358705651712);
                    assert(0x80000000int * 590295810358705651712
                        == 1267650600228229401496703205376int) by (nonlinear_arith);
                }
            }
            let nre = project_component(acc_re);
            let nim = project_component(acc_im);
            out.push(Complex { re: nre, im: nim });
            proof {
                assert(out@[i as int]@ == new_amp(a0, mv, pos, i as int));
            }
            i = i + 1;
        }
        self.states = out;
        proof {
            assert(self.amps() =~= apply_amps(a0, mv, pos));
            assert forall|m: int|
                0 <= m < self.amps().len() implies c_bounded(
                #[trigger] self.amps()[m],
                COMP_LIMIT as int,
            ) by {
                assert(self.amps()[m] == new_amp(a0, mv, pos, m));
            }
        }
        Ok(())
    }
}

/// Relied-on entry point of the `rand` crate: a fresh sample of `T`.
/// Nothing can be promised of a random value, so it carries no contract.
pub assume_specification<T>[ rand::random::<T> ]() -> (r: T)
    where
        rand::distributions::Standard: rand::distributions::Distribution<T>,
;

/// The summed squared magnitude (in `1 / SCALE^2` units) of the first `t`
/// amplitudes whose index has bit `q` equal to `b`.
pub open spec fn prob_sum(amps: Seq<ComplexVal>, q: nat, b: int, t: int) -> int
    decreases t,
{
    if t <= 0 {
        0
    } else {
        prob_sum(amps, q, b, t - 1) + if bit_at(t - 1, q) == b {
            c_normsq(amps[t - 1])
        } else {
            0
        }
    }
}

/// The squared mass on the `qubit = 0` branch: the unnormalized
/// probability (times `SCALE^2`) of observing 0.
pub open spec fn zero_prob(amps: Seq<ComplexVal>, q: nat) -> int {
    prob_sum(amps, q, 0, amps.len() as int)
}

/// The register after collapsing qubit `q` onto the outcome `keep`: the
/// other branch is zeroed, and the surviving branch is divided by the
/// square root of its own mass (rounding the magnitudes up, so at least
/// a full unit of mass remains).
pub open spec fn collapse_amps(amps: Seq<ComplexVal>, q: nat, keep: int) -> Seq<ComplexVal> {
    let p = prob_sum(amps, q, keep, amps.len() as int);
    let s = isqrt_spec(p as nat);
    Seq::new(
        amps.len(),
        |i: int|
            if bit_at(i, q) != keep {
                c_zero()
            } else if s > 0 {
                c_renorm(amps[i], s)
            } else {
                amps[i]
            },
    )
}

/// A branch mass is non-negative.
pub proof fn lemma_prob_sum_nonneg(amps: Seq<ComplexVal>, q: nat, b: int, t: int)
    ensures
        prob_sum(amps, q, b, t) >= 0,
    decreases t,
{
    if t <= 0 {
    } else {
        lemma_prob_sum_nonneg(amps, q, b, t - 1);
        lemma_normsq_nonneg(amps[t - 1]);
    }
}

/// A branch mass of bounded amplitudes is at most `t` units of twice the
/// squared component limit.
pub proof fn lemma_prob_sum_bound(amps: Seq<ComplexVal>, q: nat, b: int, t: int)
    requires
        0 <= t,
        forall|i: int| 0 <= i < t ==> c_bounded(#[trigger] amps[i], COMP_LIMIT as int),
    ensures
        prob_sum(amps, q, b, t) <= t * 590295810358705651712,
    decreases t,
{
    if t <= 0 {
    } else {
        lemma_prob_sum_bound(amps, q, b, t - 1);
        let a = amps[t - 1];
        lemma_mul_abs_bound(a.re, a.re, COMP_LIMIT as int, COMP_LIMIT as int);
        lemma_mul_abs_bound(a.im, a.im, COMP_LIMIT as int, COMP_LIMIT as int);
        assert((COMP_LIMIT as int) * (COMP_LIMIT as int) == 295147905179352825856)
            by (nonlinear_arith);
        lemma_normsq_nonneg(a);
        assert(t * 590295810358705651712 == (t - 1) * 590295810358705651712
            + 590295810358705651712);
    }
}

/// Each matching amplitude's mass is part of the branch mass.
pub proof fn lemma_prob_sum_element(amps: Seq<ComplexVal>, q: nat, b: int, t: int, i: int)
    requires
        0 <= i < t,
        bit_at(i, q) == b,
    ensures
        c_normsq(amps[i]) <= prob_sum(amps, q, b, t),
    decreases t,
{
    lemma_normsq_nonneg(amps[t - 1]);
    if i == t - 1 {
        lemma_prob_sum_nonneg(amps, q, b, t - 1);
    } else {
        lemma_prob_sum_element(amps, q, b, t - 1, i);
    }
}

/// A branch whose matching amplitudes are all zero has no mass.
pub proof fn lemma_prob_sum_empty(amps: Seq<ComplexVal>, q: nat, b: int, t: int)
    requires
        forall|i: int| 0 <= i < t && bit_at(i, q) == b ==> #[trigger] amps[i] == c_zero(),
    ensures
        prob_sum(amps, q, b, t) == 0,
    decreases t,
{
    if t <= 0 {
    } else {
        lemma_prob_sum_empty(amps, q, b, t - 1);
        if bit_at(t - 1, q) == b {
            lemma_normsq_nonneg(amps[t - 1]);
            assert(amps[t - 1] == c_zero());
        }
    }
}

/// When the one-branch of `qb` carries no mass, the zero-branch of `qb`
/// carries the whole mass, which splits across any qubit's two branches.
pub proof fn lemma_prob_sum_split(amps: Seq<ComplexVal>, qa: nat, qb: nat, t: int)
    requires
        forall|i: int| 0 <= i < t && bit_at(i, qb) == 1 ==> c_normsq(#[trigger] amps[i]) == 0,
    ensures
        prob_sum(amps, qb, 0, t) == prob_sum(amps, qa, 0, t) + prob_sum(amps, qa, 1, t),
    decreases t,
{
    if t <= 0 {
    } else {
        lemma_prob_sum_split(amps, qa, qb, t - 1);
        lemma_bit_at_range(t - 1, qa);
        lemma_bit_at_range(t - 1, qb);
    }
}

/// After a collapse, the dead branch holds no mass at all.
pub proof fn lemma_collapse_dead_mass(amps: Seq<ComplexVal>, q: nat, keep: int, b: int)
    requires
        b != keep,
    ensures
        prob_sum(collapse_amps(amps, q, keep), q, b, amps.len() as int) == 0,
{
    let c = collapse_amps(amps, q, keep);
    assert forall|i: int| 0 <= i < amps.len() as int && bit_at(i, q) == b implies #[trigger] c[i]
        == c_zero() by {}
    lemma_prob_sum_empty(c, q, b, amps.len() as int);
}

proof fn lemma_collapse_mass_rec(
    amps: Seq<ComplexVal>,
    c: Seq<ComplexVal>,
    q: nat,
    keep: int,
    s: int,
    t: int,
)
    requires
        s >= 1,
        t <= amps.len(),
        c.len() == amps.len(),
        forall|i: int|
            0 <= i < t && bit_at(i, q) == keep ==> c_bounded(#[trigger] amps[i], s) && c[i]
                == c_renorm(amps[i], s),
    ensures
        prob_sum(c, q, keep, t) * (s * s) >= prob_sum(amps, q, keep, t) * ((SCALE as int) * (
        SCALE as int)),
    decreases t,
{
    if t <= 0 {
        assert(0 * (s * s) == 0) by (nonlinear_arith);
        assert(0 * ((SCALE as int) * (SCALE as int)) == 0) by (nonlinear_arith);
    } else {
        lemma_collapse_mass_rec(amps, c, q, keep, s, t - 1);
        let pc = prob_sum(c, q, keep, t - 1);
        let pa = prob_sum(amps, q, keep, t - 1);
        if bit_at(t - 1, q) == keep {
            lemma_renorm_props(amps[t - 1], s);
            assert((pc + c_normsq(c[t - 1])) * (s * s) == pc * (s * s) + c_normsq(c[t - 1]) * (s
                * s)) by {
                lemma_mul_is_distributive_add_other_way(s * s, pc, c_normsq(c[t - 1]));
            }
            assert((pa + c_normsq(amps[t - 1])) * ((SCALE as int) * (SCALE as int)) == pa * ((
            SCALE as int) * (SCALE as int)) + c_normsq(amps[t - 1]) * ((SCALE as int) * (
            SCALE as int))) by {
                lemma_mul_is_distributive_add_other_way(
                    (SCALE as int) * (SCALE as int),
                    pa,
                    c_normsq(amps[t - 1]),
                );
            }
        }
    }
}

/// The heart of measurement idempotence: collapsing onto a branch with
/// positive mass leaves that branch with at least a full unit of mass,
/// so an immediate second measurement must give the same outcome.
pub proof fn lemma_collapse_keep_mass(amps: Seq<ComplexVal>, q: nat, keep: int)
    requires
        prob_sum(amps, q, keep, amps.len() as int) > 0,
    ensures
        prob_sum(collapse_amps(amps, q, keep), q, keep, amps.len() as int) >= SCALE_SQ,
{
    let len = amps.len() as int;
    let p = prob_sum(amps, q, keep, len);
    let s = isqrt_spec(p as nat);
    lemma_isqrt_props(p as nat);
    let c = collapse_amps(amps, q, keep);
    assert forall|i: int|
        0 <= i < len && bit_at(i, q) == keep implies c_bounded(#[trigger] amps[i], s) && c[i]
        == c_renorm(amps[i], s) by {
        lemma_prob_sum_element(amps, q, keep, len, i);
        lemma_normsq_nonneg(amps[i]);
        lemma_abs_le_of_sq(amps[i].re, s);
        lemma_abs_le_of_sq(amps[i].im, s);
    }
    lemma_collapse_mass_rec(amps, c, q, keep, s, len);
    // prob_sum(c) * s^2 >= p * SCALE^2 >= s^2 * SCALE^2, so prob_sum(c) >= SCALE^2
    assert(p * ((SCALE as int) * (SCALE as int)) >= (s * s) * ((SCALE as int) * (SCALE as int)))
        by {
        lemma_mul_inequality(s * s, p, (SCALE as int) * (SCALE as int));
        lemma_mul_nonnegative(SCALE as int, SCALE as int);
    }
    assert(prob_sum(c, q, keep, len) >= (SCALE as int) * (SCALE as int)) by (nonlinear_arith)
        requires
            prob_sum(c, q, keep, len) * (s * s) >= ((s * s) * ((SCALE as int) * (SCALE as int))),
            s >= 1,
    ;
    assert((SCALE as int) * (SCALE as int) == SCALE_SQ) by (nonlinear_arith);
}

impl QuantumSimulator {
    /// The number of amplitudes the register holds (`2^n`).
    pub fn state_len(&self) -> (r: usize)
        ensures
            r == self.amps().len(),
    {
        self.states.len()
    }

    /// The amplitude of the basis state with index `i`.
    pub fn amplitude(&self, i: usize) -> (r: Complex)
        requires
            i < self.amps().len(),
        ensures
            r@ == self.amps()[i as int],
    {
        self.states[i]
    }
}

/// Perfectly correlated qubits collapse together, first half: in a state
/// whose support lies on basis states where qubits `qa` and `qb` agree,
/// collapsing `qa` onto 0 leaves the zero branch of `qb` with at least a
/// full unit of mass, so measuring `qb` next must also give 0.
pub proof fn lemma_correlated_zero(amps: Seq<ComplexVal>, qa: nat, qb: nat)
    requires
        forall|i: int|
            0 <= i < amps.len() && bit_at(i, qa) != bit_at(i, qb) ==> #[trigger] amps[i]
                == c_zero(),
        zero_prob(amps, qa) > 0,
    ensures
        zero_prob(collapse_amps(amps, qa, 0), qb) >= SCALE_SQ,
{
    let len = amps.len() as int;
    let c = collapse_amps(amps, qa, 0);
    let p = prob_sum(amps, qa, 0, len);
    let s = isqrt_spec(p as nat);
    lemma_isqrt_props(p as nat);
    assert forall|i: int| 0 <= i < len && bit_at(i, qb) == 1 implies c_normsq(#[trigger] c[i])
        == 0 by {
        lemma_bit_at_range(i, qa);
        if bit_at(i, qa) == 0 {
            // agreement forces the source amplitude to be zero here
            assert(amps[i] == c_zero());
            if s > 0 {
                lemma_renorm_zero(s);
            }
        }
        lemma_normsq_nonneg(c_zero());
    }
    lemma_prob_sum_split(c, qa, qb, len);
    lemma_collapse_keep_mass(amps, qa, 0);
    lemma_collapse_dead_mass(amps, qa, 0, 1);
}

/// Perfectly correlated qubits collapse together, second half: collapsing
/// `qa` onto 1 empties the zero branch of `qb`, so measuring `qb` next
/// must also give 1.
pub proof fn lemma_correlated_one(amps: Seq<ComplexVal>, qa: nat, qb: nat)
    requires
        forall|i: int|
            0 <= i < amps.len() && bit_at(i, qa) != bit_at(i, qb) ==> #[trigger] amps[i]
                == c_zero(),
    ensures
        zero_prob(collapse_amps(amps, qa, 1), qb) == 0,
{
    let len = amps.len() as int;
    let c = collapse_amps(amps, qa, 1);
    let p = prob_sum(amps, qa, 1, len);
    let s = isqrt_spec(p as nat);
    assert forall|i: int| 0 <= i < len && bit_at(i, qb) == 0 implies #[trigger] c[i]
        == c_zero() by {
        lemma_bit_at_range(i, qa);
        if bit_at(i, qa) == 1 {
            assert(amps[i] == c_zero());
            if s > 0 {
                lemma_renorm_zero(s);
            }
        }
    }
    lemma_prob_sum_empty(c, qb, 0, len);
}

impl QuantumSimulator {
    /// Zero the branch of `qubit` that disagrees with `keep` and rescale
    /// the surviving branch by the square root of its own mass.
    #[verifier::loop_isolation(false)]
    fn collapse_onto(&mut self, q: usize, keep: usize)
        requires
            old(self).wf(),
            q < old(self).dim(),
            keep == 0 || keep == 1,
        ensures
            final(self).wf(),
            final(self).dim() == old(self).dim(),
            final(self).amps() == collapse_amps(old(self).amps(), q as nat, keep as int),
    {
        let ghost a0 = self.amps();
        let n = self.dimension;
        let size = pow2_usize(n);
        let pq = pow2_usize(q);
        proof {
            lemma_pow2_pos(q as nat);
        }
        // the mass of the surviving branch
        let mut psurv: u128 = 0;
        let mut i: usize = 0;
        while i < size
            invariant
                i <= size,
                psurv == prob_sum(a0, q as nat, keep as int, i as int),
                psurv <= (i as int) * 590295810358705651712,
            decreases size - i,
        {
            proof {
                let a = a0[i as int];
                assert(c_bounded(a, COMP_LIMIT as int));
                lemma_mul_abs_bound(a.re, a.re, COMP_LIMIT as int, COMP_LIMIT as int);
                lemma_mul_abs_bound(a.im, a.im, COMP_LIMIT as int, COMP_LIMIT as int);
                assert((COMP_LIMIT as int) * (COMP_LIMIT as int) == 295147905179352825856)
                    by (nonlinear_arith);
                lemma_normsq_nonneg(a);
                assert((i as int + 1) * 590295810358705651712 == (i as int)
                    * 590295810358705651712 + 590295810358705651712);
                assert((i as int) * 590295810358705651712 <= 0x40000000int
                    * 590295810358705651712) by {
                    if n < 30 {
                        lemma_pow2_strictly_increases(n as nat, 30);
                    }
                    lemma2_to64();
                    lemma_mul_inequality(i as int, 0x40000000, 590295810358705651712);
                }
                assert(0x40000000int * 590295810358705651712
                    == 633825300114114700748351602688int) by (nonlinear_arith);
            }
            let bit = (i / pq) % 2;
            if bit == keep {
                let m = norm_sqr(&self.states[i]);
                psurv = psurv + m;
            }
            i = i + 1;
        }
        proof {
            assert((size as int) * 590295810358705651712 <= 0x40000000int * 590295810358705651712)
                by {
                lemma_pow2_strictly_increases(n as nat, 31);
                lemma2_to64();
                lemma_mul_inequality(size as int, 0x40000000, 590295810358705651712);
            }
            assert(0x40000000int * 590295810358705651712 == 633825300114114700748351602688int)
                by (nonlinear_arith);
        }
        let s = isqrt(psurv);
        proof {
            lemma_isqrt_props(psurv as nat);
        }
        // rebuild the register in place
        let ghost target = collapse_amps(a0, q as nat, keep as int);
        let mut j: usize = 0;
        while j < size
            invariant
                j <= size,
                self.states@.len() == size,
                self.dim() == n,
                s == isqrt_spec(prob_sum(a0, q as nat, keep as int, size as int) as nat),
                forall|m: int| 0 <= m < j ==> (#[trigger] self.states@[m])@ == target[m],
                forall|m: int| j <= m < size ==> self.states@[m] == old(self).states@[m],
            decreases size - j,
        {
            let bit = (j / pq) % 2;
            if bit != keep {
                self.states.set(j, Complex { re: 0, im: 0 });
                proof {
                    assert(self.states@[j as int]@ == target[j as int]);
                }
            } else if s > 0 {
                let c = self.states[j];
                proof {
                    assert(c@ == a0[j as int]);
                    lemma_prob_sum_element(a0, q as nat, keep as int, size as int, j as int);
                    lemma_normsq_nonneg(a0[j as int]);
                    lemma_abs_le_of_sq(a0[j as int].re, s as int);
                    lemma_abs_le_of_sq(a0[j as int].im, s as int);
                }
                let nr = renorm_component(c.re, s);
                let ni = renorm_component(c.im, s);
                self.states.set(j, Complex { re: nr, im: ni });
                proof {
                    assert(self.states@[j as int]@ == c_renorm(a0[j as int], s as int));
                    assert(self.states@[j as int]@ == target[j as int]);
                }
            } else {
                proof {
                    assert(self.states@[j as int]@ == target[j as int]);
                }
            }
            j = j + 1;
        }
        proof {
            assert(self.amps() =~= target);
            // every stored component stays within the limit
            assert forall|m: int| 0 <= m < self.amps().len() implies c_bounded(
                #[trigger] self.amps()[m],
                COMP_LIMIT as int,
            ) by {
                assert(self.amps()[m] == target[m]);
                if bit_at(m, q as nat) == keep as int && isqrt_spec(
                    prob_sum(a0, q as nat, keep as int, size as int) as nat,
                ) > 0 {
                    let sv = isqrt_spec(prob_sum(a0, q as nat, keep as int, size as int) as nat);
                    lemma_prob_sum_element(a0, q as nat, keep as int, size as int, m);
                    lemma_normsq_nonneg(a0[m]);
                    lemma_isqrt_props(prob_sum(a0, q as nat, keep as int, size as int) as nat);
                    lemma_abs_le_of_sq(a0[m].re, sv);
                    lemma_abs_le_of_sq(a0[m].im, sv);
                    lemma_renorm_props(a0[m], sv);
                    assert(SCALE < COMP_LIMIT);
                }
            }
        }
    }
}

impl QuantumMachine for QuantumSimulator {
    open spec fn inv(&self) -> bool {
        self.wf()
    }

    open spec fn qubit_count(&self) -> nat {
        self.dim()
    }

    fn get_qubits(&self) -> (r: Vec<Qubit>) {
        let mut r: Vec<Qubit> = Vec::new();
        let mut i: usize = 0;
        while i < self.dimension
            invariant
                i <= self.dimension,
                r@.len() == i,
                forall|m: int| 0 <= m < i ==> (#[trigger] r@[m]).index == m,
            decreases self.dimension - i,
        {
            r.push(Qubit { index: i });
            i = i + 1;
        }
        r
    }

    /// Measures one qubit in the computational basis.
    ///
    /// The probability of observing 0 is the squared mass of the
    /// zero-branch (in `SCALE^2` units); the register then collapses onto
    /// the observed branch and is renormalized, so that measuring the
    /// same qubit again must repeat the outcome.
    #[verifier::loop_isolation(false)]
    fn measure(&mut self, qubit: &Qubit) -> (r: MeasuredResult)
        ensures
            final(self).dim() == old(self).dim(),
            r == MeasuredResult::Zero ==> zero_prob(old(self).amps(), qubit.index as nat) > 0
                && final(self).amps() == collapse_amps(
                old(self).amps(),
                qubit.index as nat,
                0,
            ),
            r == MeasuredResult::One ==> final(self).amps() == collapse_amps(
                old(self).amps(),
                qubit.index as nat,
                1,
            ),
            zero_prob(old(self).amps(), qubit.index as nat) == 0 ==> r == MeasuredResult::One,
            zero_prob(old(self).amps(), qubit.index as nat) >= SCALE_SQ ==> r
                == MeasuredResult::Zero,
    {
        let ghost a0 = self.amps();
        let q = qubit.index;
        let n = self.dimension;
        let size = pow2_usize(n);
        let pq = pow2_usize(q);
        proof {
            lemma_pow2_pos(q as nat);
        }
        // the squared mass of the zero branch
        let mut p0: u128 = 0;
        let mut i: usize = 0;
        while i < size
            invariant
                i <= size,
                p0 == prob_sum(a0, q as nat, 0, i as int),
                p0 <= (i as int) * 590295810358705651712,
            decreases size - i,
        {
            proof {
                let a = a0[i as int];
                assert(c_bounded(a, COMP_LIMIT as int));
                lemma_mul_abs_bound(a.re, a.re, COMP_LIMIT as int, COMP_LIMIT as int);
                lemma_mul_abs_bound(a.im, a.im, COMP_LIMIT as int, COMP_LIMIT as int);
                assert((COMP_LIMIT as int) * (COMP_LIMIT as int) == 295147905179352825856)
                    by (nonlinear_arith);
                lemma_normsq_nonneg(a);
                assert((i as int + 1) * 590295810358705651712 == (i as int)
                    * 590295810358705651712 + 590295810358705651712);
                assert((i as int) * 590295810358705651712 <= 0x40000000int
                    * 590295810358705651712) by {
                    if n < 30 {
                        lemma_pow2_strictly_increases(n as nat, 30);
                    }
                    lemma2_to64();
                    lemma_mul_inequality(i as int, 0x40000000, 590295810358705651712);
                }
                assert(0x40000000int * 590295810358705651712
                    == 633825300114114700748351602688int) by (nonlinear_arith);
            }
            let bit = (i / pq) % 2;
            if bit == 0 {
                let m = norm_sqr(&self.states[i]);
                p0 = p0 + m;
            }
            i = i + 1;
        }
        // one uniform draw decides the outcome: 0 exactly when its
        // sub-unit value falls below the zero-branch mass
        let raw: u64 = rand::random::<u64>();
        let rdraw: u64 = raw / 4;
        proof {
            assert(rdraw < SCALE_SQ) by {
                lemma_div_is_ordered(raw as int, u64::MAX as int, 4);
                lemma_fundamental_div_mod_converse(u64::MAX as int, 4, 4611686018427387903, 3);
            }
        }
        if p0 > rdraw as u128 {
            self.collapse_onto(q, 0);
            MeasuredResult::Zero
        } else {
            self.collapse_onto(q, 1);
            MeasuredResult::One
        }
    }
}

} // verus!

