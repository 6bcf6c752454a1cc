//! Gates on a single qubit: the Pauli matrices, the Hadamard-type gate,
//! the identity, the square root of NOT, and the phase gate.

use crate::numeric::{c_bounded, c_one, c_zero, Complex, ComplexVal, COMP_LIMIT, SCALE};
use crate::simulator::{apply_amps, mat_bounded, vals, QuantumSimulator};
use crate::{QuantumMachine, Qubit};
use vstd::prelude::*;

verus! {

/// `SCALE / sqrt(2)`, rounded to the nearest integer.
pub const FRAC_1_SQRT_2: i64 = 1518500250;

/// `SCALE / 2`.
pub const HALF: i64 = 1073741824;

/// A gate on one qubit: a 2 by 2 fixed-point matrix, row-major.
#[derive(Debug, Clone)]
pub struct SingleGate {
    /// The matrix entries, row-major.
    pub matrix: Vec<Complex>,
}

impl SingleGate {
    /// A 2 by 2 matrix with entries within the component limit.
    pub open spec fn wf(&self) -> bool {
        self.matrix@.len() == 4 && mat_bounded(vals(self.matrix@))
    }
}

/// A trait for the types which accept operations on a single qubit.
pub trait SingleGateApplicator: QuantumMachine {
    /// An operation applying the given one-qubit gate to `qubit`.
    fn apply_single(&mut self, gate: &SingleGate, qubit: &Qubit)
        requires
            old(self).inv(),
            gate.wf(),
            qubit.index < old(self).qubit_count(),
        ensures
            final(self).inv(),
            final(self).qubit_count() == old(self).qubit_count(),
    ;
}

impl SingleGateApplicator for QuantumSimulator {
    fn apply_single(&mut self, gate: &SingleGate, qubit: &Qubit)
        ensures
            final(self).amps() == apply_amps(
                old(self).amps(),
                vals(gate.matrix@),
                seq![qubit.index],
            ),
    {
        let qs = vec![*qubit];
        proof {
            assert(crate::mapper::idxs(qs@) =~= seq![qubit.index]);
            vstd::arithmetic::power2::lemma2_to64();
        }
        let r = self.apply(&qs, &gate.matrix);
        match r {
            Ok(_) => (),
            Err(_) => {
                proof {
                    assert(false);
                }
            },
        }
    }
}

/// The catalog's Hadamard-type matrix: columns send the basis states to
/// the two equal-weight superpositions.
pub open spec fn hadamard_mat() -> Seq<ComplexVal> {
    seq![
        ComplexVal { re: FRAC_1_SQRT_2 as int, im: 0 },
        ComplexVal { re: -(FRAC_1_SQRT_2 as int), im: 0 },
        ComplexVal { re: FRAC_1_SQRT_2 as int, im: 0 },
        ComplexVal { re: FRAC_1_SQRT_2 as int, im: 0 },
    ]
}

/// The bit-flip matrix.
pub open spec fn pauli_x_mat() -> Seq<ComplexVal> {
    seq![c_zero(), c_one(), c_one(), c_zero()]
}

/// The catalog's second Pauli matrix, purely imaginary off the diagonal.
pub open spec fn pauli_y_mat() -> Seq<ComplexVal> {
    seq![
        c_zero(),
        ComplexVal { re: 0, im: SCALE as int },
        ComplexVal { re: 0, im: -(SCALE as int) },
        c_zero(),
    ]
}

/// The phase-flip matrix.
pub open spec fn pauli_z_mat() -> Seq<ComplexVal> {
    seq![c_one(), c_zero(), c_zero(), ComplexVal { re: -(SCALE as int), im: 0 }]
}

/// The identity matrix.
pub open spec fn identity_mat() -> Seq<ComplexVal> {
    seq![c_one(), c_zero(), c_zero(), c_one()]
}

/// The square root of the bit flip: applying it twice flips the bit.
pub open spec fn sqnot_mat() -> Seq<ComplexVal> {
    seq![
        ComplexVal { re: HALF as int, im: HALF as int },
        ComplexVal { re: HALF as int, im: -(HALF as int) },
        ComplexVal { re: HALF as int, im: -(HALF as int) },
        ComplexVal { re: HALF as int, im: HALF as int },
    ]
}

/// The phase gate for a phase factor with the given fixed-point cosine
/// and sine: the 1-branch is multiplied by it.
pub open spec fn phase_mat(c: int, s: int) -> Seq<ComplexVal> {
    seq![c_one(), c_zero(), c_zero(), ComplexVal { re: c, im: s }]
}

/// The Hadamard-type gate of the catalog.
pub fn hadamard() -> (g: SingleGate)
    ensures
        g.wf(),
        vals(g.matrix@) == hadamard_mat(),
{
    let mut m: Vec<Complex> = Vec::new();
    m.push(Complex { re: FRAC_1_SQRT_2, im: 0 });
    m.push(Complex { re: -FRAC_1_SQRT_2, im: 0 });
    m.push(Complex { re: FRAC_1_SQRT_2, im: 0 });
    m.push(Complex { re: FRAC_1_SQRT_2, im: 0 });
    let g = SingleGate { matrix: m };
    proof {
        assert(vals(g.matrix@) =~= hadamard_mat());
    }
    g
}

/// The bit-flip gate.
pub fn pauli_x() -> (g: SingleGate)
    ensures
        g.wf(),
        vals(g.matrix@) == pauli_x_mat(),
{
    let mut m: Vec<Complex> = Vec::new();
    m.push(Complex::zero());
    m.push(Complex::one());
    m.push(Complex::one());
    m.push(Complex::zero());
    let g = SingleGate { matrix: m };
    proof {
        assert(vals(g.matrix@) =~= pauli_x_mat());
    }
    g
}

/// The second Pauli gate.
pub fn pauli_y() -> (g: SingleGate)
    ensures
        g.wf(),
        vals(g.matrix@) == pauli_y_mat(),
{
    let mut m: Vec<Complex> = Vec::new();
    m.push(Complex::zero());
    m.push(Complex { re: 0, im: SCALE });
    m.push(Complex { re: 0, im: -SCALE });
    m.push(Complex::zero());
    let g = SingleGate { matrix: m };
    proof {
        assert(vals(g.matrix@) =~= pauli_y_mat());
    }
    g
}

/// The phase-flip gate.
pub fn pauli_z() -> (g: SingleGate)
    ensures
        g.wf(),
        vals(g.matrix@) == pauli_z_mat(),
{
    let mut m: Vec<Complex> = Vec::new();
    m.push(Complex::one());
    m.push(Complex::zero());
    m.push(Complex::zero());
    m.push(Complex { re: -SCALE, im: 0 });
    let g = SingleGate { matrix: m };
    proof {
        assert(vals(g.matrix@) =~= pauli_z_mat());
    }
    g
}

/// The identity gate.
pub fn identity() -> (g: SingleGate)
    ensures
        g.wf(),
        vals(g.matrix@) == identity_mat(),
{
    let mut m: Vec<Complex> = Vec::new();
    m.push(Complex::one());
    m.push(Complex::zero());
    m.push(Complex::zero());
    m.push(Complex::one());
    let g = SingleGate { matrix: m };
    proof {
        assert(vals(g.matrix@) =~= identity_mat());
    }
    g
}

/// The square root of the bit flip.
pub fn sqnot() -> (g: SingleGate)
    ensures
        g.wf(),
        vals(g.matrix@) == sqnot_mat(),
{
    let mut m: Vec<Complex> = Vec::new();
    m.push(Complex { re: HALF, im: HALF });
    m.push(Complex { re: HALF, im: -HALF });
    m.push(Complex { re: HALF, im: -HALF });
    m.push(Complex { re: HALF, im: HALF });
    let g = SingleGate { matrix: m };
    proof {
        assert(vals(g.matrix@) =~= sqnot_mat());
    }
    g
}

/// The phase gate for the factor `(cos_fix + i sin_fix) / SCALE`.
pub fn phase_gate(cos_fix: i64, sin_fix: i64) -> (g: SingleGate)
    requires
        -(SCALE as int) <= cos_fix <= SCALE as int,
        -(SCALE as int) <= sin_fix <= SCALE as int,
    ensures
        g.wf(),
        vals(g.matrix@) == phase_mat(cos_fix as int, sin_fix as int),
{
    let mut m: Vec<Complex> = Vec::new();
    m.push(Complex::one());
    m.push(Complex::zero());
    m.push(Complex::zero());
    m.push(Complex { re: cos_fix, im: sin_fix });
    let g = SingleGate { matrix: m };
    proof {
        assert(vals(g.matrix@) =~= phase_mat(cos_fix as int, sin_fix as int));
    }
    g
}

#[allow(non_snake_case)]
impl QuantumSimulator {
    /// Applies the catalog's Hadamard-type gate to `qubit`.
    pub fn H(&mut self, qubit: &Qubit)
        requires
            old(self).wf(),
            qubit.index < old(self).dim(),
        ensures
            final(self).wf(),
            final(self).dim() == old(self).dim(),
            final(self).amps() == apply_amps(old(self).amps(), hadamard_mat(), seq![qubit.index]),
    {
        let g = hadamard();
        self.apply_single(&g, qubit);
    }

    /// Applies the bit-flip gate to `qubit`.
    pub fn X(&mut self, qubit: &Qubit)
        requires
            old(self).wf(),
            qubit.index < old(self).dim(),
        ensures
            final(self).wf(),
            final(self).dim() == old(self).dim(),
            final(self).amps() == apply_amps(old(self).amps(), pauli_x_mat(), seq![qubit.index]),
    {
        let g = pauli_x();
        self.apply_single(&g, qubit);
    }

    /// Applies the second Pauli gate to `qubit`.
    pub fn Y(&mut self, qubit: &Qubit)
        requires
            old(self).wf(),
            qubit.index < old(self).dim(),
        ensures
            final(self).wf(),
            final(self).dim() == old(self).dim(),
            final(self).amps() == apply_amps(old(self).amps(), pauli_y_mat(), seq![qubit.index]),
    {
        let g = pauli_y();
        self.apply_single(&g, qubit);
    }

    /// Applies the phase-flip gate to `qubit`.
    pub fn Z(&mut self, qubit: &Qubit)
        requires
            old(self).wf(),
            qubit.index < old(self).dim(),
        ensures
            final(self).wf(),
            final(self).dim() == old(self).dim(),
            final(self).amps() == apply_amps(old(self).amps(), pauli_z_mat(), seq![qubit.index]),
    {
        let g = pauli_z();
        self.apply_single(&g, qubit);
    }

    /// Applies the identity gate to `qubit`.
    pub fn ID(&mut self, qubit: &Qubit)
        requires
            old(self).wf(),
            qubit.index < old(self).dim(),
        ensures
            final(self).wf(),
            final(self).dim() == old(self).dim(),
            final(self).amps() == apply_amps(old(self).amps(), identity_mat(), seq![qubit.index]),
    {
        let g = identity();
        self.apply_single(&g, qubit);
    }

    /// Applies the phase gate with the given fixed-point cosine and sine
    /// of the phase angle to `qubit`.
    pub fn phase(&mut self, cos_fix: i64, sin_fix: i64, qubit: &Qubit)
        requires
            old(self).wf(),
            qubit.index < old(self).dim(),
            -(SCALE as int) <= cos_fix <= SCALE as int,
            -(SCALE as int) <= sin_fix <= SCALE as int,
        ensures
            final(self).wf(),
            final(self).dim() == old(self).dim(),
            final(self).amps() == apply_amps(
                old(self).amps(),
                phase_mat(cos_fix as int, sin_fix as int),
                seq![qubit.index],
            ),
    {
        let g = phase_gate(cos_fix, sin_fix);
        self.apply_single(&g, qubit);
    }
}

} // verus!
