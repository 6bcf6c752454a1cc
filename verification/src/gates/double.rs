//! Gates on two qubits: controlled NOT, the swap, and its square root.

use crate::gates::single::HALF;
use crate::numeric::{c_one, c_zero, Complex, ComplexVal};
use crate::simulator::{apply_amps, mat_bounded, vals, QuantumSimulator};
use crate::{QuantumMachine, Qubit};
use vstd::prelude::*;

verus! {

/// A gate on two qubits: a 4 by 4 fixed-point matrix, row-major, with
/// the first qubit as the most significant index bit.
#[derive(Debug, Clone)]
pub struct DoubleGate {
    /// The matrix entries, row-major.
    pub matrix: Vec<Complex>,
}

impl DoubleGate {
    /// A 4 by 4 matrix with entries within the component limit.
    pub open spec fn wf(&self) -> bool {
        self.matrix@.len() == 16 && mat_bounded(vals(self.matrix@))
    }
}

/// A trait for the types which accept operations on two qubits.
pub trait DoubleGateApplicator: QuantumMachine {
    /// An operation applying the given two-qubit gate to `qubit1` and
    /// `qubit2`, with `qubit1` as the most significant index bit.
    fn apply_double(&mut self, gate: &DoubleGate, qubit1: &Qubit, qubit2: &Qubit)
        requires
            old(self).inv(),
            gate.wf(),
            qubit1.index < old(self).qubit_count(),
            qubit2.index < old(self).qubit_count(),
            qubit1.index != qubit2.index,
        ensures
            final(self).inv(),
            final(self).qubit_count() == old(self).qubit_count(),
    ;
}

impl DoubleGateApplicator for QuantumSimulator {
    fn apply_double(&mut self, gate: &DoubleGate, qubit1: &Qubit, qubit2: &Qubit)
        ensures
            final(self).amps() == apply_amps(
                old(self).amps(),
                vals(gate.matrix@),
                seq![qubit1.index, qubit2.index],
            ),
    {
        let qs = vec![*qubit1, *qubit2];
        proof {
            assert(crate::mapper::idxs(qs@) =~= seq![qubit1.index, qubit2.index]);
            vstd::arithmetic::power2::lemma2_to64();
        }
        let r = self.apply(&qs, &gate.matrix);
        match r {
            Ok(_) => (),
            Err(_) => {
                proof {
                    assert(false);
                }
            },
        }
    }
}

/// The controlled NOT: flips the second qubit where the first is 1.
pub open spec fn cnot_mat() -> Seq<ComplexVal> {
    seq![
        c_one(), c_zero(), c_zero(), c_zero(),
        c_zero(), c_one(), c_zero(), c_zero(),
        c_zero(), c_zero(), c_zero(), c_one(),
        c_zero(), c_zero(), c_one(), c_zero(),
    ]
}

/// The swap: exchanges the two qubits' values.
pub open spec fn swap_mat() -> Seq<ComplexVal> {
    seq![
        c_one(), c_zero(), c_zero(), c_zero(),
        c_zero(), c_zero(), c_one(), c_zero(),
        c_zero(), c_one(), c_zero(), c_zero(),
        c_zero(), c_zero(), c_zero(), c_one(),
    ]
}

/// The square root of the swap: applying it twice swaps the qubits.
pub open spec fn sqswap_mat() -> Seq<ComplexVal> {
    seq![
        c_one(), c_zero(), c_zero(), c_zero(),
        c_zero(),
        ComplexVal { re: HALF as int, im: HALF as int },
        ComplexVal { re: HALF as int, im: -(HALF as int) },
        c_zero(),
        c_zero(),
        ComplexVal { re: HALF as int, im: -(HALF as int) },
        ComplexVal { re: HALF as int, im: HALF as int },
        c_zero(),
        c_zero(), c_zero(), c_zero(), c_one(),
    ]
}

/// The controlled-NOT gate, control first.
pub fn cnot() -> (g: DoubleGate)
    ensures
        g.wf(),
        vals(g.matrix@) == cnot_mat(),
{
    let mut m: Vec<Complex> = Vec::new();
    m.push(Complex::one());
    m.push(Complex::zero());
    m.push(Complex::zero());
    m.push(Complex::zero());
    m.push(Complex::zero());
    m.push(Complex::one());
    m.push(Complex::zero());
    m.push(Complex::zero());
    m.push(Complex::zero());
    m.push(Complex::zero());
    m.push(Complex::zero());
    m.push(Complex::one());
    m.push(Complex::zero());
    m.push(Complex::zero());
    m.push(Complex::one());
    m.push(Complex::zero());
    let g = DoubleGate { matrix: m };
    proof {
        assert(vals(g.matrix@) =~= cnot_mat());
    }
    g
}

/// The swap gate.
pub fn swap() -> (g: DoubleGate)
    ensures
        g.wf(),
        vals(g.matrix@) == swap_mat(),
{
    let mut m: Vec<Complex> = Vec::new();
    m.push(Complex::one());
    m.push(Complex::zero());
    m.push(Complex::zero());
    m.push(Complex::zero());
    m.push(Complex::zero());
    m.push(Complex::zero());
    m.push(Complex::one());
    m.push(Complex::zero());
    m.push(Complex::zero());
    m.push(Complex::one());
    m.push(Complex::zero());
    m.push(Complex::zero());
    m.push(Complex::zero());
    m.push(Complex::zero());
    m.push(Complex::zero());
    m.push(Complex::one());
    let g = DoubleGate { matrix: m };
    proof {
        assert(vals(g.matrix@) =~= swap_mat());
    }
    g
}

/// The square root of the swap gate.
pub fn sqswap() -> (g: DoubleGate)
    ensures
        g.wf(),
        vals(g.matrix@) == sqswap_mat(),
{
    let mut m: Vec<Complex> = Vec::new();
    m.push(Complex::one());
    m.push(Complex::zero());
    m.push(Complex::zero());
    m.push(Complex::zero());
    m.push(Complex::zero());
    m.push(Complex { re: HALF, im: HALF });
    m.push(Complex { re: HALF, im: -HALF });
    m.push(Complex::zero());
    m.push(Complex::zero());
    m.push(Complex { re: HALF, im: -HALF });
    m.push(Complex { re: HALF, im: HALF });
    m.push(Complex::zero());
    m.push(Complex::zero());
    m.push(Complex::zero());
    m.push(Complex::zero());
    m.push(Complex::one());
    let g = DoubleGate { matrix: m };
    proof {
        assert(vals(g.matrix@) =~= sqswap_mat());
    }
    g
}

#[allow(non_snake_case)]
impl QuantumSimulator {
    /// Applies the controlled NOT with `control` first to `target`.
    pub fn CNOT(&mut self, control: &Qubit, target: &Qubit)
        requires
            old(self).wf(),
            control.index < old(self).dim(),
            target.index < old(self).dim(),
            control.index != target.index,
        ensures
            final(self).wf(),
            final(self).dim() == old(self).dim(),
            final(self).amps() == apply_amps(
                old(self).amps(),
                cnot_mat(),
                seq![control.index, target.index],
            ),
    {
        let g = cnot();
        self.apply_double(&g, control, target);
    }

    /// Swaps the two qubits' values.
    pub fn SWAP(&mut self, qubit1: &Qubit, qubit2: &Qubit)
        requires
            old(self).wf(),
            qubit1.index < old(self).dim(),
            qubit2.index < old(self).dim(),
            qubit1.index != qubit2.index,
        ensures
            final(self).wf(),
            final(self).dim() == old(self).dim(),
            final(self).amps() == apply_amps(
                old(self).amps(),
                swap_mat(),
                seq![qubit1.index, qubit2.index],
            ),
    {
        let g = swap();
        self.apply_double(&g, qubit1, qubit2);
    }

    /// Applies the square root of the swap.
    pub fn SQSWAP(&mut self, qubit1: &Qubit, qubit2: &Qubit)
        requires
            old(self).wf(),
            qubit1.index < old(self).dim(),
            qubit2.index < old(self).dim(),
            qubit1.index != qubit2.index,
        ensures
            final(self).wf(),
            final(self).dim() == old(self).dim(),
            final(self).amps() == apply_amps(
                old(self).amps(),
                sqswap_mat(),
                seq![qubit1.index, qubit2.index],
            ),
    {
        let g = sqswap();
        self.apply_double(&g, qubit1, qubit2);
    }
}

} // verus!
