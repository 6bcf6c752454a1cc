//! Gates on three qubits: the Toffoli (controlled controlled NOT).

use crate::numeric::{c_one, c_zero, Complex, ComplexVal};
use crate::simulator::{apply_amps, mat_bounded, vals, QuantumSimulator};
use crate::{QuantumMachine, Qubit};
use vstd::arithmetic::div_mod::lemma_fundamental_div_mod_converse;
use vstd::prelude::*;

verus! {

/// A gate on three qubits: an 8 by 8 fixed-point matrix, row-major, with
/// the first qubit as the most significant index bit.
#[derive(Debug, Clone)]
pub struct TripleGate {
    /// The matrix entries, row-major.
    pub matrix: Vec<Complex>,
}

impl TripleGate {
    /// An 8 by 8 matrix with entries within the component limit.
    pub open spec fn wf(&self) -> bool {
        self.matrix@.len() == 64 && mat_bounded(vals(self.matrix@))
    }
}

/// A trait for the types which accept operations on three qubits.
pub trait TripleGateApplicator: QuantumMachine {
    /// An operation applying the given three-qubit gate to the qubits,
    /// with `qubit1` as the most significant index bit.
    fn apply_triple(&mut self, gate: &TripleGate, qubit1: &Qubit, qubit2: &Qubit, qubit3: &Qubit)
        requires
            old(self).inv(),
            gate.wf(),
            qubit1.index < old(self).qubit_count(),
            qubit2.index < old(self).qubit_count(),
            qubit3.index < old(self).qubit_count(),
            qubit1.index != qubit2.index,
            qubit1.index != qubit3.index,
            qubit2.index != qubit3.index,
        ensures
            final(self).inv(),
            final(self).qubit_count() == old(self).qubit_count(),
    ;
}

impl TripleGateApplicator for QuantumSimulator {
    fn apply_triple(&mut self, gate: &TripleGate, qubit1: &Qubit, qubit2: &Qubit, qubit3: &Qubit)
        ensures
            final(self).amps() == apply_amps(
                old(self).amps(),
                vals(gate.matrix@),
                seq![qubit1.index, qubit2.index, qubit3.index],
            ),
    {
        let qs = vec![*qubit1, *qubit2, *qubit3];
        proof {
            assert(crate::mapper::idxs(qs@) =~= seq![
                qubit1.index,
                qubit2.index,
                qubit3.index,
            ]);
            vstd::arithmetic::power2::lemma2_to64();
        }
        let r = self.apply(&qs, &gate.matrix);
        match r {
            Ok(_) => (),
            Err(_) => {
                proof {
                    assert(false);
                }
            },
        }
    }
}

/// The column holding the one in row `r` of the Toffoli matrix: the last
/// two basis states (both controls set) exchange their target bit.
pub open spec fn ccnot_col(r: int) -> int {
    if r < 6 {
        r
    } else {
        13 - r
    }
}

/// The Toffoli matrix: a permutation that flips the third qubit exactly
/// where the first two are both 1.
pub open spec fn ccnot_mat() -> Seq<ComplexVal> {
    Seq::new(
        64,
        |i: int|
            if i % 8 == ccnot_col(i / 8) {
                c_one()
            } else {
                c_zero()
            },
    )
}

/// The Toffoli gate, controls first.
pub fn ccnot() -> (g: TripleGate)
    ensures
        g.wf(),
        vals(g.matrix@) == ccnot_mat(),
{
    let mut m: Vec<Complex> = Vec::new();
    let mut r: usize = 0;
    while r < 8
        invariant
            r <= 8,
            m@.len() == 8 * r,
            forall|i: int| 0 <= i < m@.len() ==> (#[trigger] m@[i])@ == ccnot_mat()[i],
        decreases 8 - r,
    {
        let tc: usize = if r < 6 {
            r
        } else {
            13 - r
        };
        let mut c: usize = 0;
        while c < 8
            invariant
                c <= 8,
                r < 8,
                tc == ccnot_col(r as int),
                m@.len() == 8 * r + c,
                forall|i: int| 0 <= i < m@.len() ==> (#[trigger] m@[i])@ == ccnot_mat()[i],
            decreases 8 - c,
        {
            proof {
                lemma_fundamental_div_mod_converse(8 * r + c, 8, r as int, c as int);
            }
            if c == tc {
                m.push(Complex::one());
            } else {
                m.push(Complex::zero());
            }
            c = c + 1;
        }
        r = r + 1;
    }
    let g = TripleGate { matrix: m };
    proof {
        assert(vals(g.matrix@) =~= ccnot_mat());
    }
    g
}

#[allow(non_snake_case)]
impl QuantumSimulator {
    /// Applies the Toffoli gate: flips `target` exactly where both
    /// controls are 1.
    pub fn CCNOT(&mut self, control1: &Qubit, control2: &Qubit, target: &Qubit)
        requires
            old(self).wf(),
            control1.index < old(self).dim(),
            control2.index < old(self).dim(),
            target.index < old(self).dim(),
            control1.index != control2.index,
            control1.index != target.index,
            control2.index != target.index,
        ensures
            final(self).wf(),
            final(self).dim() == old(self).dim(),
            final(self).amps() == apply_amps(
                old(self).amps(),
                ccnot_mat(),
                seq![control1.index, control2.index, target.index],
            ),
    {
        let g = ccnot();
        self.apply_triple(&g, control1, control2, target);
    }
}

} // verus!
