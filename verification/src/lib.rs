//! A simulator for a gate-model quantum computer.
//!
//! The register is a dense state vector of `2^n` complex amplitudes, stored
//! in fixed-point form so that every operation on it can be verified exactly.
//! Gates are arbitrary unitary matrices applied to any subset of qubits, and
//! measurement collapses the register while restoring its normalization.

use vstd::prelude::*;

pub mod bits;
pub mod gates;
pub mod mapper;
pub mod numeric;
pub mod prelude;
pub mod simulator;

pub use gates::double::DoubleGateApplicator;
pub use gates::single::SingleGateApplicator;
pub use gates::triple::TripleGateApplicator;
pub use simulator::QuantumSimulator;

verus! {

/// The result of measuring one qubit in the computational basis.
#[derive(Debug, PartialEq, Eq, Clone, Copy, Structural)]
pub enum MeasuredResult {
    /// The qubit was observed in state 0.
    Zero,
    /// The qubit was observed in state 1.
    One,
}

/// A handle to one qubit of a quantum machine: just the bit position it
/// occupies in the register's index space.
#[derive(Debug, PartialEq, Eq, Clone, Copy, Structural)]
pub struct Qubit {
    /// The index of the qubit in its machine, in `[0, n)`.
    pub index: usize,
}

/// A contract violation detected at the boundary of a gate application or
/// a measurement, reported before any amplitude is touched.
#[derive(Debug, PartialEq, Eq, Clone, Copy, Structural)]
pub enum SimulatorError {
    /// A supplied qubit's index is not below the register's qubit count.
    InvalidQubitIndex,
    /// The same qubit appears more than once in a gate's qubit list.
    DuplicateQubit,
    /// A gate matrix whose size is not `2^k` by `2^k` for `k` qubits.
    DimensionMismatch,
    /// No qubits were supplied, or more than the register holds.
    InvalidQubitCount,
}

/// A machine that owns a register of qubits: it can list them and measure
/// one of them.  The states themselves are the implementer's business.
pub trait QuantumMachine {
    /// The implementer's well-formedness condition.
    spec fn inv(&self) -> bool;

    /// How many qubits the machine holds.
    spec fn qubit_count(&self) -> nat;

    /// Returns all the qubits of the machine, in index order.
    fn get_qubits(&self) -> (r: Vec<Qubit>)
        requires
            self.inv(),
        ensures
            r@.len() == self.qubit_count(),
            forall|i: int| 0 <= i < r@.len() ==> (#[trigger] r@[i]).index == i,
    ;

    /// Measures the given qubit, collapsing the machine's state onto the
    /// observed outcome.
    fn measure(&mut self, qubit: &Qubit) -> (r: MeasuredResult)
        requires
            old(self).inv(),
            qubit.index < old(self).qubit_count(),
        ensures
            final(self).inv(),
            final(self).qubit_count() == old(self).qubit_count(),
    ;
}

} // verus!
