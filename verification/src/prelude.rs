//! Convenient re-exports of the crate's public interface.

pub use crate::gates::double::DoubleGateApplicator;
pub use crate::gates::single::SingleGateApplicator;
pub use crate::gates::triple::TripleGateApplicator;
pub use crate::simulator::QuantumSimulator;
pub use crate::MeasuredResult;
pub use crate::QuantumMachine;
pub use crate::Qubit;
pub use crate::SimulatorError;
