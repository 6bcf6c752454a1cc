//! The per-arity gate catalog: named constant unitary matrices in
//! fixed-point form, grouped by how many qubits they act on, with the
//! applicator interfaces the simulator implements.

pub mod double;
pub mod single;
pub mod triple;
