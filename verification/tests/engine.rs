use rusq::gates::double::sqswap;
use rusq::gates::single::{hadamard, FRAC_1_SQRT_2, HALF};
use rusq::numeric::{Complex, SCALE};
use rusq::prelude::{
    DoubleGateApplicator, MeasuredResult, QuantumMachine, QuantumSimulator, Qubit,
    SimulatorError, SingleGateApplicator,
};

fn set(sim: &mut QuantumSimulator, qubit: &Qubit, r: MeasuredResult) {
    if sim.measure(qubit) != r {
        sim.X(qubit);
    }
}

fn norm(sim: &QuantumSimulator) -> f64 {
    let scale = SCALE as f64;
    let mut total = 0.0f64;
    for i in 0..sim.state_len() {
        let a = sim.amplitude(i);
        let re = a.re as f64 / scale;
        let im = a.im as f64 / scale;
        total += re * re + im * im;
    }
    total
}

#[test]
fn new_register_is_basis_zero() {
    let sim = QuantumSimulator::new(2);
    assert_eq!(sim.state_len(), 4);
    assert_eq!(sim.amplitude(0), Complex { re: SCALE, im: 0 });
    for i in 1..4 {
        assert_eq!(sim.amplitude(i), Complex { re: 0, im: 0 });
    }
}

#[test]
fn hadamard_amplitudes_exact() {
    let mut sim = QuantumSimulator::new(1);
    let qubit = sim.get_qubits()[0];
    sim.H(&qubit);
    assert_eq!(sim.amplitude(0), Complex { re: FRAC_1_SQRT_2, im: 0 });
    assert_eq!(sim.amplitude(1), Complex { re: FRAC_1_SQRT_2, im: 0 });
}

#[test]
fn pauli_y_amplitudes_exact() {
    let mut sim = QuantumSimulator::new(1);
    let qubit = sim.get_qubits()[0];
    sim.Y(&qubit);
    assert_eq!(sim.amplitude(0), Complex { re: 0, im: 0 });
    assert_eq!(sim.amplitude(1), Complex { re: 0, im: -SCALE });
}

#[test]
fn pauli_z_flips_one_phase() {
    let mut sim = QuantumSimulator::new(1);
    let qubit = sim.get_qubits()[0];
    sim.X(&qubit);
    sim.Z(&qubit);
    assert_eq!(sim.amplitude(0), Complex { re: 0, im: 0 });
    assert_eq!(sim.amplitude(1), Complex { re: -SCALE, im: 0 });
}

#[test]
fn identity_leaves_state() {
    let mut sim = QuantumSimulator::new(1);
    let qubit = sim.get_qubits()[0];
    sim.ID(&qubit);
    assert_eq!(sim.amplitude(0), Complex { re: SCALE, im: 0 });
    assert_eq!(sim.amplitude(1), Complex { re: 0, im: 0 });
}

#[test]
fn phase_multiplies_one_branch() {
    let mut sim = QuantumSimulator::new(1);
    let qubit = sim.get_qubits()[0];
    sim.X(&qubit);
    // a quarter turn: the factor i
    sim.phase(0, SCALE, &qubit);
    assert_eq!(sim.amplitude(0), Complex { re: 0, im: 0 });
    assert_eq!(sim.amplitude(1), Complex { re: 0, im: SCALE });
}

#[test]
fn sqnot_amplitudes_exact() {
    let mut sim = QuantumSimulator::new(1);
    let qubit = sim.get_qubits()[0];
    let gate = rusq::gates::single::sqnot();
    sim.apply_single(&gate, &qubit);
    assert_eq!(sim.amplitude(0), Complex { re: HALF, im: HALF });
    assert_eq!(sim.amplitude(1), Complex { re: HALF, im: -HALF });
}

#[test]
fn normalization_survives_gate_sequences() {
    let mut sim = QuantumSimulator::new(2);
    let qubits = sim.get_qubits();
    sim.H(&qubits[0]);
    sim.CNOT(&qubits[0], &qubits[1]);
    sim.SQSWAP(&qubits[0], &qubits[1]);
    sim.H(&qubits[1]);
    sim.Y(&qubits[0]);
    assert!((norm(&sim) - 1.0).abs() < 1e-8);
}

#[test]
fn normalization_survives_measurement() {
    let mut sim = QuantumSimulator::new(2);
    let qubits = sim.get_qubits();
    sim.H(&qubits[0]);
    sim.H(&qubits[1]);
    sim.measure(&qubits[0]);
    assert!((norm(&sim) - 1.0).abs() < 1e-8);
    sim.measure(&qubits[1]);
    assert!((norm(&sim) - 1.0).abs() < 1e-8);
}

#[test]
fn repeated_measurement_is_deterministic() {
    let mut sim = QuantumSimulator::new(2);
    let qubits = sim.get_qubits();
    for _ in 0..100 {
        set(&mut sim, &qubits[0], MeasuredResult::Zero);
        set(&mut sim, &qubits[1], MeasuredResult::Zero);
        sim.H(&qubits[0]);
        sim.SQSWAP(&qubits[0], &qubits[1]);
        let first = sim.measure(&qubits[0]);
        assert_eq!(sim.measure(&qubits[0]), first);
        assert_eq!(sim.measure(&qubits[0]), first);
        let other = sim.measure(&qubits[1]);
        assert_eq!(sim.measure(&qubits[1]), other);
    }
}

#[test]
fn apply_rejects_out_of_range_qubit() {
    let mut sim = QuantumSimulator::new(2);
    let gate = hadamard();
    let qs = vec![Qubit { index: 2 }];
    assert_eq!(
        sim.apply(&qs, &gate.matrix),
        Err(SimulatorError::InvalidQubitIndex)
    );
}

#[test]
fn apply_rejects_duplicate_qubit() {
    let mut sim = QuantumSimulator::new(2);
    let gate = sqswap();
    let qs = vec![Qubit { index: 1 }, Qubit { index: 1 }];
    assert_eq!(
        sim.apply(&qs, &gate.matrix),
        Err(SimulatorError::DuplicateQubit)
    );
}

#[test]
fn apply_rejects_wrong_matrix_size() {
    let mut sim = QuantumSimulator::new(2);
    let gate = hadamard();
    // a one-qubit matrix offered for a two-qubit application
    let qs = vec![Qubit { index: 0 }, Qubit { index: 1 }];
    assert_eq!(
        sim.apply(&qs, &gate.matrix),
        Err(SimulatorError::DimensionMismatch)
    );
}

#[test]
fn apply_rejects_bad_qubit_count() {
    let mut sim = QuantumSimulator::new(1);
    let gate = hadamard();
    let none: Vec<Qubit> = Vec::new();
    assert_eq!(
        sim.apply(&none, &gate.matrix),
        Err(SimulatorError::InvalidQubitCount)
    );
    let too_many = vec![Qubit { index: 0 }, Qubit { index: 1 }];
    assert_eq!(
        sim.apply(&too_many, &gate.matrix),
        Err(SimulatorError::InvalidQubitCount)
    );
}

#[test]
fn apply_accepts_valid_gate() {
    let mut sim = QuantumSimulator::new(1);
    let gate = hadamard();
    let qs = vec![Qubit { index: 0 }];
    assert_eq!(sim.apply(&qs, &gate.matrix), Ok(()));
}
