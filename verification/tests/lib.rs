use rusq::prelude::DoubleGateApplicator;
use rusq::prelude::MeasuredResult;
use rusq::prelude::QuantumMachine;
use rusq::prelude::QuantumSimulator;
use rusq::prelude::Qubit;
use rusq::prelude::SingleGateApplicator;
use rusq::prelude::TripleGateApplicator;

fn set(sim: &mut QuantumSimulator, qubit: &Qubit, r: MeasuredResult) {
    if sim.measure(qubit) != r {
        sim.X(qubit);
    }
}

fn as_result(v: usize) -> MeasuredResult {
    if v == 0 {
        MeasuredResult::Zero
    } else {
        MeasuredResult::One
    }
}

#[test]
fn single_qubit() {
    let sim = QuantumSimulator::new(1);
    let qubits = sim.get_qubits();

    assert_eq!(qubits.len(), 1);
}

#[test]
fn measure_qubit() {
    let mut sim = QuantumSimulator::new(1);
    let qubit = sim.get_qubits()[0];

    set(&mut sim, &qubit, MeasuredResult::Zero);
    assert_eq!(sim.measure(&qubit), MeasuredResult::Zero);

    set(&mut sim, &qubit, MeasuredResult::One);
    assert_eq!(sim.measure(&qubit), MeasuredResult::One);
}

#[test]
fn operate_x() {
    let mut sim = QuantumSimulator::new(1);
    let qubit = sim.get_qubits()[0];

    set(&mut sim, &qubit, MeasuredResult::Zero);
    assert_eq!(sim.measure(&qubit), MeasuredResult::Zero);
    sim.X(&qubit);
    assert_eq!(sim.measure(&qubit), MeasuredResult::One);
}

#[test]
fn operate_h() {
    let mut sim = QuantumSimulator::new(1);
    let qubit = sim.get_qubits()[0];

    let measure_count = 10000;
    let mut count_zero = 0;

    for _ in 0..measure_count {
        set(&mut sim, &qubit, MeasuredResult::Zero);
        sim.H(&qubit);
        if sim.measure(&qubit) == MeasuredResult::Zero {
            count_zero += 1;
        }
    }

    // five sigma around the fair mean
    assert!(count_zero > 4500 && 5500 > count_zero);
}

#[test]
fn epr_pair() {
    let mut sim = QuantumSimulator::new(2);
    let qubits = sim.get_qubits();
    let measure_count = 10000;

    for _ in 0..measure_count {
        set(&mut sim, &qubits[0], MeasuredResult::Zero);
        set(&mut sim, &qubits[1], MeasuredResult::Zero);

        sim.H(&qubits[0]);
        sim.CNOT(&qubits[0], &qubits[1]);

        assert_eq!(sim.measure(&qubits[0]), sim.measure(&qubits[1]));
    }
}

#[test]
fn operate_cnot() {
    let mut sim = QuantumSimulator::new(2);
    let qubits = sim.get_qubits();

    let table: [[usize; 4]; 4] = [[0, 0, 0, 0], [0, 1, 0, 1], [1, 0, 1, 1], [1, 1, 1, 0]];
    let perms: [[usize; 2]; 2] = [[0, 1], [1, 0]];

    for perm in perms.iter() {
        for row in table.iter() {
            set(&mut sim, &qubits[perm[0]], as_result(row[0]));
            set(&mut sim, &qubits[perm[1]], as_result(row[1]));

            sim.CNOT(&qubits[perm[0]], &qubits[perm[1]]);

            assert_eq!(as_result(row[2]), sim.measure(&qubits[perm[0]]));
            assert_eq!(as_result(row[3]), sim.measure(&qubits[perm[1]]));
        }
    }
}

#[test]
fn operate_swap() {
    let mut sim = QuantumSimulator::new(2);
    let qubits = sim.get_qubits();

    let table: [[usize; 4]; 4] = [[0, 0, 0, 0], [0, 1, 1, 0], [1, 0, 0, 1], [1, 1, 1, 1]];
    let perms: [[usize; 2]; 2] = [[0, 1], [1, 0]];

    for perm in perms.iter() {
        for row in table.iter() {
            set(&mut sim, &qubits[perm[0]], as_result(row[0]));
            set(&mut sim, &qubits[perm[1]], as_result(row[1]));

            sim.SWAP(&qubits[perm[0]], &qubits[perm[1]]);

            assert_eq!(as_result(row[2]), sim.measure(&qubits[perm[0]]));
            assert_eq!(as_result(row[3]), sim.measure(&qubits[perm[1]]));
        }
    }
}

#[test]
fn operate_ccnot() {
    let mut sim = QuantumSimulator::new(3);
    let qubits = sim.get_qubits();

    let table: [[usize; 6]; 8] = [
        [0, 0, 0, 0, 0, 0],
        [0, 0, 1, 0, 0, 1],
        [0, 1, 0, 0, 1, 0],
        [0, 1, 1, 0, 1, 1],
        [1, 0, 0, 1, 0, 0],
        [1, 0, 1, 1, 0, 1],
        [1, 1, 0, 1, 1, 1],
        [1, 1, 1, 1, 1, 0],
    ];
    let perms: [[usize; 3]; 6] = [
        [0, 1, 2],
        [0, 2, 1],
        [1, 0, 2],
        [1, 2, 0],
        [2, 0, 1],
        [2, 1, 0],
    ];

    for perm in perms.iter() {
        for row in table.iter() {
            set(&mut sim, &qubits[perm[0]], as_result(row[0]));
            set(&mut sim, &qubits[perm[1]], as_result(row[1]));
            set(&mut sim, &qubits[perm[2]], as_result(row[2]));

            sim.CCNOT(&qubits[perm[0]], &qubits[perm[1]], &qubits[perm[2]]);

            assert_eq!(as_result(row[3]), sim.measure(&qubits[perm[0]]));
            assert_eq!(as_result(row[4]), sim.measure(&qubits[perm[1]]));
            assert_eq!(as_result(row[5]), sim.measure(&qubits[perm[2]]));
        }
    }
}

#[test]
fn sqswap_twice_is_swap() {
    let mut sim = QuantumSimulator::new(2);
    let qubits = sim.get_qubits();

    set(&mut sim, &qubits[0], MeasuredResult::One);
    set(&mut sim, &qubits[1], MeasuredResult::Zero);

    sim.SQSWAP(&qubits[0], &qubits[1]);
    sim.SQSWAP(&qubits[0], &qubits[1]);

    assert_eq!(sim.measure(&qubits[0]), MeasuredResult::Zero);
    assert_eq!(sim.measure(&qubits[1]), MeasuredResult::One);
}

#[test]
fn sqnot_twice_is_x() {
    let mut sim = QuantumSimulator::new(1);
    let qubit = sim.get_qubits()[0];
    let gate = rusq::gates::single::sqnot();

    set(&mut sim, &qubit, MeasuredResult::Zero);
    sim.apply_single(&gate, &qubit);
    sim.apply_single(&gate, &qubit);

    assert_eq!(sim.measure(&qubit), MeasuredResult::One);
}
