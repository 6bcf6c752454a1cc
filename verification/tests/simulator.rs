use rusq::mapper::{compress, expand, index_pair, mask_pair};
use rusq::Qubit;

#[test]
fn test_mask_pair() {
    let qubit = Qubit { index: 12 };
    let (upper_mask, lower_mask) = mask_pair(&qubit);
    assert_eq!(
        upper_mask,
        0b11111111_11111111_11111111_11111111_11111111_11111111_11100000_00000000usize
    );

    assert_eq!(
        lower_mask,
        0b00000000_00000000_00000000_00000000_00000000_00000000_00001111_11111111usize
    )
}

#[test]
fn test_index_pair() {
    let qubit = Qubit { index: 13 };
    let (upper_mask, lower_mask) = mask_pair(&qubit);
    let (iz, io) = index_pair(
        0b01011101_11111011_11011111usize,
        &qubit,
        upper_mask,
        lower_mask,
    );
    assert_eq!(iz, 0b10111011_11011011_11011111usize);

    assert_eq!(io, 0b10111011_11111011_11011111usize);
}

#[test]
fn index_pair_is_one_qubit_expand() {
    let qubit = Qubit { index: 2 };
    let (upper_mask, lower_mask) = mask_pair(&qubit);
    let sorted = vec![qubit];
    for c in 0..8usize {
        let (iz, io) = index_pair(c, &qubit, upper_mask, lower_mask);
        assert_eq!(iz, expand(&sorted, c, 0));
        assert_eq!(io, expand(&sorted, c, 1));
    }
}

#[test]
fn expand_compress_roundtrip() {
    // two participating qubits of a four-qubit register
    let sorted = vec![Qubit { index: 1 }, Qubit { index: 3 }];
    let mut seen = [false; 16];
    for c in 0..4usize {
        for p in 0..4usize {
            let f = expand(&sorted, c, p);
            assert!(f < 16);
            assert!(!seen[f]);
            seen[f] = true;
            let (c2, p2) = compress(&sorted, f);
            assert_eq!(c2, c);
            assert_eq!(p2, p);
        }
    }
    // every full index was produced exactly once
    assert!(seen.iter().all(|&x| x));
}

#[test]
fn expand_with_all_qubits_participating() {
    // k == n: the compressed index is always 0 and the full index is the
    // pattern spread over the sorted positions
    let sorted = vec![Qubit { index: 0 }, Qubit { index: 1 }];
    for p in 0..4usize {
        // qubit 0 carries the most significant pattern bit
        let expected = ((p & 0b10) >> 1) | ((p & 0b01) << 1);
        assert_eq!(expand(&sorted, 0, p), expected);
        let (c, p2) = compress(&sorted, expected);
        assert_eq!(c, 0);
        assert_eq!(p2, p);
    }
}

#[test]
fn expand_places_pattern_bits() {
    let sorted = vec![Qubit { index: 0 }, Qubit { index: 2 }];
    // the first (lowest) sorted qubit carries the most significant
    // pattern bit
    let f = expand(&sorted, 0, 0b10);
    assert_eq!(f, 0b001);
    let f = expand(&sorted, 0, 0b01);
    assert_eq!(f, 0b100);
    // the compressed bit fills the remaining position
    let f = expand(&sorted, 1, 0b00);
    assert_eq!(f, 0b010);
    let f = expand(&sorted, 1, 0b11);
    assert_eq!(f, 0b111);
}
