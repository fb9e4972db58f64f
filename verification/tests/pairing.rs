use gkr::bits::{binary_string, bit_count_for_n_elem, insert_bit, mask, selector_from_position, selector_from_usize};
use gkr::pairing::{index_pair, PairingIndex};

#[test]
fn test_bit_insertion() {
    let val: usize = 0b10101;
    assert_eq!(insert_bit(val, 0, 0), 0b101010);
    assert_eq!(insert_bit(val, 0, 1), 0b101011);
    assert_eq!(insert_bit(val, 5, 0), 0b010101);
    assert_eq!(insert_bit(val, 5, 1), 0b110101);

    assert_eq!(insert_bit(0b10, 1, 0), 0b100);
    assert_eq!(insert_bit(0b10, 1, 1), 0b110);
}

#[test]
fn test_index_pairing() {
    assert_eq!(index_pair(3, 0), vec![(0, 4), (1, 5), (2, 6), (3, 7)]);
    assert_eq!(index_pair(3, 1), vec![(0, 2), (1, 3), (4, 6), (5, 7)]);
    assert_eq!(index_pair(3, 2), vec![(0, 1), (2, 3), (4, 5), (6, 7)]);
    assert_eq!(index_pair(2, 0), vec![(0, 2), (1, 3)]);
    assert_eq!(index_pair(2, 1), vec![(0, 1), (2, 3)]);
    assert_eq!(index_pair(1, 0), vec![(0, 1)]);
}

#[test]
fn test_pairing_index_creation() {
    let pairing_index = PairingIndex::new(3, 0).unwrap();
    assert_eq!(pairing_index.shift_value(), 4);

    let pairing_index = PairingIndex::new(3, 1).unwrap();
    assert_eq!(pairing_index.shift_value(), 2);
}

#[test]
fn test_pairing_index_computation() {
    let pairing_index = PairingIndex::new(3, 0).unwrap();
    assert_eq!(pairing_index.remaining(), vec![0, 1, 2, 3]);

    let pairing_index = PairingIndex::new(3, 1).unwrap();
    assert_eq!(pairing_index.remaining(), vec![0, 1, 4, 5]);

    let pairing_index = PairingIndex::new(3, 2).unwrap();
    assert_eq!(pairing_index.remaining(), vec![0, 2, 4, 6]);

    let pairing_index = PairingIndex::new(4, 2).unwrap();
    assert_eq!(pairing_index.remaining(), vec![0, 1, 4, 5, 8, 9, 12, 13]);

    let pairing_index = PairingIndex::new(4, 4);
    assert!(pairing_index.is_err());
}

#[test]
fn pairing_index_steps_one_at_a_time() {
    let mut pairing_index = PairingIndex::new(2, 0).unwrap();
    assert_eq!(pairing_index.next(), Some(0));
    assert_eq!(pairing_index.next(), Some(1));
    assert_eq!(pairing_index.next(), None);
}

#[test]
fn mask_and_selectors() {
    assert_eq!(mask(0), 0);
    assert_eq!(mask(1), 1);
    assert_eq!(mask(3), 0b111);
    assert_eq!(selector_from_usize(5, 4), vec![true, false, true, false]);
    assert_eq!(selector_from_position(3, 1).unwrap(), vec![false, true, false]);
    assert!(selector_from_position(3, 3).is_err());
    assert_eq!(binary_string(5, 4), "0101");
    assert_eq!(binary_string(5, 1), "101");
    assert_eq!(bit_count_for_n_elem(8), 3);
    assert_eq!(bit_count_for_n_elem(5), 3);
    assert_eq!(bit_count_for_n_elem(1), 1);
}

#[test]
fn pairing_index_pairs_differ_in_one_bit() {
    let pi = PairingIndex::new(3, 1).unwrap();
    let shift = pi.shift_value();
    for i in pi.remaining() {
        assert_eq!(i + shift, i | shift);
        assert_eq!(i & shift, 0);
    }
}
