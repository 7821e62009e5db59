use wordfreq::collisions::{check_len, to_word, U32Bitmask};

#[test]
fn to_word_writes_base26_digits() {
    assert_eq!(to_word(0), vec![0u8; 8]);
    assert_eq!(to_word(1), vec![b'b', 0, 0, 0, 0, 0, 0, 0]);
    assert_eq!(to_word(25), vec![b'z', 0, 0, 0, 0, 0, 0, 0]);
    assert_eq!(to_word(26), vec![b'a', b'b', 0, 0, 0, 0, 0, 0]);
    assert_eq!(to_word(27), vec![b'b', b'b', 0, 0, 0, 0, 0, 0]);
    assert_eq!(to_word(26 * 26), vec![b'a', b'a', b'b', 0, 0, 0, 0, 0]);
}

#[test]
fn bitmask_set_and_get() {
    let mut bits = U32Bitmask::default();
    assert!(!bits.get(0));
    assert!(!bits.get(5));
    bits.set(5);
    assert!(bits.get(5));
    assert!(!bits.get(4));
    assert!(!bits.get(6));
    assert!(!bits.get(13));
    bits.set(u32::MAX);
    assert!(bits.get(u32::MAX));
    assert!(bits.get(5));
    assert!(!bits.get(u32::MAX - 1));
}

#[test]
fn census_reports_zero_for_length_one() {
    assert_eq!(check_len(1), 0);
}

#[test]
fn census_reports_zero_for_length_two() {
    assert_eq!(check_len(2), 0);
}

#[test]
fn census_reports_zero_for_length_three() {
    assert_eq!(check_len(3), 0);
}

#[test]
fn census_reports_zero_for_length_four() {
    assert_eq!(check_len(4), 0);
}

#[test]
fn census_reports_zero_for_length_five() {
    assert_eq!(check_len(5), 0);
}
