use srch::bitmap::WordBitMapRow;
use srch::bitmap::bit_address;
use srch::bitmap::number_of_bytes;

#[test]
fn bytes_needed_is_ceiling_division() {
    assert_eq!(number_of_bytes(0), 0);
    assert_eq!(number_of_bytes(1), 1);
    assert_eq!(number_of_bytes(3), 1);
    assert_eq!(number_of_bytes(7), 1);
    assert_eq!(number_of_bytes(8), 1);
    assert_eq!(number_of_bytes(9), 2);
    assert_eq!(number_of_bytes(16), 2);
    assert_eq!(number_of_bytes(17), 3);
}

#[test]
fn bit_address_splits_index() {
    assert_eq!(bit_address(0), (0, 0));
    assert_eq!(bit_address(7), (0, 7));
    assert_eq!(bit_address(8), (1, 0));
    assert_eq!(bit_address(13), (1, 5));
}

#[test]
fn set_and_get_bits() {
    let mut bm = WordBitMapRow { bytes: vec![0, 0] };
    assert_eq!(bm.get_bit(0), Some(false));
    assert!(bm.set_bit(0, true));
    assert_eq!(bm.get_bit(0), Some(true));
    assert_eq!(bm.bytes, vec![1, 0]);
    assert!(bm.set_bit(9, true));
    assert_eq!(bm.bytes, vec![1, 2]);
    assert_eq!(bm.get_bit(9), Some(true));
    assert_eq!(bm.get_bit(8), Some(false));
    assert!(bm.set_bit(0, false));
    assert_eq!(bm.get_bit(0), Some(false));
    assert_eq!(bm.bytes, vec![0, 2]);
}

#[test]
fn bit_access_out_of_range_is_distinct() {
    let mut bm = WordBitMapRow { bytes: vec![0] };
    assert_eq!(bm.get_bit(7), Some(false));
    assert_eq!(bm.get_bit(8), None);
    assert!(!bm.set_bit(8, true));
    assert_eq!(bm.bytes, vec![0]);
}

#[test]
fn byte_access() {
    let mut bm = WordBitMapRow { bytes: vec![5, 9] };
    assert_eq!(bm.get_byte(0), Some(&5));
    assert_eq!(bm.get_byte(1), Some(&9));
    assert_eq!(bm.get_byte(2), None);
    assert!(bm.set_byte(1, 255));
    assert_eq!(bm.bytes, vec![5, 255]);
    assert!(!bm.set_byte(2, 1));
    assert_eq!(bm.bytes, vec![5, 255]);
}

#[test]
fn and_combines_equal_lengths_bytewise() {
    let a = WordBitMapRow { bytes: vec![0b1011, 0xf0] };
    let b = WordBitMapRow { bytes: vec![0b0110, 0x0f] };
    let r = WordBitMapRow::and(&a, &b).unwrap();
    assert_eq!(r.bytes, vec![0b0010, 0x00]);
}

#[test]
fn and_rejects_mismatched_lengths() {
    let a = WordBitMapRow { bytes: vec![1, 2] };
    let b = WordBitMapRow { bytes: vec![1] };
    assert!(WordBitMapRow::and(&a, &b).is_none());
}

#[test]
fn and_is_commutative_and_idempotent() {
    let a = WordBitMapRow { bytes: vec![0b1011, 0x3c] };
    let b = WordBitMapRow { bytes: vec![0b0110, 0x66] };
    let ab = WordBitMapRow::and(&a, &b).unwrap();
    let ba = WordBitMapRow::and(&b, &a).unwrap();
    assert_eq!(ab.bytes, ba.bytes);
    let aa = WordBitMapRow::and(&a, &a).unwrap();
    assert_eq!(aa.bytes, a.bytes);
    let c = WordBitMapRow { bytes: vec![0b1101, 0xaa] };
    let ab_c = WordBitMapRow::and(&ab, &c).unwrap();
    let bc = WordBitMapRow::and(&b, &c).unwrap();
    let a_bc = WordBitMapRow::and(&a, &bc).unwrap();
    assert_eq!(ab_c.bytes, a_bc.bytes);
}

#[test]
fn build_sets_bit_of_each_present_word() {
    let words = vec!["dog".to_string(), "owl".to_string()];
    let dict = vec!["cat".to_string(), "dog".to_string(), "fish".to_string()];
    let bm = WordBitMapRow::from_words_and_dict(&words, &dict);
    assert_eq!(bm.bytes, vec![0b010]);
}

#[test]
fn build_normalizes_its_words() {
    let words = vec!["Dog!".to_string(), "CAT".to_string()];
    let dict = vec!["cat".to_string(), "dog".to_string(), "fish".to_string()];
    let bm = WordBitMapRow::from_words_and_dict(&words, &dict);
    assert_eq!(bm.bytes, vec![0b011]);
}

#[test]
fn build_ignores_words_absent_from_dict() {
    let words = vec!["horse".to_string()];
    let dict = vec!["cat".to_string(), "dog".to_string()];
    let bm = WordBitMapRow::from_words_and_dict(&words, &dict);
    assert_eq!(bm.bytes, vec![0]);
}

#[test]
fn build_uses_first_position_of_repeated_dict_entries() {
    let words = vec!["a".to_string()];
    let dict = vec!["a".to_string(), "a".to_string()];
    let bm = WordBitMapRow::from_words_and_dict(&words, &dict);
    assert_eq!(bm.bytes, vec![0b01]);
}

#[test]
fn no_stemming_cats_do_not_match_cat() {
    let text = "Cats and dogs!".to_string();
    let words = srch::words::get_unique_words_from_string(&text);
    assert_eq!(words, vec!["cats".to_string(), "and".to_string(), "dogs".to_string()]);
    let dict = vec!["cat".to_string(), "dog".to_string(), "fish".to_string()];
    let bm = WordBitMapRow::from_words_and_dict(&words, &dict);
    assert_eq!(bm.bytes, vec![0]);
}
