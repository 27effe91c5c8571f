use mismem::labels::{address_label, parse_address_label, parse_sized, parse_typed, value_label};
use mismem::{Datatype, Memory};

#[test]
fn address_label_is_sixteen_hex_digits_colon_suffix() {
    assert_eq!(address_label(0x1000, Datatype::B4), "0000000000001000:u32");
    assert_eq!(address_label(0, Datatype::B1), "0000000000000000:u8");
    assert_eq!(address_label(u64::MAX, Datatype::B16S), "FFFFFFFFFFFFFFFF:i128");
    assert_eq!(address_label(0xDEADBEEF, Datatype::D), "00000000DEADBEEF:f64");
}

#[test]
fn every_suffix_round_trips() {
    let tags = [
        Datatype::B1,
        Datatype::B1S,
        Datatype::B2,
        Datatype::B2S,
        Datatype::B4,
        Datatype::B4S,
        Datatype::B8,
        Datatype::B8S,
        Datatype::B16,
        Datatype::B16S,
        Datatype::F,
        Datatype::D,
    ];
    for t in tags {
        let label = address_label(0x0123456789ABCDEF, t);
        assert_eq!(parse_address_label(&label), Some((0x0123456789ABCDEF, t)));
    }
}

#[test]
fn emitted_labels_parse_back_to_their_entry() {
    let mut m = Memory::new();
    m.push(0x2000, Datatype::B8, &[1, 0, 0, 0, 0, 0, 0, 0]);
    let rows = m.merged_rows();
    let label = rows[0].address_label();
    assert_eq!(label, "0000000000002000:u64");
    assert_eq!(parse_address_label(&label), Some((0x2000, Datatype::B8)));
}

#[test]
fn malformed_labels_are_rejected() {
    assert_eq!(parse_address_label(""), None);
    assert_eq!(parse_address_label("0000000000001000"), None);
    assert_eq!(parse_address_label(":u32"), None);
    assert_eq!(parse_address_label("00001000:u33"), None);
    assert_eq!(parse_address_label("00001000:"), None);
    assert_eq!(parse_address_label("00zz1000:u32"), None);
    assert_eq!(parse_address_label("10000000000000000:u32"), None);
}

#[test]
fn parse_splits_at_the_first_colon() {
    assert_eq!(parse_address_label("AB:u8"), Some((0xAB, Datatype::B1)));
    assert_eq!(parse_address_label("ab:u8"), Some((0xAB, Datatype::B1)));
    assert_eq!(parse_address_label("AB::u8"), None);
}

#[test]
fn unsigned_value_labels_are_plain_decimal() {
    assert_eq!(value_label(Datatype::B4, 42), Some("42".to_string()));
    assert_eq!(value_label(Datatype::B1, 0), Some("0".to_string()));
    assert_eq!(value_label(Datatype::B8, u64::MAX as u128), Some("18446744073709551615".to_string()));
    assert_eq!(
        value_label(Datatype::B16, u128::MAX),
        Some("340282366920938463463374607431768211455".to_string())
    );
}

#[test]
fn signed_value_labels_read_twos_complement() {
    assert_eq!(value_label(Datatype::B1S, 0xFF), Some("-1".to_string()));
    assert_eq!(value_label(Datatype::B1S, 0x80), Some("-128".to_string()));
    assert_eq!(value_label(Datatype::B1S, 0x7F), Some("127".to_string()));
    assert_eq!(value_label(Datatype::B4S, 0xFFFFFFFF), Some("-1".to_string()));
    assert_eq!(value_label(Datatype::B2S, 0x8000), Some("-32768".to_string()));
    assert_eq!(value_label(Datatype::B16S, u128::MAX), Some("-1".to_string()));
}

#[test]
fn float_value_labels_are_left_to_the_caller() {
    assert_eq!(value_label(Datatype::F, 0x3FC00000), None);
    assert_eq!(value_label(Datatype::D, 0), None);
}

#[test]
fn parse_typed_encodes_in_the_native_order() {
    assert_eq!(parse_typed("42", Datatype::B4), Some(42u32.to_le_bytes().to_vec()));
    assert_eq!(parse_typed("-1", Datatype::B1S), Some(vec![0xFF]));
    assert_eq!(parse_typed("-128", Datatype::B1S), Some(vec![0x80]));
    assert_eq!(parse_typed("+7", Datatype::B2), Some(vec![7, 0]));
    assert_eq!(
        parse_typed("4294967295", Datatype::B4),
        Some(vec![0xFF, 0xFF, 0xFF, 0xFF])
    );
    assert_eq!(parse_typed("0", Datatype::B16S), Some(vec![0u8; 16]));
    assert_eq!(parse_typed("-0", Datatype::B1S), Some(vec![0]));
}

#[test]
fn parse_typed_rejects_out_of_range_and_junk() {
    assert_eq!(parse_typed("", Datatype::B4), None);
    assert_eq!(parse_typed("256", Datatype::B1), None);
    assert_eq!(parse_typed("-1", Datatype::B1), None);
    assert_eq!(parse_typed("128", Datatype::B1S), None);
    assert_eq!(parse_typed("-129", Datatype::B1S), None);
    assert_eq!(parse_typed("4294967296", Datatype::B4), None);
    assert_eq!(parse_typed("12a", Datatype::B4), None);
    assert_eq!(parse_typed("+", Datatype::B4), None);
    assert_eq!(parse_typed("-", Datatype::B4S), None);
    assert_eq!(parse_typed("--1", Datatype::B4S), None);
    assert_eq!(parse_typed("1.5", Datatype::B4), None);
    assert_eq!(
        parse_typed("340282366920938463463374607431768211456", Datatype::B16),
        None
    );
}

#[test]
fn parse_sized_tries_unsigned_then_signed() {
    // The one-byte datatype option: 255 only fits u8, -1 only i8.
    let (t, bytes) = parse_sized("255", 1).unwrap();
    assert_eq!((t, bytes), (Datatype::B1, vec![0xFF]));
    let (t, bytes) = parse_sized("-1", 1).unwrap();
    assert_eq!((t, bytes), (Datatype::B1S, vec![0xFF]));
    let (t, _) = parse_sized("100", 1).unwrap();
    assert_eq!(t, Datatype::B1);
    assert_eq!(parse_sized("99999", 2), None);
    let (t, bytes) = parse_sized("-32768", 2).unwrap();
    assert_eq!((t, bytes), (Datatype::B2S, vec![0x00, 0x80]));
}

#[test]
fn labels_of_extreme_addresses() {
    assert_eq!(
        parse_address_label(&address_label(u64::MAX, Datatype::B1)),
        Some((u64::MAX, Datatype::B1))
    );
    assert_eq!(
        parse_address_label(&address_label(0, Datatype::D)),
        Some((0, Datatype::D))
    );
}
