use mismem::{Datatype, Memory};

fn le4(v: u32) -> Vec<u8> {
    vec![
        (v & 0xFF) as u8,
        ((v >> 8) & 0xFF) as u8,
        ((v >> 16) & 0xFF) as u8,
        ((v >> 24) & 0xFF) as u8,
    ]
}

#[test]
fn new_store_is_empty() {
    let m = Memory::new();
    assert_eq!(m.len(), 0);
    assert_eq!(m.merged_rows().len(), 0);
}

#[test]
fn push_appends_with_previous_equal_current() {
    let mut m = Memory::new();
    m.push(0x1000, Datatype::B4, &le4(42));
    assert_eq!(m.len(), 1);
    let rows = m.merged_rows();
    assert_eq!(rows.len(), 1);
    assert_eq!(rows[0].address, 0x1000);
    assert_eq!(rows[0].tag, Datatype::B4);
    assert_eq!(rows[0].value, 42);
    assert_eq!(rows[0].old_value, 42);
}

#[test]
fn len_is_sum_of_per_type_lengths() {
    let mut m = Memory::new();
    m.push(0x10, Datatype::B1, &[7]);
    m.push(0x20, Datatype::B1, &[7]);
    m.push(0x10, Datatype::B4, &le4(7));
    m.push(0x30, Datatype::B8, &[1, 0, 0, 0, 0, 0, 0, 0]);
    assert_eq!(m.len(), 4);
    assert_eq!(m.addresses(Datatype::B1).len(), 2);
    assert_eq!(m.addresses(Datatype::B4).len(), 1);
    assert_eq!(m.addresses(Datatype::B8).len(), 1);
    assert_eq!(m.addresses(Datatype::B2).len(), 0);
}

#[test]
fn clear_drops_everything() {
    let mut m = Memory::new();
    m.push(0x10, Datatype::B2, &[1, 2]);
    m.push(0x20, Datatype::B2S, &[3, 4]);
    m.clear();
    assert_eq!(m.len(), 0);
}

#[test]
fn take_moves_contents_out() {
    let mut m = Memory::new();
    m.push(0x10, Datatype::B1S, &[0xFF]);
    let taken = m.take();
    assert_eq!(m.len(), 0);
    assert_eq!(taken.len(), 1);
    assert_eq!(taken.addresses(Datatype::B1S), vec![0x10]);
}

#[test]
fn push_decodes_little_endian() {
    let mut m = Memory::new();
    m.push(0x10, Datatype::B4, &[0x78, 0x56, 0x34, 0x12]);
    let rows = m.merged_rows();
    assert_eq!(rows[0].value, 0x12345678);
}

#[test]
fn push_all_twelve_types() {
    let mut m = Memory::new();
    let tags = [
        Datatype::B1,
        Datatype::B1S,
        Datatype::B2,
        Datatype::B2S,
        Datatype::B4,
        Datatype::B4S,
        Datatype::B8,
        Datatype::B8S,
        Datatype::B16,
        Datatype::B16S,
        Datatype::F,
        Datatype::D,
    ];
    for (i, t) in tags.iter().enumerate() {
        let bytes = vec![1u8; t.width()];
        m.push(0x100 * (i as u64 + 1), *t, &bytes);
    }
    assert_eq!(m.len(), 12);
}

#[test]
fn float_values_are_bit_patterns() {
    let mut m = Memory::new();
    let bits = 1.5f32.to_le_bytes();
    m.push(0x40, Datatype::F, &bits);
    let rows = m.merged_rows();
    assert_eq!(rows[0].tag, Datatype::F);
    assert_eq!(f32::from_bits(rows[0].value as u32), 1.5f32);
}

#[test]
fn widths_and_suffixes_agree() {
    let cases = [
        (Datatype::B1, 1, "u8"),
        (Datatype::B1S, 1, "i8"),
        (Datatype::B2, 2, "u16"),
        (Datatype::B2S, 2, "i16"),
        (Datatype::B4, 4, "u32"),
        (Datatype::B4S, 4, "i32"),
        (Datatype::B8, 8, "u64"),
        (Datatype::B8S, 8, "i64"),
        (Datatype::B16, 16, "u128"),
        (Datatype::B16S, 16, "i128"),
        (Datatype::F, 4, "f32"),
        (Datatype::D, 8, "f64"),
    ];
    for (t, w, sfx) in cases {
        assert_eq!(t.width(), w);
        assert_eq!(t.suffix(), sfx);
    }
}
