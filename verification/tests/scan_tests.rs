use mismem::{Datatype, Memory};

fn le4(v: u32) -> Vec<u8> {
    v.to_le_bytes().to_vec()
}

/// A page of `size` zero bytes with the given words written in.
fn page_with(size: usize, words: &[(usize, u32)]) -> Vec<u8> {
    let mut buf = vec![0u8; size];
    for (off, v) in words {
        buf[*off..*off + 4].copy_from_slice(&v.to_le_bytes());
    }
    buf
}

#[test]
fn first_scan_finds_every_occurrence() {
    // Four 42s, in two pages, as the edit screen's archetypal session
    // starts: the scan must produce exactly four entries, in ascending
    // address order, all of the scanned type.
    let mut m = Memory::new();
    let operand = le4(0x2A);
    let page1 = page_with(0x1000, &[(0x0, 0x2A), (0x4, 0x2A), (0x8, 0x2A)]);
    let page2 = page_with(0x1000, &[(0x0, 0x2A)]);
    m.scan_page(0x1000, &page1, Datatype::B4, &operand);
    m.scan_page(0x2000, &page2, Datatype::B4, &operand);
    assert_eq!(m.len(), 4);
    let rows = m.merged_rows();
    let addrs: Vec<u64> = rows.iter().map(|r| r.address).collect();
    assert_eq!(addrs, vec![0x1000, 0x1004, 0x1008, 0x2000]);
    for r in &rows {
        assert_eq!(r.tag, Datatype::B4);
        assert_eq!(r.value, 0x2A);
        assert_eq!(r.old_value, 0x2A);
        assert!(r.address_label().ends_with(":u32"));
    }
}

#[test]
fn scan_produces_no_entry_without_a_match() {
    let mut m = Memory::new();
    let operand = le4(0x2A);
    let page = page_with(0x1000, &[(0x10, 0x2B)]);
    m.scan_page(0x1000, &page, Datatype::B4, &operand);
    assert_eq!(m.len(), 0);
}

#[test]
fn zero_page_u8_scan_yields_one_entry_per_byte() {
    // A page entirely filled with zeroes, scanned for the one-byte
    // operand zero, matches at all 4096 offsets.
    let mut m = Memory::new();
    let page = vec![0u8; 4096];
    m.scan_page(0x7000, &page, Datatype::B1, &[0x00]);
    assert_eq!(m.len(), 4096);
    let addrs = m.addresses(Datatype::B1);
    assert_eq!(addrs[0], 0x7000);
    assert_eq!(addrs[4095], 0x7FFF);
    for (i, a) in addrs.iter().enumerate() {
        assert_eq!(*a, 0x7000 + i as u64);
    }
}

#[test]
fn overlapping_matches_are_recorded_at_stride_one() {
    // Three zero bytes scanned for two zero bytes: windows at offsets
    // 0 and 1 both match.
    let mut m = Memory::new();
    let page = vec![0u8, 0, 0];
    m.scan_page(0x100, &page, Datatype::B2, &[0, 0]);
    assert_eq!(m.addresses(Datatype::B2), vec![0x100, 0x101]);
}

#[test]
fn pattern_does_not_match_across_page_boundary() {
    // Each page is scanned on its own: a value whose bytes straddle
    // two pages is not found.
    let mut m = Memory::new();
    let operand = le4(0x11223344);
    let mut page1 = vec![0u8; 16];
    page1[14] = 0x44;
    page1[15] = 0x33;
    let mut page2 = vec![0u8; 16];
    page2[0] = 0x22;
    page2[1] = 0x11;
    m.scan_page(0x1000, &page1, Datatype::B4, &operand);
    m.scan_page(0x1010, &page2, Datatype::B4, &operand);
    assert_eq!(m.len(), 0);
}

#[test]
fn match_at_last_window_offset_is_found() {
    let mut m = Memory::new();
    let operand = le4(0xDEADBEEF);
    let page = page_with(0x20, &[(0x1C, 0xDEADBEEF)]);
    m.scan_page(0x9000, &page, Datatype::B4, &operand);
    assert_eq!(m.addresses(Datatype::B4), vec![0x901C]);
}

#[test]
fn buffer_shorter_than_operand_yields_nothing() {
    let mut m = Memory::new();
    let operand = le4(0x2A);
    let page = vec![0x2A, 0x00];
    m.scan_page(0x1000, &page, Datatype::B4, &operand);
    assert_eq!(m.len(), 0);
}

#[test]
fn scans_of_different_types_coexist() {
    let mut m = Memory::new();
    let page = page_with(0x100, &[(0x10, 0x2A)]);
    m.scan_page(0x1000, &page, Datatype::B4, &le4(0x2A));
    m.scan_page(0x1000, &page, Datatype::B4S, &le4(0x2A));
    assert_eq!(m.len(), 2);
    assert_eq!(m.addresses(Datatype::B4), vec![0x1010]);
    assert_eq!(m.addresses(Datatype::B4S), vec![0x1010]);
}
