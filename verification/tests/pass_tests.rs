use mismem::{Datatype, Memory};

fn le4(v: u32) -> Vec<u8> {
    v.to_le_bytes().to_vec()
}

fn page_with(size: usize, words: &[(usize, u32)]) -> Vec<u8> {
    let mut buf = vec![0u8; size];
    for (off, v) in words {
        buf[*off..*off + 4].copy_from_slice(&v.to_le_bytes());
    }
    buf
}

/// The store after S1: four u32 entries of value 42 at 0x1000, 0x1004,
/// 0x1008 and 0x2000.
fn store_after_first_scan() -> Memory {
    let mut m = Memory::new();
    let operand = le4(42);
    m.scan_page(
        0x1000,
        &page_with(0x1000, &[(0x0, 42), (0x4, 42), (0x8, 42)]),
        Datatype::B4,
        &operand,
    );
    m.scan_page(0x2000, &page_with(0x1000, &[(0x0, 42)]), Datatype::B4, &operand);
    m
}

#[test]
fn filter_keeps_exactly_the_still_matching_entries() {
    // The target overwrites 0x1004 with 43; a filter for 42 keeps the
    // other three, each with previous == current == 42.
    let mut m = store_after_first_scan();
    let reads = vec![Some(le4(42)), Some(le4(43)), Some(le4(42)), Some(le4(42))];
    m.filter_in_place(Datatype::B4, &le4(42), &reads);
    assert_eq!(m.len(), 3);
    let rows = m.merged_rows();
    let addrs: Vec<u64> = rows.iter().map(|r| r.address).collect();
    assert_eq!(addrs, vec![0x1000, 0x1008, 0x2000]);
    for r in &rows {
        assert_eq!(r.value, 42);
        assert_eq!(r.old_value, 42);
    }
}

#[test]
fn refresh_updates_values_without_pruning() {
    // Continuing: the target overwrites 0x1000 with 255; a refresh
    // keeps all three entries, and only 0x1000 shows 42 -> 255.
    let mut m = store_after_first_scan();
    let reads = vec![Some(le4(42)), Some(le4(43)), Some(le4(42)), Some(le4(42))];
    m.filter_in_place(Datatype::B4, &le4(42), &reads);
    let reads = vec![Some(le4(255)), Some(le4(42)), Some(le4(42))];
    m.refresh_in_place(Datatype::B4, &reads);
    assert_eq!(m.len(), 3);
    let rows = m.merged_rows();
    assert_eq!(rows[0].address, 0x1000);
    assert_eq!(rows[0].old_value, 42);
    assert_eq!(rows[0].value, 255);
    for r in &rows[1..] {
        assert_eq!(r.old_value, 42);
        assert_eq!(r.value, 42);
    }
}

#[test]
fn refresh_after_write_shows_the_written_value() {
    // A write of 0xFFFFFFFF to 0x2000 followed by a refresh reports
    // the new value there.
    let mut m = store_after_first_scan();
    let reads = vec![Some(le4(42)), Some(le4(42)), Some(le4(42)), Some(le4(0xFFFFFFFF))];
    m.refresh_in_place(Datatype::B4, &reads);
    let rows = m.merged_rows();
    assert_eq!(rows[3].address, 0x2000);
    assert_eq!(rows[3].value, 0xFFFFFFFF);
    assert_eq!(rows[3].current_label(), Some("4294967295".to_string()));
}

#[test]
fn filter_drops_entry_whose_page_was_unmapped() {
    // An unreadable entry (a page unmapped since the scan) is dropped;
    // the store shrinks by exactly one.
    let mut m = store_after_first_scan();
    let before = m.len();
    let reads = vec![Some(le4(42)), None, Some(le4(42)), Some(le4(42))];
    m.filter_in_place(Datatype::B4, &le4(42), &reads);
    assert_eq!(m.len(), before - 1);
    let addrs = m.addresses(Datatype::B4);
    assert_eq!(addrs, vec![0x1000, 0x1008, 0x2000]);
}

#[test]
fn refresh_drops_only_unreadable_entries() {
    let mut m = store_after_first_scan();
    let reads = vec![Some(le4(7)), None, Some(le4(9)), None];
    m.refresh_in_place(Datatype::B4, &reads);
    assert_eq!(m.addresses(Datatype::B4), vec![0x1000, 0x1008]);
    let rows = m.merged_rows();
    assert_eq!(rows[0].value, 7);
    assert_eq!(rows[1].value, 9);
}

#[test]
fn filter_leaves_other_types_untouched() {
    let mut m = Memory::new();
    m.push(0x10, Datatype::B1, &[5]);
    m.push(0x10, Datatype::B4, &le4(5));
    let reads = vec![Some(vec![6u8])];
    m.filter_in_place(Datatype::B1, &[5], &reads);
    assert_eq!(m.addresses(Datatype::B1), Vec::<u64>::new());
    // The u32 entry is untouched, previous and current alike.
    let rows = m.merged_rows();
    assert_eq!(rows.len(), 1);
    assert_eq!(rows[0].tag, Datatype::B4);
    assert_eq!(rows[0].value, 5);
    assert_eq!(rows[0].old_value, 5);
}

#[test]
fn previous_holds_the_value_before_the_pass() {
    // Two refreshes in a row: previous always shows the value the
    // entry had immediately before the last pass that touched it.
    let mut m = Memory::new();
    m.push(0x10, Datatype::B4, &le4(1));
    m.refresh_in_place(Datatype::B4, &vec![Some(le4(2))]);
    let rows = m.merged_rows();
    assert_eq!((rows[0].old_value, rows[0].value), (1, 2));
    m.refresh_in_place(Datatype::B4, &vec![Some(le4(3))]);
    let rows = m.merged_rows();
    assert_eq!((rows[0].old_value, rows[0].value), (2, 3));
}

#[test]
fn filter_preserves_relative_order() {
    let mut m = Memory::new();
    let page = vec![1u8, 2, 1, 2, 1];
    m.scan_page(0x100, &page, Datatype::B1, &[1]);
    assert_eq!(m.addresses(Datatype::B1), vec![0x100, 0x102, 0x104]);
    let reads = vec![Some(vec![1u8]), Some(vec![9u8]), Some(vec![1u8])];
    m.filter_in_place(Datatype::B1, &[1], &reads);
    assert_eq!(m.addresses(Datatype::B1), vec![0x100, 0x104]);
}
