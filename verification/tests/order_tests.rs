use mismem::{Datatype, Memory, Progress};

#[test]
fn iteration_is_ordered_by_address() {
    let mut m = Memory::new();
    m.push(0x30, Datatype::B1, &[1]);
    m.push(0x10, Datatype::B4, &[1, 0, 0, 0]);
    m.push(0x20, Datatype::B8, &[1, 0, 0, 0, 0, 0, 0, 0]);
    let addrs: Vec<u64> = m.merged_rows().iter().map(|r| r.address).collect();
    assert_eq!(addrs, vec![0x10, 0x20, 0x30]);
}

#[test]
fn ties_break_in_the_canonical_type_order() {
    // All twelve types hold an entry at the same address: the stream
    // yields them in the canonical order i128, u128, i64, u64, i32,
    // u32, i16, u16, i8, u8, f64, f32.
    let mut m = Memory::new();
    let tags = [
        Datatype::B1,
        Datatype::F,
        Datatype::B16S,
        Datatype::B2,
        Datatype::D,
        Datatype::B8,
        Datatype::B4S,
        Datatype::B1S,
        Datatype::B16,
        Datatype::B2S,
        Datatype::B8S,
        Datatype::B4,
    ];
    for t in tags {
        let bytes = vec![0u8; t.width()];
        m.push(0x500, t, &bytes);
    }
    let seen: Vec<Datatype> = m.merged_rows().iter().map(|r| r.tag).collect();
    assert_eq!(
        seen,
        vec![
            Datatype::B16S,
            Datatype::B16,
            Datatype::B8S,
            Datatype::B8,
            Datatype::B4S,
            Datatype::B4,
            Datatype::B2S,
            Datatype::B2,
            Datatype::B1S,
            Datatype::B1,
            Datatype::D,
            Datatype::F,
        ]
    );
}

#[test]
fn suffix_order_matches_the_tie_break() {
    let mut m = Memory::new();
    m.push(0x500, Datatype::B4, &[0; 4]);
    m.push(0x500, Datatype::B4S, &[0; 4]);
    let labels: Vec<String> = m.merged_rows().iter().map(|r| r.address_label()).collect();
    assert_eq!(labels, vec!["0000000000000500:i32", "0000000000000500:u32"]);
}

#[test]
fn interleaved_addresses_across_types_merge_sorted() {
    let mut m = Memory::new();
    m.push(0x10, Datatype::B1, &[0]);
    m.push(0x30, Datatype::B1, &[0]);
    m.push(0x50, Datatype::B1, &[0]);
    m.push(0x20, Datatype::B2, &[0, 0]);
    m.push(0x40, Datatype::B2, &[0, 0]);
    let addrs: Vec<u64> = m.merged_rows().iter().map(|r| r.address).collect();
    assert_eq!(addrs, vec![0x10, 0x20, 0x30, 0x40, 0x50]);
}

#[test]
fn iterator_yields_each_row_once_then_none() {
    let mut m = Memory::new();
    m.push(0x10, Datatype::B1, &[7]);
    m.push(0x20, Datatype::B1, &[7]);
    let mut it = m.iter();
    let first = it.next().unwrap();
    assert_eq!(first.address, 0x10);
    let second = it.next().unwrap();
    assert_eq!(second.address, 0x20);
    assert!(it.next().is_none());
    assert!(it.next().is_none());
}

#[test]
fn progress_counts_monotonically_and_saturates() {
    let mut p = Progress::new(100);
    assert_eq!(p.done(), 0);
    assert_eq!(p.total(), 100);
    p.advance(40);
    assert_eq!(p.done(), 40);
    p.advance(40);
    assert_eq!(p.done(), 80);
    p.advance(40);
    assert_eq!(p.done(), 100);
    p.advance(1);
    assert_eq!(p.done(), 100);
}

#[test]
fn progress_finish_fills_the_gauge() {
    let mut p = Progress::new(7);
    p.advance(2);
    p.finish();
    assert_eq!(p.done(), 7);
    let mut q = Progress::new(0);
    q.finish();
    assert_eq!(q.done(), 0);
    assert_eq!(q.total(), 0);
}
