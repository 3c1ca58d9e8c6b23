use vulkano::range_map::RangeMap;

#[test]
fn disjoint_inserts_query_exact() {
    let mut m: RangeMap<u32> = RangeMap::new();
    m.insert(0, 10, 1);
    m.insert(20, 30, 2);
    m.insert(40, 50, 3);
    // A query spanning everything returns the inserted values clipped, in
    // ascending order, with no gaps or duplicates reported.
    let r = m.range(5, 45);
    assert_eq!(r.len(), 3);
    assert_eq!((r[0].start, r[0].end, r[0].value), (5, 10, 1));
    assert_eq!((r[1].start, r[1].end, r[1].value), (20, 30, 2));
    assert_eq!((r[2].start, r[2].end, r[2].value), (40, 45, 3));
    // A query inside a gap returns nothing.
    let r = m.range(10, 20);
    assert_eq!(r.len(), 0);
    // A query matching one entry exactly returns it unclipped.
    let r = m.range(20, 30);
    assert_eq!(r.len(), 1);
    assert_eq!((r[0].start, r[0].end, r[0].value), (20, 30, 2));
}

#[test]
fn bisecting_insert_splits_and_overwrites() {
    let mut m: RangeMap<u32> = RangeMap::new();
    m.insert(0, 100, 7);
    m.insert(40, 60, 9);
    let r = m.range(0, 100);
    assert_eq!(r.len(), 3);
    // two outer pieces with the prior value, the middle overwritten
    assert_eq!((r[0].start, r[0].end, r[0].value), (0, 40, 7));
    assert_eq!((r[1].start, r[1].end, r[1].value), (40, 60, 9));
    assert_eq!((r[2].start, r[2].end, r[2].value), (60, 100, 7));
}

#[test]
fn overlapping_insert_clips_neighbours() {
    let mut m: RangeMap<u32> = RangeMap::new();
    m.insert(0, 10, 1);
    m.insert(10, 20, 2);
    m.insert(5, 15, 3);
    let r = m.range(0, 20);
    assert_eq!(r.len(), 3);
    assert_eq!((r[0].start, r[0].end, r[0].value), (0, 5, 1));
    assert_eq!((r[1].start, r[1].end, r[1].value), (5, 15, 3));
    assert_eq!((r[2].start, r[2].end, r[2].value), (15, 20, 2));
}

#[test]
fn split_preserves_values() {
    let mut m: RangeMap<u32> = RangeMap::new();
    m.insert(0, 100, 5);
    m.split_at(50);
    assert_eq!(m.num_entries(), 2);
    let a = m.entry(0);
    let b = m.entry(1);
    assert_eq!((a.start, a.end, a.value), (0, 50, 5));
    assert_eq!((b.start, b.end, b.value), (50, 100, 5));
}
