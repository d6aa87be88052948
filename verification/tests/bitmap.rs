use flatcontainer::bitmap::Bools;
use flatcontainer::rank_select::RankSelect;

#[test]
fn test_bitmap() {
    let mut bitmap = <Bools>::default();
    for i in 0..100 {
        bitmap.push(i % 2 == 0);
    }
    assert_eq!(bitmap.len(), 100);
    for i in 0..100 {
        assert_eq!(bitmap.index(i), i % 2 == 0);
    }

    let mut bitmap = <Bools>::default();
    assert_eq!((0, 0), bitmap.last_block());
    bitmap.push(true);
    assert_eq!((0b1, 1), bitmap.last_block());
    for _ in 0..63 {
        bitmap.push(false);
    }
    bitmap.push(true);
    assert_eq!((0b1, 1), bitmap.last_block());
    assert_eq!((0b1, 64), bitmap.block(0));
}

#[test]
fn test_rank() {
    let mut rs = <RankSelect>::default();
    rs.push(true);
    assert_eq!(rs.rank(0), 0);
    assert_eq!(rs.select(0), None);
    assert_eq!(rs.select(1), None);
    rs.push(true);
    assert_eq!(rs.rank(0), 0);
    assert_eq!(rs.select(0), None);
    assert_eq!(rs.select(1), Some(0));
}

#[test]
fn bitmap_blocks_and_clear() {
    let mut bitmap = Bools::new();
    for i in 0..130 {
        bitmap.push(i % 3 == 0);
    }
    assert_eq!(bitmap.blocks(), 3);
    assert_eq!(bitmap.block(1).1, 64);
    assert_eq!(bitmap.last_block().1, 2);
    assert!(bitmap.index(129));
    assert!(!bitmap.index(128));
    bitmap.clear();
    assert!(bitmap.is_empty());
    assert_eq!(bitmap.last_block(), (0, 0));
}

#[test]
fn rank_counts_within_first_block() {
    let mut rs = RankSelect::new();
    for b in [true, false, true, true, false] {
        rs.push(b);
    }
    assert_eq!(rs.len(), 5);
    assert_eq!(rs.rank(0), 0);
    assert_eq!(rs.rank(1), 1);
    assert_eq!(rs.rank(3), 2);
    assert_eq!(rs.rank(4), 3);
    assert!(rs.index_as(2));
    assert!(!rs.index_as(4));
}

#[test]
fn rank_select_counts_after_a_chunk() {
    let mut rs = RankSelect::new();
    for _ in 0..1100 {
        rs.push(true);
    }
    assert_eq!(rs.len(), 1100);
    // The index 1030 lies in the chunk after the first 1024 booleans.
    assert_eq!(rs.rank(1030), 1024 + 6);
}
