use flatcontainer::impls::deduplicate::{CollapseSequence, ConsecutiveOffsetPairs};
use flatcontainer::impls::fixed_columns::{FixedColumnsRegion, ReadColumns};
use flatcontainer::impls::offsets::{OffsetContainer, OffsetOptimized};
use flatcontainer::{CopyIter, MirrorRegion, Push, Region, StringRegion};

fn values<'a, R: Region + 'static, O: OffsetContainer<R::Index> + 'static>(
    read: ReadColumns<'a, R, O>,
) -> Vec<R::ReadItem<'a>> {
    let mut iter = read.iter();
    let mut out = Vec::new();
    while let Some(x) = iter.next() {
        out.push(x);
    }
    out
}

#[test]
fn fixed_columns_test_matrix() {
    let data = [[1, 2, 3], [4, 5, 6], [7, 8, 9]];

    let mut r = FixedColumnsRegion::<MirrorRegion<_>, OffsetOptimized>::default();

    let mut indices = Vec::with_capacity(data.len());

    for row in &data {
        let index = r.push(row.as_slice());
        indices.push(index);
    }

    for (&index, row) in indices.iter().zip(&data) {
        assert!(row.iter().copied().eq(values(r.index(index))));
    }
}

#[test]
fn test_string_vec() {
    let data = vec![
        vec!["1".to_string(), "2".to_string(), "3".to_string()],
        vec!["4".to_string(), "5".to_string(), "6".to_string()],
        vec!["7".to_string(), "8".to_string(), "9".to_string()],
    ];

    let mut r = FixedColumnsRegion::<
        CollapseSequence<ConsecutiveOffsetPairs<StringRegion>>,
        OffsetOptimized,
    >::default();

    let mut indices = Vec::with_capacity(data.len());

    for row in &data {
        let index = r.push(row);
        indices.push(index);
    }

    for (&index, row) in indices.iter().zip(&data) {
        assert!(row.iter().map(|s| s.as_str()).eq(values(r.index(index))));
    }
}

#[test]
fn test_str_vec() {
    let data = [
        vec!["1", "2", "3"],
        vec!["4", "5", "6"],
        vec!["7", "8", "9"],
    ];

    let mut r =
        FixedColumnsRegion::<ConsecutiveOffsetPairs<StringRegion>, OffsetOptimized>::default();

    let mut indices = Vec::with_capacity(data.len());

    for row in &data {
        let index = r.push(row);
        indices.push(index);
    }

    for (&index, row) in indices.iter().zip(&data) {
        assert!(row.iter().copied().eq(values(r.index(index))));
    }
}

#[test]
fn test_str_iter() {
    let data = [
        vec!["1", "2", "3"],
        vec!["4", "5", "6"],
        vec!["7", "8", "9"],
    ];

    let mut r =
        FixedColumnsRegion::<ConsecutiveOffsetPairs<StringRegion>, OffsetOptimized>::default();

    let mut indices = Vec::with_capacity(data.len());

    for row in &data {
        let index = r.push(CopyIter(row.as_slice()));
        indices.push(index);
    }

    for (&index, row) in indices.iter().zip(&data) {
        assert!(row.iter().copied().eq(values(r.index(index))));
    }
}

#[test]
fn fixed_columns_indices_count_rows() {
    let mut r = FixedColumnsRegion::<MirrorRegion<u64>, Vec<u64>>::default();
    assert_eq!(0, r.push(vec![10u64, 20]));
    assert_eq!(1, r.push(vec![30u64, 40]));
    assert_eq!(2, r.push([50u64, 60].as_slice()));

    let row = r.index(1);
    assert_eq!(2, row.len());
    assert!(!row.is_empty());
    assert_eq!(30, row.get(0));
    assert_eq!(40, row.get(1));
    assert_eq!(vec![30u64, 40], row.into_owned());
    assert_eq!(vec![50u64, 60], values(r.index(2)));
}

#[test]
fn fixed_columns_owned_strings() {
    let mut r =
        FixedColumnsRegion::<ConsecutiveOffsetPairs<StringRegion>, OffsetOptimized>::default();
    let a = r.push(vec!["x".to_string(), "yy".to_string()]);
    let b = r.push(vec!["zzz".to_string(), String::new()]);
    assert_eq!(vec!["x", "yy"], values(r.index(a)));
    assert_eq!(vec!["zzz", ""], values(r.index(b)));
    assert_eq!(vec!["zzz".to_string(), String::new()], r.index(b).into_owned());
}

#[test]
fn fixed_columns_clear_keeps_width() {
    let mut r = FixedColumnsRegion::<MirrorRegion<u8>, Vec<u8>>::default();
    r.push([1u8, 2, 3].as_slice());
    r.push([4u8, 5, 6].as_slice());
    r.clear();
    assert_eq!(0, r.push([7u8, 8, 9].as_slice()));
    assert_eq!(vec![7u8, 8, 9], values(r.index(0)));
}

#[test]
fn fixed_columns_collapses_repeated_values() {
    let mut r = FixedColumnsRegion::<
        CollapseSequence<ConsecutiveOffsetPairs<StringRegion>>,
        OffsetOptimized,
    >::default();
    let a = r.push(["same", "a"].as_slice());
    let b = r.push(["same", "b"].as_slice());
    assert_eq!(vec!["same", "a"], values(r.index(a)));
    assert_eq!(vec!["same", "b"], values(r.index(b)));
}

#[test]
fn fixed_columns_merge_and_reserve() {
    let mut a = FixedColumnsRegion::<MirrorRegion<u32>, Vec<u32>>::default();
    a.push([1u32, 2, 3].as_slice());
    let mut merged = FixedColumnsRegion::merge_regions(&[&a]);
    assert_eq!(0, merged.push([4u32, 5, 6].as_slice()));
    assert_eq!(vec![4u32, 5, 6], values(merged.index(0)));

    let mut fresh = FixedColumnsRegion::<MirrorRegion<u32>, Vec<u32>>::default();
    fresh.reserve_regions(&[&a, &merged]);
    assert_eq!(0, fresh.push([7u32, 8, 9].as_slice()));
    assert_eq!(vec![7u32, 8, 9], values(fresh.index(0)));

    a.reserve_regions(&[&merged]);
    assert_eq!(vec![1u32, 2, 3], values(a.index(0)));
}

#[test]
fn fixed_columns_heap_size_reports_columns() {
    let mut r = FixedColumnsRegion::<MirrorRegion<u8>, Vec<u8>>::default();
    r.push([1u8, 2].as_slice());
    let mut sizes = Vec::new();
    r.heap_size(&mut sizes);
    assert_eq!(2, sizes.len());
    assert!(sizes.iter().all(|(size, cap)| size <= cap));
}
