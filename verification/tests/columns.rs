use flatcontainer::impls::columns::{ColumnsRegion, ReadColumns};
use flatcontainer::{CopyIter, MirrorRegion, OwnedRegion, Push, Region, StringRegion};

fn values<'a, R: Region + 'static>(read: ReadColumns<'a, R>) -> Vec<R::ReadItem<'a>>
where
    R::Index: Copy,
{
    let mut iter = read.iter();
    let mut out = Vec::new();
    while let Some(x) = iter.next() {
        out.push(x);
    }
    out
}

#[test]
fn columns_test_matrix() {
    let data = [[1, 2, 3], [4, 5, 6], [7, 8, 9]];

    let mut r = ColumnsRegion::<MirrorRegion<_>>::default();

    for row in &data {
        Push::push(&mut r, row);
    }

    for (index, row) in data.iter().enumerate() {
        assert_eq!(row.to_vec(), values(r.index(index)));
    }
}

#[test]
fn test_ragged() {
    let data = [
        [].as_slice(),
        [1].as_slice(),
        [2, 3].as_slice(),
        [4, 5, 6].as_slice(),
        [7, 8].as_slice(),
        [9].as_slice(),
        [].as_slice(),
    ];

    let mut r = ColumnsRegion::<MirrorRegion<_>>::default();

    for row in &data {
        r.push(*row);
    }

    for (index, row) in data.iter().enumerate() {
        assert_eq!(row.to_vec(), values(r.index(index)));
    }
}

#[test]
fn test_ragged_string_vec() {
    let data = vec![
        vec![],
        vec!["1".to_string()],
        vec!["2".to_string(), "3".to_string()],
        vec!["4".to_string(), "5".to_string(), "6".to_string()],
        vec!["7".to_string(), "8".to_string()],
        vec!["9".to_string()],
        vec![],
    ];

    let mut r = ColumnsRegion::<StringRegion>::default();

    for row in &data {
        r.push(row);
    }

    for (index, row) in data.iter().enumerate() {
        let expected: Vec<&str> = row.iter().map(|s| s.as_str()).collect();
        assert_eq!(expected, values(r.index(index)));
    }
}

#[test]
fn test_ragged_str_vec() {
    let data = [
        vec![],
        vec!["1"],
        vec!["2", "3"],
        vec!["4", "5", "6"],
        vec!["7", "8"],
        vec!["9"],
        vec![],
    ];

    let mut r = ColumnsRegion::<StringRegion>::default();

    for row in &data {
        r.push(row);
    }

    for (index, row) in data.iter().enumerate() {
        assert_eq!(*row, values(r.index(index)));
    }
}

#[test]
fn test_ragged_str_iter() {
    let data = [
        vec![],
        vec!["1"],
        vec!["2", "3"],
        vec!["4", "5", "6"],
        vec!["7", "8"],
        vec!["9"],
        vec![],
    ];

    let mut r = ColumnsRegion::<StringRegion>::default();

    for row in &data {
        r.push(CopyIter(row.as_slice()));
    }

    for (index, row) in data.iter().enumerate() {
        assert_eq!(*row, values(r.index(index)));
    }

    assert_eq!("1", r.index(1).get(0));
    assert_eq!(1, r.index(1).len());
    assert!(!r.index(1).is_empty());
    assert!(r.index(0).is_empty());
}

#[test]
fn read_columns_push() {
    let data = [[[1u8]; 4]; 4];

    let mut r = <ColumnsRegion<OwnedRegion<u8>>>::default();
    let mut r2 = <ColumnsRegion<OwnedRegion<u8>>>::default();

    for row in &data {
        r.push(row);
        let copied: Vec<Vec<u8>> = r.index(r.len() - 1).into_owned();
        r2.push(&copied);
        assert_eq!(
            r.index(r.len() - 1).into_owned(),
            r2.index(r2.len() - 1).into_owned()
        );
    }
}

#[test]
fn copy_reserve_regions() {
    let data = [[[1u8]; 4]; 4];

    let mut r = <ColumnsRegion<OwnedRegion<u8>>>::default();

    for row in &data {
        r.push(row);
    }
    for row in data {
        r.push(row);
    }

    let mut r2 = <ColumnsRegion<OwnedRegion<u8>>>::default();
    r2.reserve_regions(&[&r]);

    let mut sizes = Vec::new();
    r2.heap_size(&mut sizes);
    let cap: usize = sizes.iter().map(|(_, c)| c).sum();
    assert!(cap > 0);
}

#[test]
fn test_merge_regions() {
    let data = [
        vec![],
        vec!["1"],
        vec!["2", "3"],
        vec!["4", "5", "6"],
        vec!["7", "8"],
        vec!["9"],
        vec![],
    ];

    let mut r = ColumnsRegion::<StringRegion>::default();

    for row in &data {
        r.push(CopyIter(row.as_slice()));
    }

    let mut sizes = Vec::new();
    r.heap_size(&mut sizes);
    let cap1: usize = sizes.iter().map(|(_, c)| c).sum();

    let mut r2 = ColumnsRegion::merge_regions(&[&r]);
    for row in &data {
        r2.push(CopyIter(row.as_slice()));
    }

    let mut sizes = Vec::new();
    r2.heap_size(&mut sizes);
    let cap2: usize = sizes.iter().map(|(_, c)| c).sum();
    assert!(cap2 <= cap1);
}
