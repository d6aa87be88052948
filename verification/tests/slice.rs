use std::cmp::Ordering;
use flatcontainer::{FlatStack, MirrorRegion, Push, Region, ReserveItems, SliceRegion};

#[test]
fn read_slice() {
    let s = [1, 2, 3, 4];
    let mut r = <SliceRegion<MirrorRegion<u8>>>::default();

    let i0 = r.push(s);

    assert_eq!(s.to_vec(), r.index(i0).into_owned());

    let i1 = r.push(s);
    let slice = r.index(i1);
    assert_eq!(s.len(), slice.len());
    assert!(!slice.is_empty());
    assert_eq!(slice.get(0), 1);
    assert_eq!(slice.get(1), 2);
    assert_eq!(slice.get(2), 3);
    assert_eq!(slice.get(3), 4);

    let i2 = <_ as Push<[u8; 0]>>::push(&mut r, []);
    let slice = r.index(i2);
    assert_eq!(0, slice.len());
    assert!(slice.is_empty());
}

#[test]
fn test_read_slice_debug() {
    let mut r = <SliceRegion<MirrorRegion<u8>>>::default();
    let idx = r.push([1; 4]);

    assert_eq!("[1, 1, 1, 1]", format!("{:?}", r.index(idx).into_owned()));
}

#[test]
fn test_read_slice_clone() {
    let mut r = <SliceRegion<MirrorRegion<u8>>>::default();
    let idx = r.push([1; 4]);

    assert_eq!("[1, 1, 1, 1]", format!("{:?}", r.index(idx).clone().into_owned()));
}

#[test]
fn test_read_slice_eq() {
    let mut r = <SliceRegion<MirrorRegion<u8>>>::default();
    let idx = r.push([1; 4]);

    assert_eq!(vec![1; 4], r.index(idx).into_owned());
    assert_ne!(vec![0; 4], r.index(idx).into_owned());
    assert_ne!(vec![1; 5], r.index(idx).into_owned());
}

#[test]
fn test_read_slice_cmp() {
    let mut r = <SliceRegion<MirrorRegion<u8>>>::default();
    let idx = r.push([1; 4]);

    assert_eq!(Ordering::Less, vec![0; 4].cmp(&r.index(idx).into_owned()));
    assert_eq!(Ordering::Equal, vec![1; 4].cmp(&r.index(idx).into_owned()));
    assert_eq!(Ordering::Greater, vec![2; 4].cmp(&r.index(idx).into_owned()));

    assert_eq!(Ordering::Less, vec![1; 3].cmp(&r.index(idx).into_owned()));
    assert_eq!(Ordering::Equal, vec![1; 4].cmp(&r.index(idx).into_owned()));
    assert_eq!(Ordering::Greater, vec![1; 5].cmp(&r.index(idx).into_owned()));
}

fn capacity<R: Region>(r: &R) -> usize {
    let mut sizes = Vec::new();
    r.heap_size(&mut sizes);
    sizes.iter().map(|(_, c)| *c).sum()
}

#[test]
fn test_reserve_ref_slice() {
    let mut r = <SliceRegion<MirrorRegion<u8>>>::default();
    r.reserve_items(&[[1u8; 4].as_slice()]);
    assert!(capacity(&r) > 0);
}

#[test]
fn test_reserve_ref_vec() {
    let mut r = <SliceRegion<MirrorRegion<u8>>>::default();
    let v = vec![1u8; 4];
    r.reserve_items(&[v.as_slice()]);
    assert!(capacity(&r) > 0);
}

#[test]
fn test_reserve_ref_array() {
    let mut r = <SliceRegion<MirrorRegion<u8>>>::default();
    let a = [1u8; 4];
    r.reserve_items(&[a.as_slice()]);
    assert!(capacity(&r) > 0);
}

#[test]
fn test_vec() {
    let mut c = <SliceRegion<MirrorRegion<_>>>::default();
    let slice = &[1u8, 2, 3];
    let idx = c.push(slice);
    assert_eq!(slice.to_vec(), c.index(idx).into_owned());
}

#[test]
fn test_vec_onto() {
    let mut c = <SliceRegion<MirrorRegion<u8>>>::default();
    let slice = &[1u8, 2, 3][..];
    let idx = c.push(slice);
    assert_eq!(slice.to_vec(), c.index(idx).into_owned());
}

#[test]
fn slice_region_read_item() {
    let mut c = FlatStack::<SliceRegion<MirrorRegion<u8>>>::default();
    c.copy(vec![1, 2, 3]);

    let mut r = SliceRegion::<MirrorRegion<u8>>::default();
    let idx = r.push([1, 2, 3]);
    let read_item = r.index(idx);
    let _read_item3 = read_item.clone();
    let mut iter = read_item.iter();
    let mut items = Vec::new();
    while let Some(x) = iter.next() {
        items.push(x);
    }
    assert_eq!(vec![1, 2, 3], items);
}

#[test]
fn slice_region_nested_strings() {
    let mut r = <SliceRegion<flatcontainer::StringRegion>>::default();
    let idx = r.push(["abc", "", "de"]);
    let item = r.index(idx);
    assert_eq!(item.len(), 3);
    assert_eq!(item.get(0), "abc");
    assert_eq!(item.get(1), "");
    assert_eq!(item.get(2), "de");
    assert_eq!(item.into_owned(), vec!["abc".to_string(), String::new(), "de".to_string()]);
}

#[test]
fn nested_slice_copy() {
    let mut c = FlatStack::default_impl::<[[[[[u8; 1]; 1]; 1]; 1]; 1]>();

    c.copy([[[[[1]]]]]);
    c.copy(&[[[[[1]]]]]);
    c.copy(&[[[[[&1]]]]]);
    c.copy([[[[[&1]]]]]);
    c.copy([[&[[[&1]]]]]);
    c.copy([[[[[1]]; 1]; 1]; 1]);
    c.copy(&[[[[[1; 1]; 1]; 1]; 1]; 1]);
    c.copy(&[[[[[&1; 1]; 1]; 1]; 1]; 1]);
    c.copy([[[[[&1; 1]; 1]; 1]; 1]; 1]);
    c.copy([[&[[[&1; 1]; 1]; 1]; 1]; 1]);
    c.copy([[vec![[[1; 1]; 1]; 1]; 1]; 1]);
    c.copy(&[[vec![[[1; 1]; 1]; 1]; 1]; 1]);
    c.copy(&[[vec![[[&1; 1]; 1]; 1]; 1]; 1]);
    c.copy([[[vec![[&1; 1]; 1]; 1]; 1]; 1]);
    c.copy([[&vec![[[&1; 1]; 1]; 1]; 1]; 1]);
}

#[test]
fn nested_slice_copy_reads_back() {
    let mut c = FlatStack::default_impl::<[[u8; 2]; 2]>();
    c.copy([[1u8, 2], [3, 4]]);
    c.copy(&[vec![5u8, 6], vec![7]]);
    assert_eq!(2, c.len());
    let first = c.get(0);
    assert_eq!(2, first.len());
    assert_eq!(vec![3u8, 4], first.get(1).into_owned());
    let second = c.get(1);
    assert_eq!(vec![7u8], second.get(1).into_owned());
}
