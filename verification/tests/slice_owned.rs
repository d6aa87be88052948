use flatcontainer::impls::slice_owned::OwnedRegion;
use flatcontainer::{CopyIter, Push, Region, ReserveItems};

#[test]
fn slice_owned_test_copy_array() {
    let mut r = <OwnedRegion<u8>>::default();
    r.reserve_items(&[&[1; 4]]);
    assert_eq!(0, r.len());
    r.push([1; 4]);
    assert_eq!([1, 1, 1, 1], r.index(0));
    assert_eq!(1, r.len());
}

#[test]
fn slice_owned_test_copy_ref_ref_array() {
    let mut r = <OwnedRegion<u8>>::default();
    ReserveItems::reserve_items(&mut r, &[&[1; 4]]);
    r.push(&&[1; 4]);
    assert_eq!([1, 1, 1, 1], r.index(0));
    assert_eq!(1, r.len());
}

#[test]
fn slice_owned_test_copy_vec() {
    let mut r = <OwnedRegion<u8>>::default();
    ReserveItems::reserve_items(&mut r, &[&vec![1; 4]]);
    r.push(&vec![1; 4]);
    assert_eq!([1, 1, 1, 1], r.index(0));
    assert_eq!(1, r.len());
    r.push(vec![2; 4]);
    assert_eq!([2, 2, 2, 2], r.index(1));
    assert_eq!(2, r.len());
}

#[test]
fn slice_owned_test_copy_iter() {
    let mut r = <OwnedRegion<u8>>::default();
    let iter = [1; 4];
    r.reserve_items(&[CopyIter(iter)]);
    r.push(CopyIter(iter));
    assert_eq!([1, 1, 1, 1], r.index(0));
    assert_eq!(1, r.len());
}

#[test]
fn positional_owned_region_reads_by_position() {
    let mut r = <OwnedRegion<u8>>::default();
    let panagram_en = "The quick fox jumps over the lazy dog";
    let panagram_de = "Zwölf Boxkämpfer jagen Viktor quer über den großen Sylter Deich";
    let en = r.push(panagram_en.as_bytes());
    let empty = r.push(&b""[..]);
    let de = r.push(panagram_de.as_bytes());
    assert_eq!((en, empty, de), (0, 1, 2));
    assert_eq!(panagram_en.as_bytes(), r.index(0));
    assert_eq!(b"", r.index(1));
    assert_eq!(panagram_de.as_bytes(), r.index(2));
    let mut sizes = Vec::new();
    r.heap_size(&mut sizes);
    assert_eq!(sizes.len(), 2);
    r.clear();
    assert!(r.is_empty());
}
