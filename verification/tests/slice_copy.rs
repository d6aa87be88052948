use flatcontainer::{CopyIter, OwnedRegion, Push, Region, ReserveItems};

#[test]
fn slice_copy_test_copy_array() {
    let mut r = <OwnedRegion<u8>>::default();
    r.reserve_items(&[&[1; 4]]);
    let index = r.push([1; 4]);
    assert_eq!([1, 1, 1, 1], r.index(index));
}

#[test]
fn slice_copy_test_copy_ref_ref_array() {
    let mut r = <OwnedRegion<u8>>::default();
    ReserveItems::reserve_items(&mut r, &[&[1; 4]]);
    let index = r.push(&&[1; 4]);
    assert_eq!([1, 1, 1, 1], r.index(index));
}

#[test]
fn slice_copy_test_copy_vec() {
    let mut r = <OwnedRegion<u8>>::default();
    ReserveItems::reserve_items(&mut r, &[&vec![1; 4]]);
    let index = r.push(&vec![1; 4]);
    assert_eq!([1, 1, 1, 1], r.index(index));
    let index = r.push(vec![2; 4]);
    assert_eq!([2, 2, 2, 2], r.index(index));
}

#[test]
fn slice_copy_test_copy_iter() {
    let mut r = <OwnedRegion<u8>>::default();
    let iter = [1; 4];
    r.reserve_items(&[CopyIter(iter)]);
    let index = r.push(CopyIter(iter));
    assert_eq!([1, 1, 1, 1], r.index(index));
}

#[test]
fn owned_region_ranges_are_consecutive() {
    let mut r = <OwnedRegion<u8>>::default();
    let panagram_en = "The quick fox jumps over the lazy dog";
    let panagram_de = "Zwölf Boxkämpfer jagen Viktor quer über den großen Sylter Deich";
    let en_index = r.push(panagram_en.as_bytes());
    let de_index = r.push(panagram_de.as_bytes());
    assert_eq!(en_index, (0, panagram_en.len()));
    assert_eq!(de_index, (panagram_en.len(), panagram_en.len() + panagram_de.len()));
    assert_eq!(panagram_de.as_bytes(), r.index(de_index));
    assert_eq!(panagram_en.as_bytes(), r.index(en_index));
    r.clear();
    assert_eq!(r.len(), 0);
}
