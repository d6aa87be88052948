use flatcontainer::impls::negate::Negate;
use flatcontainer::impls::tuple::{TupleABCRegion, TupleABRegion};
use flatcontainer::{FlatStack, MirrorRegion, OwnedRegion, Region, StringRegion};

#[test]
fn negate() {
    let mut fs = <FlatStack<
        TupleABCRegion<OwnedRegion<u8>, OwnedRegion<u8>, MirrorRegion<i64>>,
    >>::default();
    fs.copy(([1, 2, 3, 4], [5, 6, 7, 8], 1));

    assert_eq!(
        ([1u8, 2, 3, 4].as_slice(), [5u8, 6, 7, 8].as_slice(), 1_i64),
        fs.get(0)
    );

    let neg = fs.negate();
    assert_eq!(
        ([1, 2, 3, 4].as_slice(), [5, 6, 7, 8].as_slice(), -1),
        neg.get(0)
    );
}

#[test]
fn negate_pairs_keeps_first_component() {
    let mut fs = <FlatStack<TupleABRegion<StringRegion, MirrorRegion<i32>>>>::default();
    fs.copy(("a", -5i32));
    fs.copy(("bc", 0i32));
    fs.copy(("d", i32::MAX));
    let neg = fs.negate();
    assert_eq!(3, neg.len());
    assert_eq!(("a", 5), neg.get(0));
    assert_eq!(("bc", 0), neg.get(1));
    assert_eq!(("d", -i32::MAX), neg.get(2));
}

#[test]
fn negate_empty_region_has_no_storage() {
    let mut region = <Negate<TupleABRegion<MirrorRegion<u8>, MirrorRegion<i16>>>>::merge_regions(&[]);
    region.clear();
    let mut sizes = Vec::new();
    region.heap_size(&mut sizes);
    assert!(sizes.is_empty());
}

#[test]
fn negate_small_integers() {
    let mut fs = <FlatStack<TupleABRegion<MirrorRegion<u8>, MirrorRegion<i8>>>>::default();
    fs.copy((1u8, i8::MAX));
    fs.copy((2u8, -3i8));
    let neg = fs.negate();
    assert_eq!((1, -i8::MAX), neg.get(0));
    assert_eq!((2, 3), neg.get(1));
}
