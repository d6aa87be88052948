use flatcontainer::impls::consolidate::Consolidating;
use flatcontainer::impls::tuple::TupleABRegion;
use flatcontainer::{FlatStack, MirrorRegion};

#[test]
fn consolidate_t2() {
    let mut c: Consolidating<TupleABRegion<MirrorRegion<u8>, MirrorRegion<i64>>> =
        Consolidating::default();
    c.copy(&(1, 1));
    c.copy(&(1, 1));

    assert_eq!(c.len(), 1);
    assert_eq!(c.get(0), (1, 2));

    c.copy(&(1, -2));

    assert_eq!(c.len(), 0);
}

#[test]
fn consolidate_t2_sort() {
    let mut fs: FlatStack<TupleABRegion<MirrorRegion<u8>, MirrorRegion<i64>>> =
        FlatStack::default();
    fs.copy(&(1, 1));
    fs.copy(&(2, 1));
    fs.copy(&(1, 1));
    fs.copy(&(2, 1));
    fs.copy(&(1, -2));
    fs.copy(&(2, -1));

    let mut c: Consolidating<_> = fs.into();
    c.sort();
    let c = c.consolidate();

    assert_eq!(c.len(), 1);
    assert_eq!(c.get(0), (2, 1));
}

#[test]
fn sort_keeps_order_of_equal_values() {
    let mut c: Consolidating<TupleABRegion<MirrorRegion<u8>, MirrorRegion<i64>>> =
        Consolidating::default();
    for item in [(3u8, 1i64), (1, 2), (3, 3), (2, 4), (1, 5)] {
        c.copy(&item);
    }
    c.sort();
    let mut iter = c.iter();
    let mut seen = Vec::new();
    while let Some(x) = iter.next() {
        seen.push(x);
    }
    assert_eq!(seen, vec![(1, 2), (1, 5), (2, 4), (3, 1), (3, 3)]);
    let c = c.consolidate();
    assert_eq!(c.len(), 3);
    assert_eq!(c.get(0), (1, 7));
    assert_eq!(c.get(1), (2, 4));
    assert_eq!(c.get(2), (3, 4));
    let fs = c.into_flat_stack();
    assert_eq!(fs.len(), 3);
}
