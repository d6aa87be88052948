use flatcontainer::impls::deduplicate::ConsecutiveOffsetPairs;
use flatcontainer::impls::index::{IndexList, IndexOptimized, Stride};
use flatcontainer::impls::offsets::{OffsetContainer, OffsetList, OffsetOptimized};
use flatcontainer::{Push, Region, SliceRegion, StringRegion};

fn copy<R: Region + Push<T>, T>(r: &mut R, item: T) -> R::Index {
    r.push(item)
}

#[test]
fn test_index_optimized() {
    let mut r = SliceRegion::<
        ConsecutiveOffsetPairs<StringRegion, IndexOptimized>,
        IndexOptimized,
    >::default();
    let idx = copy(&mut r, ["abc"]);
    assert_eq!("abc", r.index(idx).get(0))
}

#[test]
fn test_index_optimized_clear() {
    let mut oo = <IndexOptimized>::default();
    oo.push(0);
    assert_eq!(oo.len(), 1);
    oo.clear();
    assert_eq!(oo.len(), 0);
    assert!(oo.is_empty());
    oo.push(9999999999);
    assert_eq!(oo.len(), 1);
    oo.clear();
    assert_eq!(oo.len(), 0);
}

#[test]
fn test_index_optimized_reserve() {
    let mut oo = <IndexOptimized>::default();
    oo.push(9999999999);
    assert_eq!(oo.len(), 1);
    oo.reserve(1);
}

#[test]
fn test_index_optimized_heap_size() {
    let mut oo = <IndexOptimized>::default();
    oo.push(9999999999);
    let mut sizes = Vec::new();
    OffsetContainer::heap_size(&oo, &mut sizes);
    let mut cap = 0;
    for (_, ca) in sizes {
        cap += ca;
    }
    assert!(cap > 0);
}

#[test]
fn test_index_stride_push() {
    let mut os = Stride::default();
    assert_eq!(os.len(), 0);
    assert!(os.is_empty());
    assert!(os.push(0));
    assert_eq!(os.index(0), 0);
    assert_eq!(os.len(), 1);
    assert!(!os.is_empty());
    assert!(os.push(2));
    assert_eq!(os.len(), 2);
    assert_eq!(os.index(1), 2);
    assert!(os.push(4));
    assert_eq!(os.len(), 3);
    assert_eq!(os.index(2), 4);
    assert!(os.push(4));
    assert_eq!(os.len(), 4);
    assert_eq!(os.index(3), 4);
    assert!(os.push(4));
    assert_eq!(os.len(), 5);
    assert_eq!(os.index(1), 2);
    assert_eq!(os.index(4), 4);
    assert!(!os.push(5));
    os.clear();
    assert!(!os.push(1));
}

#[test]
fn test_chonk() {
    let mut ol = <IndexList>::default();
    ol.push(usize::MAX);
    assert_eq!(usize::MAX, ol.index(0));
}

#[test]
fn stride_iterates_its_elements() {
    let mut os = Stride::default();
    for item in [0, 3, 6, 6] {
        assert!(os.push(item));
    }
    let mut iter = os.iter();
    let mut seen = Vec::new();
    while let Some(x) = iter.next() {
        seen.push(x);
    }
    assert_eq!(seen, vec![0, 3, 6, 6]);
}

#[test]
fn index_optimized_spills_after_a_stride() {
    let mut oo = IndexOptimized::new();
    for item in [0, 2, 4, 7, 1] {
        oo.push(item);
    }
    assert_eq!(oo.len(), 5);
    let mut all = Vec::new();
    for i in 0..5 {
        all.push(oo.index(i));
    }
    assert_eq!(all, vec![0, 2, 4, 7, 1]);
    let mut iter = oo.iter();
    let mut seen = Vec::new();
    while let Some(x) = iter.next() {
        seen.push(x);
    }
    assert_eq!(seen, all);
}

#[test]
fn index_list_switches_to_wide_entries() {
    let mut ol = IndexList::new();
    ol.push(1);
    ol.push(1 << 40);
    ol.push(2);
    assert_eq!(ol.len(), 3);
    assert_eq!(ol.index(0), 1);
    assert_eq!(ol.index(1), 1 << 40);
    assert_eq!(ol.index(2), 2);
}

#[test]
fn offset_list_and_optimized() {
    let mut ol = OffsetList::new();
    ol.push(0);
    ol.push(0);
    ol.push(5);
    assert_eq!(ol.len(), 3);
    assert_eq!(ol.index(1), 0);
    assert_eq!(ol.index(2), 5);
    ol.clear();
    assert!(ol.is_empty());

    let mut oo = OffsetOptimized::new();
    oo.extend(&[0, 4, 8, 9]);
    assert_eq!(OffsetContainer::len(&oo), 4);
    assert_eq!(OffsetContainer::index(&oo, 2), 8);
    assert_eq!(OffsetContainer::index(&oo, 3), 9);
}
