use flatcontainer::impls::deduplicate::{CollapseSequence, ConsecutiveOffsetPairs};
use flatcontainer::impls::offsets::OffsetOptimized;
use flatcontainer::impls::tuple::{TupleABCRegion, TupleABRegion};
use flatcontainer::{
    FlatStack, IntoOwned, MirrorRegion, OptionRegion, OwnedRegion, Push, Region, RegionPreference, ReserveItems, ResultRegion, SliceRegion,
    StringRegion,
};

fn sizes<R: Region>(r: &R) -> (usize, usize, usize) {
    let mut entries = Vec::new();
    r.heap_size(&mut entries);
    let (mut size, mut cap, mut cnt) = (0, 0, 0);
    for (s, c) in entries {
        size += s;
        cap += c;
        cnt += 1;
    }
    (size, cap, cnt)
}

#[test]
fn test_dedup_flatstack() {
    let mut fs = FlatStack::<CollapseSequence<StringRegion>>::default();

    fs.copy("abc");
    fs.copy("abc");

    assert_eq!(2, fs.len());
}

#[test]
fn test_dedup_region() {
    let mut r = CollapseSequence::<StringRegion>::default();

    assert_eq!(r.push("abc"), r.push("abc"));
}

#[test]
fn deduplicate_test_offset_optimized() {
    let mut r =
        CollapseSequence::<ConsecutiveOffsetPairs<StringRegion, OffsetOptimized>>::default();

    for _ in 0..1000 {
        r.push("abc");
    }
    assert_eq!(r.index(0), "abc");
}

#[test]
fn collapse_sequence_stores_changes() {
    let mut r = CollapseSequence::<StringRegion>::default();
    let a = r.push("abc");
    let b = r.push("def");
    let c = r.push("abc");
    assert_ne!(a, b);
    assert_ne!(a, c);
    assert_eq!(r.index(a), "abc");
    assert_eq!(r.index(b), "def");
    assert_eq!(r.index(c), "abc");
}

#[test]
fn consecutive_offset_pairs_number_items() {
    let mut r = <ConsecutiveOffsetPairs<OwnedRegion<u8>>>::default();
    let first: usize = r.push(&b"abc"[..]);
    let second: usize = r.push(&b"de"[..]);
    assert_eq!((first, second), (0, 1));
    assert_eq!(b"abc", r.index(first));
    assert_eq!(b"de", r.index(second));
}

#[test]
fn test_reserve_regions() {
    let mut r = MirrorRegion::<u8>::default();
    ReserveItems::reserve_items(&mut r, &[0u8]);
}

#[test]
fn option_test_reserve() {
    let mut r = <OptionRegion<Vec<u8>>>::default();
    let items = [Some(0), None];
    let refs: Vec<&Option<u8>> = items.iter().collect();
    ReserveItems::reserve_items(&mut r, refs.as_slice());

    ReserveItems::reserve_items(&mut r, &items);
}

#[test]
fn option_test_heap_size() {
    let mut r = <OptionRegion<OwnedRegion<u8>>>::default();
    let items: Vec<Option<&[u8; 1]>> = std::iter::once(Some(&[1; 1]))
        .chain(std::iter::repeat_n(None, 1000))
        .collect();
    ReserveItems::reserve_items(&mut r, items.as_slice());
    let (_, cap, _) = sizes(&r);
    assert!(cap > 0);
    for item in std::iter::once(Some(&[1; 1])).chain(std::iter::repeat_n(None, 10000)) {
        r.push(item);
    }
    let (siz, _, _) = sizes(&r);
    assert!(siz > 0);
}

#[test]
fn option_region_reads_back() {
    let mut r = <OptionRegion<MirrorRegion<u8>>>::default();
    let a = r.push(Some(123));
    let b = r.push(Option::<u8>::None);
    assert_eq!(Some(123), r.index(a));
    assert_eq!(None, r.index(b));
}

#[test]
fn result_test_reserve() {
    let mut r = <ResultRegion<Vec<u8>, Vec<u8>>>::default();
    let items: [Result<u8, u8>; 2] = [Ok(0), Err(1)];
    let refs: Vec<&Result<u8, u8>> = items.iter().collect();
    ReserveItems::reserve_items(&mut r, refs.as_slice());

    ReserveItems::reserve_items(&mut r, &items);
}

#[test]
fn result_test_heap_size() {
    let mut r = <ResultRegion<OwnedRegion<u8>, OwnedRegion<u8>>>::default();
    let items: [Result<[u8; 0], [u8; 1]>; 2] = [Ok([1; 0]), Err([1; 1])];
    let refs: Vec<&Result<[u8; 0], [u8; 1]>> = items.iter().collect();
    ReserveItems::reserve_items(&mut r, refs.as_slice());
    let (_, cap, _) = sizes(&r);
    assert!(cap > 0);
}

#[test]
fn test_result() {
    let r: Result<_, u16> = Ok("abc");
    let mut c = <ResultRegion<StringRegion, MirrorRegion<_>>>::default();
    let idx = c.push(r);
    assert_eq!(r, c.index(idx));
}

#[test]
fn test_readme() {
    let r: Result<_, u16> = Ok("abc");
    let mut c = FlatStack::default_impl::<Result<&str, u16>>();
    c.copy(r);
    assert_eq!(r, c.get(0));
}

#[test]
fn test_tuple() {
    let t = (1, 2, 3);
    let mut r = <TupleABCRegion<MirrorRegion<_>, MirrorRegion<_>, MirrorRegion<_>>>::default();
    let i0 = r.push(t);
    assert_eq!((1, 2, 3), r.index(i0));

    let i1 = r.push((&1, &2, &4));
    assert_eq!((1, 2, 4), r.index(i1));

    let i2 = r.push((&1, 2, 5));
    assert_eq!((1, 2, 5), r.index(i2));

    let i3 = r.push(&(1, 2, 6));
    assert_eq!((1, 2, 6), r.index(i3));

    let i4 = r.push(&(1, &2, 7));
    assert_eq!((1, 2, 7), r.index(i4));
}

#[test]
fn test_nested() {
    let t = ("abc", 2, 3);
    let mut r = <TupleABCRegion<StringRegion, MirrorRegion<_>, MirrorRegion<_>>>::default();
    let i0 = r.push(t);
    assert_eq!(("abc", 2, 3), r.index(i0));

    let i1 = r.push((&"abc", &2, &3));
    assert_eq!(("abc", 2, 3), r.index(i1));

    let i2 = r.push((&"abc", 2, 3));
    assert_eq!(("abc", 2, 3), r.index(i2));

    let i3 = r.push(&("abc", 2, 3));
    assert_eq!(("abc", 2, 3), r.index(i3));
}

#[test]
fn tuple_test_heap_size() {
    let t = ("abc", 2, 3);
    let mut r = <TupleABCRegion<StringRegion, MirrorRegion<i32>, MirrorRegion<i32>>>::default();

    let _ = r.push(t);

    let (size, cap, cnt) = sizes(&r);

    assert!(size > 0);
    assert!(cap > 0);
    assert!(cnt > 0);
}

#[test]
fn tuple_pair_of_slices() {
    let mut r = <TupleABRegion<StringRegion, OwnedRegion<u8>>>::default();
    let idx = r.push(("abc", &[1u8, 2][..]));
    let (s, b) = r.index(idx);
    assert_eq!(s, "abc");
    assert_eq!(b, &[1u8, 2][..]);
}

#[test]
fn vec() {
    let mut region = Vec::<u32>::new();
    region.push(42);
    assert_eq!(Region::index(&region, 0), &42);

    let mut region = Vec::<u32>::new();
    region.push(42);
    region.push(43);
    region.push(44);
    region.reserve_items(&[&1, &2, &3]);
    assert_eq!(Region::index(&region, 0), &42);
    assert_eq!(Region::index(&region, 1), &43);
    assert_eq!(Region::index(&region, 2), &44);
}

#[test]
fn flat_stack_iterates_in_order() {
    let mut c = FlatStack::default_impl::<String>();
    c.extend(&["a", "bc", ""]);
    assert_eq!(c.len(), 3);
    let mut iter = c.iter();
    assert_eq!(iter.remaining(), 3);
    assert_eq!(iter.next(), Some("a"));
    assert_eq!(iter.next(), Some("bc"));
    assert_eq!(iter.next(), Some(""));
    assert_eq!(iter.next(), None);
    c.clear();
    assert!(c.is_empty());
}

#[test]
fn test_reserve_items() {
    let mut c = <(usize, String, Vec<String>) as RegionPreference>::Region::default();
    c.push((1, format!("Hello"), &["abc"]));

    let item = (1usize, "Hello".to_string(), vec!["abc".to_string()]);
    let mut c2 = <(usize, String, Vec<String>) as RegionPreference>::Region::default();
    c2.reserve_items(&[&item]);
    let index = c2.push(&item);
    let (a, b, s) = c2.index(index);
    assert_eq!(1, a);
    assert_eq!("Hello", b);
    assert_eq!(1, s.len());
}

#[test]
fn tuple_reserve_items_by_value_keeps_items() {
    let mut r = TupleABRegion::<MirrorRegion<u8>, MirrorRegion<u16>>::default();
    let index = r.push((3u8, 4u16));
    r.reserve_items(&[(5u8, 6u16), (7u8, 8u16)]);
    assert_eq!((3, 4), r.index(index));
}

#[test]
fn test_my_understanding() {
    let item = (vec![1u8, 2, 3], vec![1u8, 2, 3]);
    let mut r = <TupleABRegion<SliceRegion<MirrorRegion<u8>>, OwnedRegion<u8>>>::default();
    let _index: ((usize, usize), (usize, usize)) = r.push(&item);

    let mut r = <TupleABRegion<
        ConsecutiveOffsetPairs<SliceRegion<MirrorRegion<u8>>>,
        ConsecutiveOffsetPairs<OwnedRegion<u8>>,
    >>::default();
    let _index: (usize, usize) = r.push(&item);

    let mut fs = FlatStack::<
        TupleABRegion<
            ConsecutiveOffsetPairs<SliceRegion<MirrorRegion<u8>>>,
            ConsecutiveOffsetPairs<OwnedRegion<u8>>,
        >,
    >::default();

    for _ in 0..1000 {
        fs.copy(&item);
        let mut sizes = Vec::new();
        fs.heap_size(&mut sizes);
        let mut size = 0;
        let mut capacity = 0;
        let mut count = 0;
        for (siz, cap) in sizes {
            size += siz;
            capacity += cap;
            count += 1;
        }
        println!("size {size}, capacity {capacity}, allocations {count}");
    }
    assert_eq!(&item.1, fs.get(0).1);
}

#[test]
fn heap_size_reports_bytes_in_use() {
    let mut r = <TupleABRegion<StringRegion, OwnedRegion<u16>>>::default();
    r.push(("abc", &[1u16, 2, 3][..]));
    r.push(("de", &[4u16][..]));
    let mut sizes = vec![(7usize, 7usize)];
    r.heap_size(&mut sizes);
    // The pair that was there stays first; then the string bytes, then the `u16`s.
    assert_eq!(sizes.len(), 3);
    assert_eq!(sizes[0], (7, 7));
    assert_eq!(sizes[1].0, 5);
    assert_eq!(sizes[2].0, 8);
    assert!(sizes[1].0 <= sizes[1].1);
    assert!(sizes[2].0 <= sizes[2].1);
}

#[test]
fn clear_leaves_a_region_that_reads_back_new_items() {
    let mut r = <ResultRegion<StringRegion, MirrorRegion<u8>>>::default();
    r.push(Ok::<&str, u8>("abc"));
    r.push(Err::<&str, u8>(3));
    r.clear();
    let mut sizes = Vec::new();
    r.heap_size(&mut sizes);
    assert_eq!(sizes[0].0, 0);
    let i = r.push(Ok::<&str, u8>("x"));
    assert_eq!(r.index(i), Ok("x"));
}

#[test]
fn option_into_owned_keeps_the_variant() {
    let some: Option<&str> = Some("ab");
    assert_eq!(some.into_owned(), Some("ab".to_string()));
    let none: Option<&str> = None;
    assert_eq!(none.into_owned(), None);
    let mut target = Some("zz".to_string());
    Some("cd").clone_onto(&mut target);
    assert_eq!(target, Some("cd".to_string()));
    None::<&str>.clone_onto(&mut target);
    assert_eq!(target, None);
}
