use flatcontainer::impls::deduplicate::ConsecutiveOffsetPairs;
use flatcontainer::impls::offsets::OffsetOptimized;
use flatcontainer::{Push, Region, SliceRegion, StringRegion};

#[test]
fn offsets_test_offset_optimized() {
    fn copy<R: Region + Push<T>, T>(r: &mut R, item: T) -> R::Index {
        r.push(item)
    }

    let mut r = SliceRegion::<
        ConsecutiveOffsetPairs<StringRegion, OffsetOptimized>,
        OffsetOptimized,
    >::default();
    let idx = copy(&mut r, ["abc"]);
    assert_eq!("abc", r.index(idx).get(0))
}
