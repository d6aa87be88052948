use flatcontainer::{FlatStack, IntoOwned, Push, Region, ReserveItems, StringRegion};

fn heap(r: &StringRegion) -> (usize, usize) {
    let mut sizes = Vec::new();
    r.heap_size(&mut sizes);
    let (mut cap, mut cnt) = (0, 0);
    for (_, c) in sizes {
        cap += c;
        cnt += 1;
    }
    (cap, cnt)
}

#[test]
fn test_inner() {
    let mut r = <StringRegion>::default();
    let index = r.push("abc");
    assert_eq!(r.index(index), "abc");
}

#[test]
fn test_reserve_items_str() {
    let mut r = <StringRegion>::default();
    let items: Vec<&str> = std::iter::repeat("abc").take(1000).collect();
    r.reserve_items(items.as_slice());

    let (cap, cnt) = heap(&r);
    assert!(cap > 0);
    assert!(cnt > 0);
}

#[test]
fn test_reserve_items_ref_str() {
    let mut r = <StringRegion>::default();
    let items: Vec<&&str> = std::iter::repeat(&"abc").take(1000).collect();
    r.reserve_items(items.as_slice());

    let (cap, cnt) = heap(&r);
    assert!(cap > 0);
    assert!(cnt > 0);
}

#[test]
fn test_reserve_items_string() {
    let mut r = <StringRegion>::default();
    let s = "abc".to_owned();
    let items: Vec<&String> = std::iter::repeat(&s).take(1000).collect();
    r.reserve_items(items.as_slice());

    let (cap, cnt) = heap(&r);
    assert!(cap > 0);
    assert!(cnt > 0);
}

#[test]
fn owned() {
    let mut r = <StringRegion>::default();

    let idx = r.push("abc");
    let reference = r.index(idx);
    let owned = reference.into_owned();
    let idx = r.push(owned);
    assert_eq!("abc", r.index(idx));
}

#[test]
fn test_slice_string_onto() {
    let mut c = <StringRegion>::default();
    let index = c.push("abc".to_string());
    assert_eq!("abc", c.index(index));
    let index = c.push("def");
    assert_eq!("def", c.index(index));
}

#[test]
fn test_container_string() {
    let mut c = FlatStack::default_impl::<String>();
    c.copy(&"abc".to_string());
    assert_eq!("abc", c.get(0));
    c.copy("def");
    assert_eq!("def", c.get(1));
}

#[test]
fn string_region_indices_cover_the_encoding() {
    let mut r = StringRegion::new();
    let a = r.push("Zwölf");
    let b = r.push("");
    assert_eq!(a, (0, 6));
    assert_eq!(b, (6, 6));
    assert_eq!(r.index(a), "Zwölf");
    assert_eq!(r.index(b), "");
}
