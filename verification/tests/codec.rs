use flatcontainer::impls::codec::{CodecRegion, DictionaryCodec, MisraGries};

#[test]
fn test_simple() {
    let mut r = CodecRegion::<DictionaryCodec>::default();

    for _ in 0..1000 {
        let index = r.push("abc".as_bytes());
        assert_eq!("abc".as_bytes(), r.index(index));
    }

    let mut r2 = CodecRegion::default();

    for _ in 0..1000 {
        let index = r2.push("abc".as_bytes());
        assert_eq!("abc".as_bytes(), r2.index(index));
    }

    let mut r3 = CodecRegion::merge_regions(&[&r, &r2]);

    for _ in 0..2000 {
        let index = r3.push("abc".as_bytes());
        assert_eq!("abc".as_bytes(), r3.index(index));
    }
}

#[test]
fn test_multi() {
    let mut regions = Vec::new();
    for _ in 0..8 {
        regions.push(CodecRegion::<DictionaryCodec>::default());
    }
    for _ in 0..1000 {
        for r in &mut regions {
            r.push("abcdef".as_bytes());
            r.push("defghi".as_bytes());
        }
    }

    let refs: Vec<&CodecRegion<DictionaryCodec>> = regions.iter().collect();
    let mut merged = CodecRegion::merge_regions(&refs);

    for _ in 0..2000 {
        let index = merged.push("abcdef".as_bytes());
        assert_eq!("abcdef".as_bytes(), merged.index(index));
        let index = merged.push("defghi".as_bytes());
        assert_eq!("defghi".as_bytes(), merged.index(index));
    }
}

#[test]
fn codec_test_heap_size() {
    let mut regions = Vec::new();
    for _ in 0..8 {
        regions.push(CodecRegion::<DictionaryCodec>::default());
    }
    for _ in 0..1000 {
        for r in &mut regions {
            r.push("abcdef".as_bytes());
            r.push("defghi".as_bytes());
        }
    }

    let refs: Vec<&CodecRegion<DictionaryCodec>> = regions.iter().collect();
    let mut merged = CodecRegion::merge_regions(&refs);

    for _ in 0..2000 {
        let index = merged.push("abcdef".as_bytes());
        assert_eq!("abcdef".as_bytes(), merged.index(index));
        let index = merged.push("defghi".as_bytes());
        assert_eq!("defghi".as_bytes(), merged.index(index));
    }

    let mut sizes = Vec::new();
    merged.heap_size(&mut sizes);
    assert!(!sizes.is_empty());

    let mut merged2 = CodecRegion::merge_regions(&[&merged]);

    for _ in 0..2000 {
        let index = merged2.push("abcdef".as_bytes());
        assert_eq!("abcdef".as_bytes(), merged2.index(index));
        let index = merged2.push("defghi".as_bytes());
        assert_eq!("defghi".as_bytes(), merged2.index(index));
    }

    let mut sizes = Vec::new();
    merged2.heap_size(&mut sizes);
    assert!(!sizes.is_empty());
}

#[test]
fn merged_codec_stores_tags() {
    let mut r = CodecRegion::<DictionaryCodec>::default();
    for _ in 0..10 {
        r.push(b"abc");
    }
    let mut merged = CodecRegion::merge_regions(&[&r]);
    let index = merged.push(b"abc");
    // The popular string is stored as a one-byte tag.
    assert_eq!(index.1 - index.0, 1);
    assert_eq!(merged.index(index), b"abc");
    let other = merged.push(b"xyz");
    assert_eq!(other.1 - other.0, 3);
    assert_eq!(merged.index(other), b"xyz");
}

#[test]
fn misra_gries_keeps_heavy_hitters() {
    let mut mg = MisraGries::<u64>::with_capacity(2);
    for x in [1u64, 2, 1, 3, 1, 1, 2] {
        mg.insert(x);
    }
    let done = mg.done();
    assert_eq!(done[0].0, 1);
    for w in done.windows(2) {
        assert!(w[0].1 >= w[1].1);
    }
}

#[test]
fn misra_gries_counts_without_tidying() {
    let mut mg = MisraGries::<u64>::default();
    mg.update(5, 2);
    mg.update(7, 2);
    mg.update(5, 1);
    mg.update(6, 0);
    assert_eq!(mg.done(), vec![(5, 3), (7, 2)]);
}

#[test]
fn misra_gries_keeps_room_for_twice_k() {
    let mut m = MisraGries::<u8>::with_capacity(10);
    m.insert(b'b');
    for _ in 0..100 {
        m.insert(b'a');
    }
    assert_eq!(m.done(), vec![(b'a', 100), (b'b', 1)]);
}
