use flatcontainer::impls::huffman_container::huffman::Huffman;
use flatcontainer::impls::huffman_container::HuffmanContainer;
use flatcontainer::IntoOwned;

fn copy(r: &mut HuffmanContainer<u8>, item: [u8; 3]) {
    let index = r.push(&item);
    assert_eq!(item.as_slice(), r.index(index).into_owned().as_slice());
}

#[test]
fn test_huffman() {
    let mut c = HuffmanContainer::<u8>::default();
    copy(&mut c, [1, 2, 3]);
    copy(&mut c, [1, 2, 3]);
    copy(&mut c, [1, 2, 3]);
    copy(&mut c, [1, 2, 3]);
    copy(&mut c, [2, 3, 4]);
    copy(&mut c, [2, 3, 4]);

    let mut c2 = HuffmanContainer::merge_regions(&[&c]);
    copy(&mut c2, [1, 2, 3]);
    copy(&mut c2, [1, 2, 3]);
    copy(&mut c2, [1, 2, 3]);
    copy(&mut c2, [1, 2, 3]);
    copy(&mut c2, [2, 3, 4]);
    copy(&mut c2, [2, 3, 4]);

    let mut c3 = HuffmanContainer::merge_regions(&[&c2]);
    copy(&mut c3, [1, 2, 3]);
    copy(&mut c3, [1, 2, 3]);
    copy(&mut c3, [1, 2, 3]);
    copy(&mut c3, [1, 2, 3]);
    copy(&mut c3, [2, 3, 4]);
    copy(&mut c3, [2, 3, 4]);
}

#[test]
fn huffman_earlier_items_survive_later_pushes() {
    let mut c = HuffmanContainer::<u8>::default();
    let text: Vec<u8> = (0u8..40).map(|i| i % 13).collect();
    c.push(&text);
    let mut e = HuffmanContainer::merge_regions(&[&c]);
    let mut indices = Vec::new();
    for i in 0..text.len() {
        indices.push(e.push(&text[i..]));
    }
    for (i, index) in indices.iter().enumerate() {
        assert_eq!(&text[i..], e.index(*index).into_owned().as_slice());
    }
    // Long items cross whole bytes.
    let long: Vec<u8> = text.iter().cycle().take(500).cloned().collect();
    let index = e.push(&long);
    assert_eq!(long, e.index(index).into_owned());
    let empty = e.push(&[]);
    assert!(e.index(empty).into_owned().is_empty());
}

#[test]
fn huffman_frequent_symbols_get_short_codes() {
    let counts = vec![(1u8, 100i64), (2, 1), (3, 1), (4, 2)];
    let h = Huffman::create_from(&counts);
    let one = h.lookup(&1).unwrap();
    let two = h.lookup(&2).unwrap();
    assert_eq!(one.0, 1);
    assert_eq!(two.0, 3);
    assert!(h.lookup(&5).is_none());
}

#[test]
fn huffman_merge_counts_all_regions() {
    let mut a = HuffmanContainer::<u8>::default();
    let mut b = HuffmanContainer::<u8>::default();
    a.push(&[1, 1, 1]);
    b.push(&[2, 3]);
    let mut m = HuffmanContainer::merge_regions(&[&a, &b]);
    assert_eq!(m.stats_summary(), Some((0, 0)));
    let index = m.push(&[3, 2, 1]);
    assert_eq!(vec![3u8, 2, 1], m.index(index).into_owned());
    assert_eq!(m.stats_summary().unwrap().1, 3);
    assert_eq!(a.stats_summary(), None);
}

#[test]
fn huffman_clear_returns_to_plain() {
    let mut a = HuffmanContainer::<u8>::default();
    a.push(&[1, 2]);
    let mut m = HuffmanContainer::merge_regions(&[&a]);
    m.push(&[1, 2, 1]);
    m.clear();
    assert_eq!(m.stats_summary(), None);
    let index = m.push(&[7, 8]);
    assert_eq!(vec![7u8, 8], m.index(index).into_owned());
}

#[test]
fn huffman_push_wrapped_copies_items() {
    let mut a = HuffmanContainer::<u8>::default();
    a.push(&[5, 6, 5]);
    let mut m = HuffmanContainer::merge_regions(&[&a]);
    let i = m.push(&[6, 5, 5]);
    let mut plain = HuffmanContainer::<u8>::default();
    let j = plain.push_wrapped(m.index(i));
    assert_eq!(vec![6u8, 5, 5], plain.index(j).into_owned());
    let k = m.push_wrapped(plain.index(j));
    assert_eq!(vec![6u8, 5, 5], m.index(k).into_owned());
}

#[test]
fn huffman_tables_have_no_void_entry() {
    let counts = vec![(1u8, 10i64), (2u8, 5), (3u8, 1), (4u8, 1)];
    let h = Huffman::create_from(&counts);
    for b in 0..256 {
        assert!(!matches!(
            h.table_entry(0, b),
            flatcontainer::impls::huffman_container::tables::Decode::Void
        ));
    }
}

#[test]
fn huffman_code_lengths_are_leaf_depths() {
    let counts = vec![(1u8, 5i64), (2u8, 9), (3u8, 12), (4u8, 13), (5u8, 16), (6u8, 45)];
    let h = Huffman::create_from(&counts);
    let lengths: Vec<usize> = (1u8..=6).map(|s| h.lookup(&s).unwrap().0).collect();
    assert_eq!(lengths, vec![4, 4, 3, 3, 3, 1]);
}

#[test]
fn huffman_many_equal_symbols_get_byte_codes() {
    let counts: Vec<(u8, i64)> = (0u8..=255).map(|s| (s, 1i64)).collect();
    let h = Huffman::create_from(&counts);
    for s in 0u8..=255 {
        assert_eq!(h.lookup(&s).unwrap().0, 8);
    }
    let symbols: Vec<u8> = vec![7, 200, 7];
    let mut e = h.encode((0, 0), &symbols);
    let mut bytes = Vec::new();
    while let Some(b) = e.next() {
        bytes.push(b);
    }
    assert_eq!(bytes.len(), 3);
    assert!(bytes.iter().all(|b| b.is_ok()));
}

#[test]
fn huffman_partial_byte_is_left_aligned() {
    let h = Huffman::<u8>::create_from(&Vec::new());
    let symbols: Vec<u8> = Vec::new();
    let mut e = h.encode((0b101, 3), &symbols);
    assert_eq!(e.next(), Some(Err((0b1010_0000u8, 3))));
    assert_eq!(e.next(), None);
    let counts = vec![(1u8, 1i64), (2, 1), (3, 2)];
    let h = Huffman::create_from(&counts);
    let symbols = vec![3u8, 3, 3];
    let mut e = h.encode((0, 0), &symbols);
    assert_eq!(e.next(), Some(Err((0u8, 3))));
    assert_eq!(e.next(), None);
}
