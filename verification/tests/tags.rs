use rocksbin::lex::{lex_less, starts_with};
use rocksbin::registry::Registry;
use rocksbin::tag::{block_length, encode_tag, MAX_LABEL_LEN};
use rocksbin::{ErrorKind, DB};

#[test]
fn a_tag_is_the_length_then_the_label() {
    assert_eq!(encode_tag(&[], b"fish"), Ok(vec![4, 0, 0, 0, b'f', b'i', b's', b'h']));
    assert_eq!(encode_tag(&[], b""), Ok(vec![0, 0, 0, 0]));
    assert_eq!(encode_tag(&[7, 7], b"a"), Ok(vec![7, 7, 1, 0, 0, 0, b'a']));
}

#[test]
fn the_length_is_written_least_significant_byte_first() {
    let label = vec![b'x'; 0x01_02_03];
    let tag = encode_tag(&[], &label).expect("tag");
    assert_eq!(tag.len(), 4 + 0x01_02_03);
    assert_eq!(&tag[..4], &[0x03, 0x02, 0x01, 0x00]);
    assert!(tag[4..].iter().all(|b| *b == b'x'));

    let label = vec![0u8; 300];
    let tag = encode_tag(&[], &label).expect("tag");
    assert_eq!(&tag[..4], &[44, 1, 0, 0]);
}

#[test]
fn the_tag_is_laid_out_as_the_codec_lays_out_a_length() {
    for label in [&b""[..], &b"a"[..], &b"heights"[..], &[0u8; 256][..], &[9u8; 70000][..]] {
        let mut expected = bincode::serialize(&(label.len() as u32)).expect("encode");
        expected.extend_from_slice(label);
        assert_eq!(encode_tag(&[], label), Ok(expected));
    }
}

#[test]
fn the_tag_of_a_namespace_is_the_tag_of_its_label() {
    let mut db = DB::open();
    let prefix = db.prefix(b"heights").expect("prefix");
    assert_eq!(prefix.tag(), encode_tag(&[], b"heights").expect("tag").as_slice());
}

#[test]
fn joining_labels_is_not_ambiguous() {
    let db = DB::open();
    let left = db.prefix_group(b"ab").expect("group").prefix(b"c").expect("prefix");
    let right = db.prefix_group(b"a").expect("group").prefix(b"bc").expect("prefix");
    assert_ne!(left.tag(), right.tag());
    assert!(!starts_with(left.tag(), right.tag()));
    assert!(!starts_with(right.tag(), left.tag()));
}

#[test]
fn tags_of_different_labels_do_not_begin_each_other() {
    let labels: [&[u8]; 6] = [b"", b"t", b"test", b"test1", b"test2", b"test22"];
    for a in labels {
        for b in labels {
            let ta = encode_tag(&[], a).expect("tag");
            let tb = encode_tag(&[], b).expect("tag");
            assert_eq!(starts_with(&ta, &tb), a == b);
        }
    }
}

#[test]
fn starts_with_tells_prefixes() {
    assert!(starts_with(&[], &[]));
    assert!(starts_with(&[1, 2, 3], &[]));
    assert!(starts_with(&[1, 2, 3], &[1]));
    assert!(starts_with(&[1, 2, 3], &[1, 2, 3]));
    assert!(!starts_with(&[1, 2, 3], &[1, 2, 3, 4]));
    assert!(!starts_with(&[1, 2, 3], &[2]));
    assert!(!starts_with(&[], &[0]));
}

#[test]
fn lex_less_orders_as_an_ordered_store_does() {
    let strings: [&[u8]; 8] =
        [&[], &[0], &[0, 0], &[0, 255], &[1], &[1, 0], &[200, 1], &[255]];
    for (i, a) in strings.iter().enumerate() {
        for (j, b) in strings.iter().enumerate() {
            assert_eq!(lex_less(a, b), i < j);
            assert_eq!(lex_less(a, b), a < b);
        }
    }
}

#[test]
fn a_tag_that_begins_a_registered_tag_is_refused() {
    let mut registry = Registry::new();
    assert_eq!(registry.register(&[1, 2, 3]), Ok(()));
    assert_eq!(registry.register(&[1, 2]), Err(ErrorKind::TagConflict));
    assert_eq!(registry.register(&[1]), Err(ErrorKind::TagConflict));
    assert_eq!(registry.register(&[]), Err(ErrorKind::TagConflict));
    assert_eq!(registry.len(), 1);
}

#[test]
fn a_tag_that_a_registered_tag_begins_is_refused() {
    let mut registry = Registry::new();
    assert_eq!(registry.register(&[1, 2]), Ok(()));
    assert_eq!(registry.register(&[1, 2, 0]), Err(ErrorKind::TagConflict));
    assert_eq!(registry.register(&[1, 2, 255, 255]), Err(ErrorKind::TagConflict));
    assert_eq!(registry.register(&[1, 2]), Err(ErrorKind::TagConflict));
    assert_eq!(registry.len(), 1);
    assert!(registry.contains(&[1, 2]));
    assert!(!registry.contains(&[1, 2, 0]));
}

#[test]
fn a_refusal_leaves_the_registry_as_it_was() {
    let mut registry = Registry::new();
    let tags: [&[u8]; 4] = [&[5, 5], &[1], &[9, 0, 1], &[5, 6]];
    for tag in tags {
        assert_eq!(registry.register(tag), Ok(()));
    }
    assert_eq!(registry.register(&[9]), Err(ErrorKind::TagConflict));
    assert_eq!(registry.register(&[5, 5, 5]), Err(ErrorKind::TagConflict));
    assert_eq!(registry.len(), 4);
    for tag in tags {
        assert!(registry.contains(tag));
    }
    assert!(!registry.contains(&[9]));
    assert!(!registry.contains(&[5, 5, 5]));
    assert_eq!(registry.register(&[9, 1]), Ok(()));
    assert_eq!(registry.len(), 5);
}

#[test]
fn tags_apart_are_all_registered_in_any_order() {
    let tags: [&[u8]; 7] = [&[3], &[1, 1], &[2], &[1, 0], &[0, 9, 9], &[1, 2, 3], &[255]];
    let mut registry = Registry::new();
    for tag in tags {
        assert_eq!(registry.register(tag), Ok(()));
    }
    let mut registry = Registry::new();
    for tag in tags.iter().rev() {
        assert_eq!(registry.register(tag), Ok(()));
    }
    assert_eq!(registry.len(), 7);
    for tag in tags {
        assert!(registry.contains(tag));
        assert_eq!(registry.register(tag), Err(ErrorKind::TagConflict));
    }
}

#[test]
fn of_two_overlapping_tags_the_first_wins() {
    let short: &[u8] = &[4, 0, 0, 0];
    let long: &[u8] = &[4, 0, 0, 0, 1];

    let mut registry = Registry::new();
    assert_eq!(registry.register(short), Ok(()));
    assert_eq!(registry.register(long), Err(ErrorKind::TagConflict));

    let mut registry = Registry::new();
    assert_eq!(registry.register(long), Ok(()));
    assert_eq!(registry.register(short), Err(ErrorKind::TagConflict));
}

#[test]
fn an_empty_registry_holds_nothing() {
    let registry = Registry::new();
    assert_eq!(registry.len(), 0);
    assert!(!registry.contains(&[]));
    assert!(!registry.contains(&[0]));
}

#[test]
fn the_empty_tag_shuts_out_every_other() {
    let mut registry = Registry::new();
    assert_eq!(registry.register(&[]), Ok(()));
    assert_eq!(registry.register(&[0]), Err(ErrorKind::TagConflict));
    assert_eq!(registry.register(&[]), Err(ErrorKind::TagConflict));
    assert!(registry.contains(&[]));
}

#[test]
fn a_length_beyond_four_bytes_is_a_contract_violation() {
    assert_eq!(MAX_LABEL_LEN, u32::MAX);
    assert_eq!(block_length(0), Ok(0));
    assert_eq!(block_length(70000), Ok(70000));
    if (usize::MAX as u64) > (u32::MAX as u64) {
        assert_eq!(block_length(u32::MAX as usize), Ok(u32::MAX));
        assert_eq!(block_length(u32::MAX as usize + 1), Err(ErrorKind::ContractViolation));
        assert_eq!(block_length(usize::MAX), Err(ErrorKind::ContractViolation));
    }
}
