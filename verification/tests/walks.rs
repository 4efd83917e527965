use rocksbin::{Prefix, DB};

fn namespace(label: &[u8]) -> Prefix {
    DB::open().prefix(label).expect("prefix")
}

#[test]
fn a_walk_seeks_to_its_tag() {
    let prefix = namespace(b"ab");
    assert_eq!(prefix.iter().seek_key(), &[2, 0, 0, 0, b'a', b'b']);
    assert_eq!(prefix.keys().seek_key(), prefix.tag());
    assert_eq!(prefix.values().seek_key(), prefix.tag());
}

#[test]
fn a_walk_takes_the_tag_off_the_key() {
    let prefix = namespace(b"ab");
    let mut walk = prefix.iter();
    let raw: &[u8] = &[2, 0, 0, 0, b'a', b'b', 7, 8, 9];
    let value: &[u8] = &[1, 1];
    assert_eq!(walk.next(Some((raw, value))), Some((vec![7, 8, 9], vec![1, 1])));
    let bare: &[u8] = &[2, 0, 0, 0, b'a', b'b'];
    assert_eq!(walk.next(Some((bare, &[]))), Some((vec![], vec![])));
}

#[test]
fn a_walk_over_an_empty_store_yields_nothing() {
    let prefix = namespace(b"ab");
    let mut walk = prefix.iter();
    assert_eq!(walk.next(None), None);
    assert_eq!(prefix.keys().next(None), None);
    assert_eq!(prefix.values().next(None), None);
}

#[test]
fn a_walk_stops_at_the_first_foreign_key() {
    let prefix = namespace(b"ab");
    let own: &[u8] = &[2, 0, 0, 0, b'a', b'b', 1];
    let foreign: &[u8] = &[2, 0, 0, 0, b'a', b'c', 1];
    let mut walk = prefix.iter();
    assert_eq!(walk.next(Some((own, &[5]))), Some((vec![1], vec![5])));
    assert_eq!(walk.next(Some((foreign, &[6]))), None);
}

#[test]
fn a_walk_that_has_stopped_stays_stopped() {
    let prefix = namespace(b"ab");
    let own: &[u8] = &[2, 0, 0, 0, b'a', b'b', 1];
    let foreign: &[u8] = &[3, 0, 0, 0, b'a', b'b', b'c'];

    let mut walk = prefix.iter();
    assert_eq!(walk.next(Some((foreign, &[6]))), None);
    assert_eq!(walk.next(Some((own, &[5]))), None);
    assert_eq!(walk.next(None), None);

    let mut keys = prefix.keys();
    assert_eq!(keys.next(None), None);
    assert_eq!(keys.next(Some((own, &[5]))), None);

    let mut values = prefix.values();
    assert_eq!(values.next(Some((foreign, &[6]))), None);
    assert_eq!(values.next(Some((own, &[5]))), None);
}

#[test]
fn a_key_shorter_than_the_tag_ends_the_walk() {
    let prefix = namespace(b"ab");
    let short: &[u8] = &[2, 0, 0];
    let mut walk = prefix.iter();
    assert_eq!(walk.next(Some((short, &[1]))), None);
    let mut keys = prefix.keys();
    assert_eq!(keys.next(Some((&[], &[1]))), None);
    let mut values = prefix.values();
    assert_eq!(values.next(Some((short, &[1]))), None);
}

#[test]
fn keys_and_values_are_the_halves_of_the_pairs() {
    let prefix = namespace(b"ab");
    let first: &[u8] = &[2, 0, 0, 0, b'a', b'b', 1];
    let second: &[u8] = &[2, 0, 0, 0, b'a', b'b', 2, 2];
    let foreign: &[u8] = &[2, 0, 0, 0, b'a', b'c'];

    let mut pairs = prefix.iter();
    let mut keys = prefix.keys();
    let mut values = prefix.values();
    for (raw, value) in [(first, &[10u8][..]), (second, &[20u8, 21][..])] {
        let (k, v) = pairs.next(Some((raw, value))).expect("pair");
        assert_eq!(keys.next(Some((raw, value))), Some(k));
        assert_eq!(values.next(Some((raw, value))), Some(v));
    }
    assert_eq!(pairs.next(Some((foreign, &[]))), None);
    assert_eq!(keys.next(Some((foreign, &[]))), None);
    assert_eq!(values.next(Some((foreign, &[]))), None);
}

#[test]
fn a_walk_below_a_group_is_bounded_by_the_whole_nested_tag() {
    let db = DB::open();
    let group = db.prefix_group(b"g").expect("group");
    let inner = group.prefix(b"x").expect("prefix");
    let sibling: &[u8] = &[1, 0, 0, 0, b'g', 1, 0, 0, 0, b'y', 4];
    let own: &[u8] = &[1, 0, 0, 0, b'g', 1, 0, 0, 0, b'x', 4];

    let mut walk = inner.iter();
    assert_eq!(walk.next(Some((own, &[1]))), Some((vec![4], vec![1])));
    assert_eq!(walk.next(Some((sibling, &[2]))), None);
}
