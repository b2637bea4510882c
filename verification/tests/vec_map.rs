use parasol::vec_map::VecMap;

#[test]
fn map_keeps_the_order_of_first_insertion() {
    let mut map: VecMap<String, u32> = VecMap::new();
    map.insert("b".to_owned(), 1);
    map.insert("a".to_owned(), 2);
    map.insert("b".to_owned(), 3);
    assert_eq!(map.len(), 2);
    assert_eq!(map.entry(0), (&"b".to_owned(), &3));
    assert_eq!(map.entry(1), (&"a".to_owned(), &2));
    assert_eq!(map.remove(&"b".to_owned()), Some(3));
    assert_eq!(map.remove(&"b".to_owned()), None);
    assert!(!map.contains_key(&"b".to_owned()));
    assert_eq!(map.get(&"a".to_owned()), Some(&2));
}
