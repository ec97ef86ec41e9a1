use bucketmap::hashmap::HashMap;

#[test]
fn or_insert() {
    let mut map = HashMap::<&str, u32>::new();
    map = map.entry("poneyland").or_insert(3);
    assert_eq!(*map.get(&"poneyland").unwrap(), 3);

    map = map.entry("poneyland").and_modify(|e| e * 2).or_insert(10);
    assert_eq!(*map.get(&"poneyland").unwrap(), 6);
}

#[test]
fn or_insert_with() {
    let mut map = HashMap::new();
    let value = "hoho";

    map = map.entry("poneyland").or_insert_with(|| value);

    assert_eq!(*map.get(&"poneyland").unwrap(), "hoho");
}

#[test]
fn or_insert_with_key() {
    let mut map: HashMap<&str, usize> = HashMap::new();

    map = map
        .entry("poneyland")
        .or_insert_with_key(|key| key.chars().count());

    assert_eq!(*map.get(&"poneyland").unwrap(), 9);
}

#[test]
fn key() {
    let map = HashMap::<&str, u32>::new();
    let entry = map.entry("poneyland");
    assert_eq!(*entry.key(), "poneyland");

    let mut map2 = HashMap::<&str, u32>::new();
    map2 = map2.entry("poneyland").or_insert(3);
    let occupied = map2.entry("poneyland");
    assert_eq!(*occupied.key(), "poneyland");
}

#[test]
fn and_modify() {
    let mut map: HashMap<&str, usize> = HashMap::new();
    map = map.entry("poneyland").and_modify(|e| e + 1).or_insert(42);
    assert_eq!(*map.get(&"poneyland").unwrap(), 42);

    map = map.entry("poneyland").and_modify(|e| e + 1).or_insert(42);
    assert_eq!(*map.get(&"poneyland").unwrap(), 43);
}

#[test]
fn or_insert_with_not_called_when_occupied() {
    let mut map = HashMap::<&str, u32>::new();
    map = map.entry("here").or_insert(1);
    map = map.entry("here").or_insert_with(|| 999);
    assert_eq!(*map.get(&"here").unwrap(), 1);
    assert_eq!(map.len(), 1);
}
