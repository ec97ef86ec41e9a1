use bucketmap::hashmap::HashMap;

fn books() -> Vec<(u8, &'static str)> {
    vec![
        (1, "A Game of Thrones"),
        (2, "A Clash of Kings"),
        (3, "A Storm of Swords"),
        (4, "A Feast for Crows"),
        (5, "A Dance with Dragons"),
    ]
}

#[test]
fn iter_pairs() {
    let mut map = HashMap::new();
    for (k, v) in &books() {
        map.insert(*k, v.to_string());
    }

    // borrowed pairs: the map stays usable afterwards
    let mut seen = 0;
    let mut it = map.pairs();
    while let Some((k, v)) = it.next() {
        assert!(books().contains(&(*k, v.as_str())));
        seen += 1;
    }
    assert_eq!(seen, 5);

    // owned pairs: the map is consumed
    let mut owned = 0;
    let mut drain = map.into_pairs();
    while let Some((k, v)) = drain.next() {
        assert!(books().contains(&(k, v.as_str())));
        owned += 1;
    }
    assert_eq!(owned, 5);
}

#[test]
fn iter_keys() {
    let mut map = HashMap::new();
    for (k, v) in &books() {
        map.insert(*k, v.to_string());
    }

    let keys_only: Vec<u8> = books().iter().map(|(k, _v)| *k).collect();
    let mut it = map.keys();
    while let Some(k) = it.next() {
        assert!(keys_only.contains(k));
    }
}

#[test]
fn iter_values() {
    let mut map = HashMap::new();
    for (k, v) in &books() {
        map.insert(*k, v.to_string());
    }

    let titles: Vec<&str> = books().iter().map(|(_k, v)| *v).collect();
    let mut it = map.values();
    while let Some(v) = it.next() {
        assert!(titles.contains(&v.as_str()));
    }
}

#[test]
fn iteration_complete_after_removal() {
    let mut map = HashMap::new();
    for i in 0..10u32 {
        map.insert(i, i + 100);
    }
    map.remove(&3);
    map.remove(&7);

    let mut collected: Vec<(u32, u32)> = Vec::new();
    let mut it = map.pairs();
    while let Some((k, v)) = it.next() {
        collected.push((*k, *v));
    }
    assert_eq!(collected.len(), 8);
    for i in 0..10u32 {
        let expect_present = i != 3 && i != 7;
        assert_eq!(collected.iter().any(|(k, _)| *k == i), expect_present);
        assert_eq!(map.get(&i).is_some(), expect_present);
        if expect_present {
            assert!(collected.contains(&(i, i + 100)));
        }
    }
}

#[test]
fn cursor_orders_agree() {
    let mut map = HashMap::new();
    for i in 0..12u32 {
        map.insert(i, i * 3);
    }

    let mut pair_seq: Vec<(u32, u32)> = Vec::new();
    let mut it = map.pairs();
    while let Some((k, v)) = it.next() {
        pair_seq.push((*k, *v));
    }

    let mut key_seq: Vec<u32> = Vec::new();
    let mut ks = map.keys();
    while let Some(k) = ks.next() {
        key_seq.push(*k);
    }

    let mut value_seq: Vec<u32> = Vec::new();
    let mut vs = map.values();
    while let Some(v) = vs.next() {
        value_seq.push(*v);
    }

    assert_eq!(pair_seq.len(), 12);
    assert_eq!(key_seq.len(), 12);
    assert_eq!(value_seq.len(), 12);
    for i in 0..12 {
        assert_eq!(key_seq[i], pair_seq[i].0);
        assert_eq!(value_seq[i], pair_seq[i].1);
    }
}
