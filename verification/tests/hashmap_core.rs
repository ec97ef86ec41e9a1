use bucketmap::hashmap::HashMap;

#[test]
fn insert() {
    let mut map = HashMap::new();
    map.insert(5, "A Dance with Dragons");

    assert_eq!(map.len(), 1);
    assert_eq!(map.get(&5), Some(&"A Dance with Dragons"));

    let adwd = map.remove(&5);

    assert_eq!(map.len(), 0);
    assert_eq!(adwd, Some("A Dance with Dragons"));

    assert_eq!(map.get(&5), None);
}

#[test]
fn rust_doc_example() {
    let mut book_reviews = HashMap::new();

    book_reviews.insert(
        "Adventures of Huckleberry Finn".to_string(),
        "My favorite book.".to_string(),
    );
    book_reviews.insert(
        "Grimms' Fairy Tales".to_string(),
        "Masterpiece.".to_string(),
    );
    book_reviews.insert(
        "Pride and Prejudice".to_string(),
        "Very enjoyable.".to_string(),
    );
    book_reviews.insert(
        "The Adventures of Sherlock Holmes".to_string(),
        "Eye lyked it alot.".to_string(),
    );

    if !book_reviews.contains_key_by(&"Les Misérables") {
        println!(
            "We've got {} reviews, but Les Misérables ain't one.",
            book_reviews.len()
        );
    }

    book_reviews.remove_by(&"The Adventures of Sherlock Holmes");

    let to_find = ["Pride and Prejudice", "Alice's Adventure in Wonderland"];
    for &book in &to_find {
        match book_reviews.get_by(&book) {
            Some(review) => println!("{book}: {review}"),
            None => println!("{book} is unreviewed."),
        }
    }

    let mut it = book_reviews.pairs();
    while let Some((book, review)) = it.next() {
        println!("{book}: \"{review}\"");
    }
}

#[test]
fn ten_inserts_double_buckets() {
    let mut map = HashMap::new();
    assert_eq!(map.bucket_count(), 0);

    let keys = [
        "alpha", "bravo", "charlie", "delta", "echo", "foxtrot", "golf", "hotel", "india",
        "juliett",
    ];
    for (i, k) in keys.iter().enumerate() {
        map.insert(*k, i);
    }

    assert_eq!(map.len(), 10);
    assert_eq!(map.bucket_count(), 16);
    for (i, k) in keys.iter().enumerate() {
        assert_eq!(map.get(k), Some(&i));
        assert!(map.contains_key(k));
    }
}

#[test]
fn overwrite_keeps_len() {
    let mut map = HashMap::new();
    assert!(map.is_empty());
    assert_eq!(map.insert(7u8, "first"), None);
    assert_eq!(map.len(), 1);
    assert_eq!(map.insert(7u8, "second"), Some("first"));
    assert_eq!(map.len(), 1);
    assert_eq!(map.get(&7u8), Some(&"second"));
    assert!(!map.is_empty());
}

#[test]
fn remove_absent_key() {
    let mut map: HashMap<u32, u32> = HashMap::new();
    assert_eq!(map.remove(&3), None);
    map.insert(1, 10);
    assert_eq!(map.remove(&3), None);
    assert_eq!(map.len(), 1);
}

#[test]
fn empty_map_lookups() {
    let map: HashMap<String, u32> = HashMap::new();
    assert_eq!(map.get(&"anything".to_string()), None);
    assert!(!map.contains_key(&"anything".to_string()));
    assert_eq!(map.len(), 0);
    assert_eq!(map.bucket_count(), 0);
}

#[test]
fn get_mut_updates_value() {
    let mut map = HashMap::new();
    map.insert(42u64, 1u32);
    if let Some(v) = map.get_mut(&42u64) {
        *v += 9;
    }
    assert_eq!(map.get(&42u64), Some(&10u32));
    assert_eq!(map.get_mut(&43u64), None);
}

#[test]
fn growth_across_two_resizes_keeps_all() {
    let mut map = HashMap::new();
    for i in 0..40u32 {
        map.insert(i, i * 2);
    }
    assert_eq!(map.len(), 40);
    for i in 0..40u32 {
        assert_eq!(map.get(&i), Some(&(i * 2)));
    }
}

#[test]
fn borrowed_key_lookup() {
    let mut map = HashMap::new();
    map.insert("one".to_string(), 1u32);
    map.insert("two".to_string(), 2u32);

    assert_eq!(map.get_by(&"one"), Some(&1));
    assert_eq!(map.get_by(&"three"), None);
    assert!(map.contains_key_by(&"two"));
    assert!(!map.contains_key_by(&"three"));

    if let Some(v) = map.get_mut_by(&"two") {
        *v = 22;
    }
    assert_eq!(map.get_by(&"two"), Some(&22));

    assert_eq!(map.remove_by(&"one"), Some(1));
    assert_eq!(map.len(), 1);
    assert_eq!(map.get_by(&"one"), None);
}
