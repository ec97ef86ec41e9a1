use bucketmap::vector::Vector;

#[test]
fn empty_and_push_1() {
    let mut v = Vector::new();

    v.push("Something");

    assert_eq!(v.capacity(), 1);
    assert_eq!(v.len(), 1);
}

#[test]
fn push_10() {
    let mut v = Vector::new();
    let fav_books = "A Dance With Dragons A Feast For Crows Two Words";

    fav_books.split(" ").for_each(|s| v.push(s));

    assert_eq!(v.len(), 10);
    assert_eq!(v.capacity(), 16);
}

#[test]
fn push_10_pop_11() {
    let mut v = Vector::new();
    let fav_books = "A Dance With Dragons A Feast For Crows Two Words";

    fav_books.split(" ").for_each(|s| v.push(s));

    assert_eq!(v.len(), 10);
    assert_eq!(v.capacity(), 16);

    fav_books
        .split(" ")
        .collect::<Vec<&str>>()
        .iter()
        .rev()
        .for_each(|s| assert_eq!(v.pop(), Some(*s)));

    assert_eq!(v.pop(), None);
}

#[test]
fn push_10_pop_and_peek_11() {
    let mut v = Vector::new();
    let fav_books = "A Dance With Dragons A Feast For Crows Two Words";

    fav_books.split(" ").for_each(|s| v.push(s));

    assert_eq!(v.len(), 10);
    assert_eq!(v.capacity(), 16);

    fav_books
        .split(" ")
        .collect::<Vec<&str>>()
        .iter()
        .rev()
        .for_each(|s| {
            assert_eq!(v.peek(), Some(s));
            assert_eq!(v.pop(), Some(*s));
        });

    assert_eq!(v.peek(), None);
    assert_eq!(v.pop(), None);
}
