use cat_library::library::{Book, Library, Metadata, RegisterError, UpdateEntryError};

fn sample_book(title: &str, author: &str, description: &str, content: &str) -> Book {
    Book {
        title: title.to_string(),
        author: author.to_string(),
        description: description.to_string(),
        content: content.to_string(),
    }
}

#[test]
fn add_and_search() {
    let book = Book {
        title: String::from("foo"),
        author: String::from("cat 1"),
        description: String::from("bar"),
        content: String::from("baz"),
    };
    let mut lib = Library::new();
    let guest = Library::OPERATOR;
    let id = lib.add(book, guest);

    let r = lib.search("");
    assert_eq!(r.len(), 1);
    assert_eq!(r[0].0.num as f64 / r[0].0.den as f64, 1.0);
    assert_eq!(r[0].1, id);
    assert_eq!(r[0].2, Metadata::new(guest));

    let r = lib.search("foo");
    assert_eq!(r.len(), 1);
    assert_eq!(r[0].0.num as f64 / r[0].0.den as f64, 1.0);
    assert_eq!(r[0].1, id);
    assert_eq!(r[0].2, Metadata::new(guest));
}

#[test]
fn add_many() {
    let mut lib = Library::new();
    let book = sample_book("foo", "cat 1", "bar", "baz");
    let book2 = sample_book("foo", "cat 1", "bar", "haha!");
    let guest = Library::OPERATOR;
    {
        let mut expect = Vec::new();
        for _ in 1..=3 {
            let id = lib.add(book.clone(), guest);
            let meta = lib.lookup_metadata(id);
            expect.push((1.0, id, meta));
            let got: Vec<(f64, _, _)> = lib
                .search("")
                .into_iter()
                .map(|(s, id, meta)| (s.num as f64 / s.den as f64, id, meta))
                .collect();
            assert_eq!(expect, got);
        }
    }
    let id2 = lib.add(book2.clone(), guest);
    let got: Vec<(f64, _, _)> = lib
        .search("haha!")
        .into_iter()
        .map(|(s, id, meta)| (s.num as f64 / s.den as f64, id, meta))
        .collect();
    assert_eq!(vec![(1.0, id2, Metadata::new(guest))], got);
}

#[test]
fn checkout_and_checkin() {
    let book = sample_book("foo", "cat 1", "bar", "baz");
    let mut lib = Library::new();
    let guest = Library::OPERATOR;
    let id = lib.add(book.clone(), guest);

    assert_eq!(Ok(()), lib.checkout(id, guest));
    assert_eq!(
        Err(UpdateEntryError::AlreadyCheckedOut(guest)),
        lib.checkout(id, guest)
    );
    assert_eq!(Ok(()), lib.checkin(id, guest));
    assert_eq!(
        Err(UpdateEntryError::AlreadyCheckedIn),
        lib.checkin(id, guest)
    );
    assert_eq!(Ok(()), lib.checkout(id, guest));
}

#[test]
fn end_to_end_checkout_scenario() {
    let mut lib = Library::new();
    let guest_a: u128 = 1000;
    let guest_b: u128 = 2000;
    assert!(lib.register_guest(guest_a, "alice".to_string()).is_ok());
    assert!(lib.register_guest(guest_b, "bob".to_string()).is_ok());

    let id = lib.add(sample_book("foo", "cat 1", "bar", "baz"), guest_a);
    let found = lib.search("foo");
    assert_eq!(found.len(), 1);
    assert_eq!(found[0].0.num as f64 / found[0].0.den as f64, 1.0);
    assert_eq!(found[0].1, id);

    assert_eq!(Ok(()), lib.checkout(id, guest_a));
    assert_eq!(
        Err(UpdateEntryError::AlreadyCheckedOut(guest_a)),
        lib.checkout(id, guest_b)
    );
    assert_eq!(Ok(()), lib.checkin(id, guest_a));
    assert_eq!(
        Err(UpdateEntryError::AlreadyCheckedIn),
        lib.checkin(id, guest_a)
    );
}

#[test]
fn checkout_counter_increments_and_saturates_only_on_success() {
    let mut lib = Library::new();
    let guest = Library::OPERATOR;
    let id = lib.add(sample_book("foo", "cat 1", "bar", "baz"), guest);
    assert_eq!(lib.lookup_metadata(id).checkouts, 0);

    assert_eq!(Ok(()), lib.checkout(id, guest));
    assert_eq!(lib.lookup_metadata(id).checkouts, 1);

    // a failed checkout does not move the counter
    assert!(lib.checkout(id, 77).is_err());
    assert_eq!(lib.lookup_metadata(id).checkouts, 1);

    // a checkin does not move the counter
    assert_eq!(Ok(()), lib.checkin(id, guest));
    assert_eq!(lib.lookup_metadata(id).checkouts, 1);

    assert_eq!(Ok(()), lib.checkout(id, guest));
    assert_eq!(lib.lookup_metadata(id).checkouts, 2);
}

#[test]
fn guest_directory_uniqueness() {
    let mut lib = Library::new();
    assert_eq!(Ok("alice".to_string()), lib.register_guest(5, "alice".to_string()));
    // the same address cannot register twice, even under a fresh nickname
    assert_eq!(
        Err(RegisterError::AlreadyRegistered),
        lib.register_guest(5, "bob".to_string())
    );
    // the failed attempt above still reserved the nickname
    assert_eq!(
        Err(RegisterError::NicknameTaken),
        lib.register_guest(6, "bob".to_string())
    );
    assert_eq!(
        Err(RegisterError::NicknameTaken),
        lib.register_guest(6, "alice".to_string())
    );
    assert_eq!(
        Err(RegisterError::NicknameTaken),
        lib.register_guest(6, "cat in the machine".to_string())
    );
    assert_eq!(Ok("carol".to_string()), lib.register_guest(6, "carol".to_string()));

    assert_eq!(Some("alice".to_string()), lib.lookup_guest_by_addr(5));
    assert_eq!(Some("carol".to_string()), lib.lookup_guest_by_addr(6));
    assert_eq!(None, lib.lookup_guest_by_addr(99));
    assert_eq!(
        Some("cat in the machine".to_string()),
        lib.lookup_guest_by_addr(Library::OPERATOR)
    );
}

#[test]
fn book_ids_stay_stable_as_the_pool_grows() {
    let mut lib = Library::new();
    let guest = Library::OPERATOR;
    let id0 = lib.add(sample_book("first", "a", "d", "c"), guest);
    let id1 = lib.add(sample_book("second", "b", "d", "c"), guest);
    assert_eq!(lib.lookup_book_by_id(id0).title, "first");
    assert_eq!(lib.lookup_book_by_id(id1).title, "second");
    let _ = lib.add(sample_book("third", "c", "d", "c"), guest);
    let _ = lib.checkout(id1, guest);
    assert_eq!(lib.lookup_book_by_id(id0).title, "first");
    assert_eq!(lib.lookup_book_by_id(id1).title, "second");
}

#[test]
fn empty_query_lists_every_book_in_pool_order() {
    let mut lib = Library::new();
    let guest = Library::OPERATOR;
    let a = lib.add(sample_book("zebra", "x", "d", "c"), guest);
    let b = lib.add(sample_book("apple", "y", "d", "c"), guest);
    let c = lib.add(sample_book("mango", "z", "d", "c"), guest);
    let r = lib.search("");
    assert_eq!(r.len(), 3);
    assert_eq!(r[0].1, a);
    assert_eq!(r[1].1, b);
    assert_eq!(r[2].1, c);
    for entry in &r {
        assert_eq!(entry.0.num as f64 / entry.0.den as f64, 1.0);
    }
}

#[test]
fn exact_title_ties_keep_pool_order() {
    let mut lib = Library::new();
    let guest = Library::OPERATOR;
    let a = lib.add(sample_book("foo", "one", "d", "c"), guest);
    let b = lib.add(sample_book("foo", "two", "d", "c"), guest);
    let r = lib.search("foo");
    assert_eq!(r.len(), 2);
    assert_eq!(r[0].1, a);
    assert_eq!(r[1].1, b);
    assert_eq!(r[0].0.num as f64 / r[0].0.den as f64, 1.0);
}

#[test]
fn dissimilar_query_is_excluded() {
    let mut lib = Library::new();
    let guest = Library::OPERATOR;
    lib.add(sample_book("foo", "cat 1", "bar", "baz"), guest);
    let r = lib.search("qqqqqqqqqqqqqqqqqqqq");
    assert_eq!(r.len(), 0);
}

#[test]
fn lookup_checkouts_by_guest_lists_only_that_guest() {
    let mut lib = Library::new();
    let guest = Library::OPERATOR;
    let other: u128 = 4242;
    let a = lib.add(sample_book("one", "x", "d", "c"), guest);
    let b = lib.add(sample_book("two", "y", "d", "c"), guest);
    let c = lib.add(sample_book("three", "z", "d", "c"), guest);
    assert_eq!(Ok(()), lib.checkout(a, guest));
    assert_eq!(Ok(()), lib.checkout(b, other));
    assert_eq!(Ok(()), lib.checkout(c, guest));
    let mine = lib.lookup_checkouts_by_guest(guest);
    assert_eq!(mine.len(), 2);
    assert_eq!(mine[0].0, a);
    assert_eq!(mine[1].0, c);
    let theirs = lib.lookup_checkouts_by_guest(other);
    assert_eq!(theirs.len(), 1);
    assert_eq!(theirs[0].0, b);
    assert_eq!(lib.lookup_checkouts_by_guest(7).len(), 0);
}

#[test]
fn with_collection_seeds_books_under_the_operator() {
    let books = vec![
        sample_book("one", "x", "d", "c"),
        sample_book("two", "y", "d", "c"),
    ];
    let lib = Library::with_collection(books);
    assert!(!lib.is_empty());
    let r = lib.search("");
    assert_eq!(r.len(), 2);
    for entry in &r {
        assert_eq!(entry.2, Metadata::new(Library::OPERATOR));
    }
}

#[test]
fn checkin_by_the_wrong_guest_is_a_mismatch() {
    let mut lib = Library::new();
    let id = lib.add(sample_book("foo", "a", "d", "c"), 1);
    assert_eq!(Ok(()), lib.checkout(id, 1));
    assert_eq!(Err(UpdateEntryError::GuestMismatch), lib.checkin(id, 2));
    // the book is still held by guest 1
    assert_eq!(
        Err(UpdateEntryError::AlreadyCheckedOut(1)),
        lib.checkout(id, 2)
    );
    assert_eq!(Ok(()), lib.checkin(id, 1));
}

#[test]
fn exact_author_query_is_included() {
    let mut lib = Library::new();
    let guest = Library::OPERATOR;
    let id = lib.add(sample_book("foo", "cat 1", "bar", "baz"), guest);
    let r = lib.search("cat 1");
    assert_eq!(r.len(), 1);
    assert_eq!(r[0].1, id);
    // the author field matches itself exactly, so the score is one
    assert_eq!(r[0].0.num as f64 / r[0].0.den as f64, 1.0);
}

#[test]
fn results_sort_by_descending_score() {
    let mut lib = Library::new();
    let guest = Library::OPERATOR;
    // "foo" accounts for all of the first title, but for an even larger
    // share of the second field's length when repeated, so the second
    // book's containment density is five thirds
    let a = lib.add(sample_book("foo", "a", "d", "c"), guest);
    let b = lib.add(sample_book("xfooy", "b", "d", "c"), guest);
    let r = lib.search("foo");
    assert_eq!(r.len(), 2);
    assert_eq!(r[0].1, b);
    assert_eq!(r[0].0.num, 5);
    assert_eq!(r[0].0.den, 3);
    assert_eq!(r[1].1, a);
    assert_eq!(r[1].0.num as f64 / r[1].0.den as f64, 1.0);
}
