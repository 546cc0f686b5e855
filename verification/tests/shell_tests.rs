use cat_library::library::{Book, Library};
use cat_library::shell::{choose_rank, cover_page, enumerate_entries, rank_error_message, Command, RankChoice};

fn sample_book() -> Book {
    Book {
        title: "foo".to_string(),
        author: "cat 1".to_string(),
        description: "bar".to_string(),
        content: "baz".to_string(),
    }
}

#[test]
fn from_str_recognizes_short_and_long_forms() {
    assert_eq!(Command::from_str(""), Some(Command::Nop));
    assert_eq!(Command::from_str("h"), Some(Command::Help));
    assert_eq!(Command::from_str("help"), Some(Command::Help));
    assert_eq!(Command::from_str("q"), Some(Command::Quit));
    assert_eq!(Command::from_str("quit"), Some(Command::Quit));
    assert_eq!(Command::from_str("s"), Some(Command::Search));
    assert_eq!(Command::from_str("search"), Some(Command::Search));
    assert_eq!(Command::from_str("co"), Some(Command::CheckOut));
    assert_eq!(Command::from_str("checkout"), Some(Command::CheckOut));
    assert_eq!(Command::from_str("ci"), Some(Command::CheckIn));
    assert_eq!(Command::from_str("checkin"), Some(Command::CheckIn));
    assert_eq!(Command::from_str("r"), Some(Command::Read));
    assert_eq!(Command::from_str("read"), Some(Command::Read));
    assert_eq!(Command::from_str("a"), Some(Command::Add));
    assert_eq!(Command::from_str("add"), Some(Command::Add));
    assert_eq!(Command::from_str("frobnicate"), None);
}

#[test]
fn any_input_containing_meow_is_the_easter_egg() {
    assert_eq!(Command::from_str("meow"), Some(Command::Meow));
    assert_eq!(Command::from_str("xxmeowzz"), Some(Command::Meow));
    assert_eq!(Command::from_str("quit meow quit"), Some(Command::Meow));
}

#[test]
fn short_and_long_forms_match() {
    assert_eq!(Command::Help.short(), "h");
    assert_eq!(Command::Help.long(), "help");
    assert_eq!(Command::CheckOut.short(), "co");
    assert_eq!(Command::CheckOut.long(), "checkout");
    assert_eq!(Command::Meow.short(), "meow");
    assert_eq!(Command::Nop.long(), "");
    assert_eq!(Command::all().len(), 7);
}

#[test]
fn rank_selection_rule() {
    assert_eq!(choose_rank("3", 5), RankChoice::Chosen(2));
    assert_eq!(choose_rank("1", 5), RankChoice::Chosen(0));
    assert_eq!(choose_rank("5", 5), RankChoice::Chosen(4));
    assert_eq!(choose_rank("", 5), RankChoice::Cancel);
    assert_eq!(choose_rank("0", 5), RankChoice::TooSmall);
    assert_eq!(choose_rank("6", 5), RankChoice::TooLarge);
    assert_eq!(choose_rank("99999999999999999999999999", 5), RankChoice::TooLarge);
    assert_eq!(choose_rank("three", 5), RankChoice::Malformed);
    assert_eq!(choose_rank("1", 0), RankChoice::TooLarge);
}

#[test]
fn enumerate_entries_tags_availability() {
    let mut lib = Library::new();
    let guest = Library::OPERATOR;
    let id = lib.add(sample_book(), guest);
    let entries = lib.search("");
    let listing = enumerate_entries(&lib, &entries);
    assert_eq!(listing, vec!["1. [in]  'foo', by cat 1.\n".to_string()]);

    assert_eq!(Ok(()), lib.checkout(id, guest));
    let entries = lib.search("");
    let listing = enumerate_entries(&lib, &entries);
    assert_eq!(listing, vec!["1. [out] 'foo', by cat 1.\n".to_string()]);
}

#[test]
fn cover_page_text() {
    let mut lib = Library::new();
    let guest = Library::OPERATOR;
    let id = lib.add(sample_book(), guest);
    assert_eq!(Ok(()), lib.checkout(id, guest));
    assert_eq!(Ok(()), lib.checkin(id, guest));
    assert_eq!(Ok(()), lib.checkout(id, guest));
    let meta = lib.lookup_metadata(id);
    let book = sample_book();
    let text = cover_page(&lib, &book, meta);
    assert_eq!(
        text,
        "\n\t'foo'\n\t\tby cat 1\n\n\tbar\n\n\t[Total 2 checkouts.]\n\t[Added by guest 'cat in the machine'.]\n\n"
    );
}

#[test]
fn cover_page_singular_checkout_and_unknown_guest() {
    let mut lib = Library::new();
    let stranger: u128 = 31337;
    let id = lib.add(sample_book(), stranger);
    assert_eq!(Ok(()), lib.checkout(id, stranger));
    let meta = lib.lookup_metadata(id);
    let book = sample_book();
    let text = cover_page(&lib, &book, meta);
    assert_eq!(text, "\n\t'foo'\n\t\tby cat 1\n\n\tbar\n\n\t[Total 1 checkout.]\n\n");
}

#[test]
fn rank_error_messages() {
    assert_eq!(
        rank_error_message(RankChoice::TooSmall, 5),
        Some("item number must be at least 1.\n".to_string())
    );
    assert_eq!(
        rank_error_message(RankChoice::TooLarge, 5),
        Some("item number must be at most 5.\n".to_string())
    );
    assert_eq!(
        rank_error_message(RankChoice::Malformed, 5),
        Some("invalid digit found in string.\n".to_string())
    );
    assert_eq!(rank_error_message(RankChoice::Cancel, 5), None);
    assert_eq!(rank_error_message(RankChoice::Chosen(2), 5), None);
}
