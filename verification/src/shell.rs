//! The session protocol's verified pieces: top-level command parsing, the
//! rank-selection rule, and the listing and cover-page text.

use vstd::prelude::*;
use vstd::string::*;
use crate::library::{Library, BookID, Metadata, Addr};
use crate::score::Score;
use crate::text::{occ_count, count_occurrences, str_eq, parse_usize, parse_usize_spec,
    ParseError, dec_chars, fmt_usize, fmt_u64, split_lines, split_lines_spec};

verus! {

/// Whether the session goes on after a command.
pub enum Passback {
    Continue,
    Quit,
}

/// One top-level session command.
#[derive(Clone, Copy, Debug, PartialEq, Eq)]
pub enum Command {
    Nop,
    Help,
    Quit,
    Search,
    CheckOut,
    CheckIn,
    Read,
    Add,
    Meow,
}

/// The short form of each command.
pub open spec fn short_spec(c: Command) -> Seq<char> {
    match c {
        Command::Nop => ""@,
        Command::Help => "h"@,
        Command::Quit => "q"@,
        Command::Search => "s"@,
        Command::CheckOut => "co"@,
        Command::CheckIn => "ci"@,
        Command::Read => "r"@,
        Command::Add => "a"@,
        Command::Meow => "meow"@,
    }
}

/// The long form of each command.
pub open spec fn long_spec(c: Command) -> Seq<char> {
    match c {
        Command::Nop => ""@,
        Command::Help => "help"@,
        Command::Quit => "quit"@,
        Command::Search => "search"@,
        Command::CheckOut => "checkout"@,
        Command::CheckIn => "checkin"@,
        Command::Read => "read"@,
        Command::Add => "add"@,
        Command::Meow => "meow"@,
    }
}

/// What one trimmed input line means: anything containing the easter-egg
/// word is its own command, the empty line is a no-op, and otherwise the
/// short and long forms are matched exactly.
pub open spec fn from_str_spec(s: Seq<char>) -> Option<Command> {
    if occ_count(s, "meow"@) > 0 {
        Some(Command::Meow)
    } else if s.len() == 0 {
        Some(Command::Nop)
    } else if s == "h"@ || s == "help"@ {
        Some(Command::Help)
    } else if s == "q"@ || s == "quit"@ {
        Some(Command::Quit)
    } else if s == "s"@ || s == "search"@ {
        Some(Command::Search)
    } else if s == "co"@ || s == "checkout"@ {
        Some(Command::CheckOut)
    } else if s == "ci"@ || s == "checkin"@ {
        Some(Command::CheckIn)
    } else if s == "r"@ || s == "read"@ {
        Some(Command::Read)
    } else if s == "a"@ || s == "add"@ {
        Some(Command::Add)
    } else {
        None
    }
}

impl Command {
    /// The commands listed by the help text, in listing order.
    pub fn all() -> (r: Vec<Command>)
        ensures
            r@ =~= seq![
                Command::Help,
                Command::Quit,
                Command::Search,
                Command::CheckOut,
                Command::CheckIn,
                Command::Read,
                Command::Add,
            ],
    {
        let mut v: Vec<Command> = Vec::new();
        v.push(Command::Help);
        v.push(Command::Quit);
        v.push(Command::Search);
        v.push(Command::CheckOut);
        v.push(Command::CheckIn);
        v.push(Command::Read);
        v.push(Command::Add);
        v
    }

    /// The command's short form.
    pub fn short(self) -> (r: &'static str)
        ensures
            r@ == short_spec(self),
    {
        match self {
            Command::Nop => "",
            Command::Help => "h",
            Command::Quit => "q",
            Command::Search => "s",
            Command::CheckOut => "co",
            Command::CheckIn => "ci",
            Command::Read => "r",
            Command::Add => "a",
            Command::Meow => "meow",
        }
    }

    /// The command's long form.
    pub fn long(self) -> (r: &'static str)
        ensures
            r@ == long_spec(self),
    {
        match self {
            Command::Nop => "",
            Command::Help => "help",
            Command::Quit => "quit",
            Command::Search => "search",
            Command::CheckOut => "checkout",
            Command::CheckIn => "checkin",
            Command::Read => "read",
            Command::Add => "add",
            Command::Meow => "meow",
        }
    }

    /// Parses one trimmed input line into a session command.
    pub fn from_str(s: &str) -> (r: Option<Command>)
        ensures
            r == from_str_spec(s@),
    {
        let meows = count_occurrences(s, "meow");
        if meows > 0 {
            return Some(Command::Meow);
        }
        if s.is_empty() {
            return Some(Command::Nop);
        }
        if str_eq(s, "h") || str_eq(s, "help") {
            Some(Command::Help)
        } else if str_eq(s, "q") || str_eq(s, "quit") {
            Some(Command::Quit)
        } else if str_eq(s, "s") || str_eq(s, "search") {
            Some(Command::Search)
        } else if str_eq(s, "co") || str_eq(s, "checkout") {
            Some(Command::CheckOut)
        } else if str_eq(s, "ci") || str_eq(s, "checkin") {
            Some(Command::CheckIn)
        } else if str_eq(s, "r") || str_eq(s, "read") {
            Some(Command::Read)
        } else if str_eq(s, "a") || str_eq(s, "add") {
            Some(Command::Add)
        } else {
            None
        }
    }
}

/// The outcome of the rank-selection rule.
#[derive(Clone, Copy, Debug, PartialEq, Eq)]
pub enum RankChoice {
    Chosen(usize),
    Cancel,
    TooSmall,
    TooLarge,
    Malformed,
}

/// What a selection line yields against a list of `num_items` entries: a
/// one-based rank in range picks the entry, the empty line cancels
/// silently, a rank below one or above the count (an overflowing number
/// counts as too large) is named as such, and anything else is malformed.
/// A failed selection never re-prompts; it ends the surrounding command.
pub open spec fn choose_rank_spec(s: Seq<char>, num_items: int) -> RankChoice {
    match parse_usize_spec(s) {
        Ok(rank) => if rank < 1 {
            RankChoice::TooSmall
        } else if rank > num_items {
            RankChoice::TooLarge
        } else {
            RankChoice::Chosen((rank - 1) as usize)
        },
        Err(ParseError::Empty) => RankChoice::Cancel,
        Err(ParseError::PosOverflow) => RankChoice::TooLarge,
        Err(ParseError::InvalidDigit) => RankChoice::Malformed,
    }
}

/// Decides a rank selection from one input line.
pub fn choose_rank(input: &str, num_items: usize) -> (r: RankChoice)
    ensures
        r == choose_rank_spec(input@, num_items as int),
{
    match parse_usize(input) {
        Ok(rank) => {
            if rank < 1 {
                RankChoice::TooSmall
            } else if rank > num_items {
                RankChoice::TooLarge
            } else {
                RankChoice::Chosen(rank - 1)
            }
        },
        Err(ParseError::Empty) => RankChoice::Cancel,
        Err(ParseError::PosOverflow) => RankChoice::TooLarge,
        Err(ParseError::InvalidDigit) => RankChoice::Malformed,
    }
}

/// One line of a numbered listing: the rank, the availability tag, and the
/// book's title and author.
pub open spec fn entry_line_spec(rank: int, free: bool, title: Seq<char>, author: Seq<char>)
    -> Seq<char> {
    dec_chars(rank as nat) + ". "@ + (if free {
        "[in] "@
    } else {
        "[out]"@
    }) + " '"@ + title + "', by "@ + author + ".\n"@
}

/// Renders the numbered listing of search or checkout entries, one line
/// per entry, tagged with each entry's availability at listing time.
pub fn enumerate_entries(library: &Library, entries: &Vec<(Score, BookID, Metadata)>) -> (r: Vec<
    String,
>)
    requires
        library.wf(),
        forall|k: int|
            0 <= k < entries@.len() ==> 0 <= (#[trigger] entries@[k]).1.idx()
                < library.spec_books().len(),
    ensures
        r@.len() == entries@.len(),
        forall|k: int|
            0 <= k < entries@.len() ==> (#[trigger] r@[k])@ == entry_line_spec(
                k + 1,
                entries@[k].2.checked_out_by is None,
                library.spec_books()[entries@[k].1.idx()].title@,
                library.spec_books()[entries@[k].1.idx()].author@,
            ),
{
    let mut out: Vec<String> = Vec::new();
    let mut k: usize = 0;
    while k < entries.len()
        invariant
            k <= entries@.len(),
            library.wf(),
            forall|j: int|
                0 <= j < entries@.len() ==> 0 <= (#[trigger] entries@[j]).1.idx()
                    < library.spec_books().len(),
            out@.len() == k,
            forall|j: int|
                0 <= j < k ==> (#[trigger] out@[j])@ == entry_line_spec(
                    j + 1,
                    entries@[j].2.checked_out_by is None,
                    library.spec_books()[entries@[j].1.idx()].title@,
                    library.spec_books()[entries@[j].1.idx()].author@,
                ),
        decreases entries@.len() - k,
    {
        let entry = &entries[k];
        let book = library.lookup_book_by_id(entry.1);
        let mut line = fmt_usize(k + 1);
        line.append(". ");
        if entry.2.is_free() {
            line.append("[in] ");
        } else {
            line.append("[out]");
        }
        line.append(" '");
        line.append(book.title.as_str());
        line.append("', by ");
        line.append(book.author.as_str());
        line.append(".\n");
        proof {
            assert(line@ =~= entry_line_spec(
                k + 1,
                entries@[k as int].2.checked_out_by is None,
                library.spec_books()[entries@[k as int].1.idx()].title@,
                library.spec_books()[entries@[k as int].1.idx()].author@,
            ));
        }
        out.push(line);
        k += 1;
    }
    out
}

/// The nickname the directory binds to an address, if any.
pub open spec fn nick_of(lib: Library, addr: Addr) -> Option<Seq<char>> {
    if exists|i: int|
        0 <= i < lib.guest_pairs().len() && (#[trigger] lib.guest_pairs()[i]).0 == addr {
        Some(
            (lib.guest_pairs()[choose|i: int|
                0 <= i < lib.guest_pairs().len() && (#[trigger] lib.guest_pairs()[i]).0 == addr]).1,
        )
    } else {
        None
    }
}

/// Each description line, tabbed and newline-terminated.
pub open spec fn tabbed_lines(lines: Seq<Seq<char>>) -> Seq<char>
    decreases lines.len(),
{
    if lines.len() == 0 {
        Seq::empty()
    } else {
        "\t"@ + lines[0] + "\n"@ + tabbed_lines(lines.drop_first())
    }
}

/// The cover page shown before reading a book: title, author, the
/// description when there is one, the checkout total, and the contributor
/// when the directory still resolves them.
pub open spec fn cover_text_spec(
    title: Seq<char>,
    author: Seq<char>,
    desc: Seq<char>,
    meta: Metadata,
    nick: Option<Seq<char>>,
) -> Seq<char> {
    "\n"@ + "\t'"@ + title + "'\n"@ + "\t\tby "@ + author + "\n"@ + (if desc.len() > 0 {
        "\n"@
    } else {
        Seq::empty()
    }) + tabbed_lines(split_lines_spec(desc)) + "\n"@ + "\t[Total "@ + dec_chars(
        meta.checkouts as nat,
    ) + " checkout"@ + (if meta.checkouts == 1 {
        Seq::empty()
    } else {
        "s"@
    }) + ".]\n"@ + (match nick {
        Some(n) => "\t[Added by guest '"@ + n + "'.]\n"@,
        None => Seq::empty(),
    }) + "\n"@
}

/// Renders a book's cover page.
pub fn cover_page(library: &Library, book: &crate::library::Book, meta: Metadata) -> (r: String)
    requires
        library.wf(),
    ensures
        r@ == cover_text_spec(
            book.title@,
            book.author@,
            book.description@,
            meta,
            nick_of(*library, meta.added_by),
        ),
{
    let mut out = String::new();
    out.append("\n");
    out.append("\t'");
    out.append(book.title.as_str());
    out.append("'\n");
    out.append("\t\tby ");
    out.append(book.author.as_str());
    out.append("\n");
    if book.description.as_str().unicode_len() > 0 {
        out.append("\n");
    }
    let desc_lines = split_lines(book.description.as_str());
    let ghost views = desc_lines@.map_values(|l: String| l@);
    let ghost head = out@;
    let mut i: usize = 0;
    proof {
        assert(views.skip(0) =~= views);
    }
    while i < desc_lines.len()
        invariant
            i <= desc_lines@.len(),
            views == desc_lines@.map_values(|l: String| l@),
            out@ + tabbed_lines(views.skip(i as int)) =~= head + tabbed_lines(views),
        decreases desc_lines@.len() - i,
    {
        out.append("\t");
        out.append(desc_lines[i].as_str());
        out.append("\n");
        proof {
            assert(views.skip(i as int)[0] == views[i as int]);
            assert(views.skip(i as int).drop_first() =~= views.skip(i + 1));
            assert(tabbed_lines(views.skip(i as int)) == "\t"@ + views[i as int] + "\n"@
                + tabbed_lines(views.skip(i + 1)));
            assert(out@ + tabbed_lines(views.skip(i + 1)) =~= head + tabbed_lines(views));
        }
        i += 1;
    }
    proof {
        assert(views.skip(i as int).len() == 0);
        assert(out@ =~= head + tabbed_lines(views));
    }
    out.append("\n");
    out.append("\t[Total ");
    let count_str = fmt_u64(meta.checkouts);
    out.append(count_str.as_str());
    out.append(" checkout");
    if meta.checkouts != 1 {
        out.append("s");
    }
    out.append(".]\n");
    let nick = library.lookup_guest_by_addr(meta.added_by);
    match nick {
        Some(n) => {
            proof {
                lemma_nick_of_lookup(*library, meta.added_by, n@);
            }
            out.append("\t[Added by guest '");
            out.append(n.as_str());
            out.append("'.]\n");
        },
        None => {
            proof {
                assert(nick_of(*library, meta.added_by) is None);
            }
        },
    }
    out.append("\n");
    proof {
        assert(out@ =~= cover_text_spec(
            book.title@,
            book.author@,
            book.description@,
            meta,
            nick_of(*library, meta.added_by),
        ));
    }
    out
}

/// A guest found by address carries the one nickname the directory binds
/// to that address.
proof fn lemma_nick_of_lookup(lib: Library, addr: Addr, n: Seq<char>)
    requires
        lib.wf(),
        exists|i: int|
            0 <= i < lib.guest_pairs().len() && #[trigger] lib.guest_pairs()[i] == (addr, n),
    ensures
        nick_of(lib, addr) == Some(n),
{
    let i = choose|i: int|
        0 <= i < lib.guest_pairs().len() && #[trigger] lib.guest_pairs()[i] == (addr, n);
    let j = choose|j: int|
        0 <= j < lib.guest_pairs().len() && (#[trigger] lib.guest_pairs()[j]).0 == addr;
    assert((lib.guest_pairs()[i]).0 == addr);
    if i != j {
        if i < j {
            assert((lib.guest_pairs()[i]).0 < (lib.guest_pairs()[j]).0);
        } else {
            assert((lib.guest_pairs()[j]).0 < (lib.guest_pairs()[i]).0);
        }
    }
}


/// The response to a failed rank selection, if the failure is spoken: the
/// bounds name the smallest and largest acceptable item number, a
/// malformed number reports the parse fault, and a cancellation says
/// nothing here.
pub open spec fn rank_message_spec(c: RankChoice, num_items: int) -> Option<Seq<char>> {
    match c {
        RankChoice::TooSmall => Some("item number must be at least 1.\n"@),
        RankChoice::TooLarge => Some(
            "item number must be at most "@ + dec_chars(num_items as nat) + ".\n"@,
        ),
        RankChoice::Malformed => Some("invalid digit found in string.\n"@),
        RankChoice::Chosen(_) => None,
        RankChoice::Cancel => None,
    }
}

/// Builds the response to a failed rank selection.
pub fn rank_error_message(c: RankChoice, num_items: usize) -> (r: Option<String>)
    ensures
        match r {
            Some(m) => rank_message_spec(c, num_items as int) == Some(m@),
            None => rank_message_spec(c, num_items as int) is None,
        },
{
    match c {
        RankChoice::TooSmall => Some(String::from_str("item number must be at least 1.\n")),
        RankChoice::TooLarge => {
            let mut m = String::from_str("item number must be at most ");
            let n = fmt_usize(num_items);
            m.append(n.as_str());
            m.append(".\n");
            proof {
                assert(m@ =~= "item number must be at most "@ + dec_chars(num_items as nat)
                    + ".\n"@);
            }
            Some(m)
        },
        RankChoice::Malformed => Some(String::from_str("invalid digit found in string.\n")),
        RankChoice::Chosen(_) => None,
        RankChoice::Cancel => None,
    }
}

} // verus!
