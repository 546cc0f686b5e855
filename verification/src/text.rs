//! Character-level text utilities: lexicographic ordering of strings,
//! string equality, decimal formatting, integer parsing, substring
//! occurrence counting, and the line splitting/joining used for book content.

use vstd::prelude::*;
use vstd::string::*;

verus! {

/// Three-way comparison outcome.
#[derive(Clone, Copy, Debug, PartialEq, Eq)]
pub enum Cmp {
    Lt,
    Eq,
    Gt,
}

/// Strict lexicographic order on character sequences, by code point.
pub open spec fn lex_lt(a: Seq<char>, b: Seq<char>) -> bool
    decreases a.len(),
{
    if b.len() == 0 {
        false
    } else if a.len() == 0 {
        true
    } else if (a[0] as u32) < (b[0] as u32) {
        true
    } else if a[0] == b[0] {
        lex_lt(a.drop_first(), b.drop_first())
    } else {
        false
    }
}

/// Of two distinct strings, one is lexicographically below the other.
pub proof fn lemma_lex_trichotomy(a: Seq<char>, b: Seq<char>)
    ensures
        a == b || lex_lt(a, b) || lex_lt(b, a),
        lex_lt(a, b) ==> a != b,
        lex_lt(a, b) ==> !lex_lt(b, a),
    decreases a.len(),
{
    if a.len() == 0 || b.len() == 0 {
        if a.len() != 0 || b.len() != 0 {
        } else {
            assert(a =~= b);
        }
    } else {
        lemma_lex_trichotomy(a.drop_first(), b.drop_first());
        if (a[0] as u32) == (b[0] as u32) {
            assert(a[0] == b[0]) by {
                vstd::utf8::char_u32_cast(a[0], a[0] as u32);
                vstd::utf8::char_u32_cast(b[0], b[0] as u32);
            }
            if a.drop_first() == b.drop_first() {
                assert forall|i: int| 0 <= i < a.len() implies a[i] == b[i] by {
                    if i > 0 {
                        assert(a.drop_first()[i - 1] == b.drop_first()[i - 1]);
                    }
                }
                assert(a =~= b);
            }
        }
    }
}

/// Lexicographic order is transitive.
pub proof fn lemma_lex_transitive(a: Seq<char>, b: Seq<char>, c: Seq<char>)
    requires
        lex_lt(a, b),
        lex_lt(b, c),
    ensures
        lex_lt(a, c),
    decreases a.len(),
{
    if a.len() == 0 || b.len() == 0 || c.len() == 0 {
    } else {
        if a[0] == b[0] && b[0] == c[0] {
            lemma_lex_transitive(a.drop_first(), b.drop_first(), c.drop_first());
        }
    }
}

/// Whether two strings hold the same characters.
pub fn str_eq(a: &str, b: &str) -> (r: bool)
    ensures
        r == (a@ == b@),
{
    let a_len = a.unicode_len();
    let b_len = b.unicode_len();
    if a_len != b_len {
        assert(a@ != b@);
        return false;
    }
    let mut i: usize = 0;
    while i < a_len
        invariant
            i <= a_len,
            a_len == a@.len(),
            a_len == b@.len(),
            forall|j: int| 0 <= j < i ==> a@[j] == b@[j],
        decreases a_len - i,
    {
        if a.get_char(i) != b.get_char(i) {
            assert(a@ != b@);
            return false;
        }
        i += 1;
    }
    assert(a@ =~= b@);
    true
}

/// Three-way lexicographic comparison of two strings.
pub fn str_compare(a: &str, b: &str) -> (r: Cmp)
    ensures
        r == Cmp::Lt <==> lex_lt(a@, b@),
        r == Cmp::Eq <==> a@ == b@,
        r == Cmp::Gt <==> lex_lt(b@, a@),
{
    proof {
        lemma_lex_trichotomy(a@, b@);
        assert(a@.skip(0) =~= a@);
        assert(b@.skip(0) =~= b@);
    }
    let a_len = a.unicode_len();
    let b_len = b.unicode_len();
    let mut i: usize = 0;
    loop
        invariant
            i <= a_len,
            i <= b_len,
            a_len == a@.len(),
            b_len == b@.len(),
            forall|j: int| 0 <= j < i ==> a@[j] == b@[j],
            lex_lt(a@, b@) == lex_lt(a@.skip(i as int), b@.skip(i as int)),
            lex_lt(b@, a@) == lex_lt(b@.skip(i as int), a@.skip(i as int)),
            (a@ == b@) == (a@.skip(i as int) == b@.skip(i as int)),
        decreases a_len - i,
    {
        proof {
            lemma_lex_trichotomy(a@.skip(i as int), b@.skip(i as int));
        }
        if i >= a_len || i >= b_len {
            if a_len == b_len {
                assert(a@.skip(i as int) =~= b@.skip(i as int));
                return Cmp::Eq;
            } else if i >= a_len {
                assert(lex_lt(a@.skip(i as int), b@.skip(i as int)));
                return Cmp::Lt;
            } else {
                assert(lex_lt(b@.skip(i as int), a@.skip(i as int)));
                return Cmp::Gt;
            }
        }
        let ca = a.get_char(i);
        let cb = b.get_char(i);
        if (ca as u32) < (cb as u32) {
            assert(lex_lt(a@.skip(i as int), b@.skip(i as int)));
            return Cmp::Lt;
        } else if (cb as u32) < (ca as u32) {
            assert(lex_lt(b@.skip(i as int), a@.skip(i as int)));
            return Cmp::Gt;
        }
        assert(ca == cb) by {
            vstd::utf8::char_u32_cast(ca, ca as u32);
            vstd::utf8::char_u32_cast(cb, cb as u32);
        }
        proof {
            assert(a@.skip(i as int).drop_first() =~= a@.skip(i + 1));
            assert(b@.skip(i as int).drop_first() =~= b@.skip(i + 1));
            assert(a@.skip(i as int)[0] == a@[i as int]);
            assert(b@.skip(i as int)[0] == b@[i as int]);
        }
        i += 1;
    }
}

/// Whether a character is a decimal digit.
pub open spec fn is_digit_char(c: char) -> bool {
    48 <= c as u32 && c as u32 <= 57
}

/// The numeric value of a decimal digit character.
pub open spec fn digit_val(c: char) -> nat {
    (c as u32 - 48) as nat
}

/// The decimal digit character for a value below ten.
pub open spec fn digit_char(d: nat) -> char {
    ((d + 48) as u32) as char
}

/// The decimal representation of a number, most significant digit first.
pub open spec fn dec_chars(n: nat) -> Seq<char>
    decreases n,
{
    if n < 10 {
        seq![digit_char(n)]
    } else {
        dec_chars(n / 10).push(digit_char(n % 10))
    }
}

/// How many characters the decimal representation of `n` takes.
pub open spec fn digit_count(n: nat) -> nat {
    dec_chars(n).len()
}

/// A one-character string for a decimal digit.
pub fn digit_str(d: usize) -> (r: &'static str)
    requires
        d < 10,
    ensures
        r@ =~= seq![digit_char(d as nat)],
{
    proof {
        vstd::utf8::char_u32_cast('0', 48);
        vstd::utf8::char_u32_cast('1', 49);
        vstd::utf8::char_u32_cast('2', 50);
        vstd::utf8::char_u32_cast('3', 51);
        vstd::utf8::char_u32_cast('4', 52);
        vstd::utf8::char_u32_cast('5', 53);
        vstd::utf8::char_u32_cast('6', 54);
        vstd::utf8::char_u32_cast('7', 55);
        vstd::utf8::char_u32_cast('8', 56);
        vstd::utf8::char_u32_cast('9', 57);
        reveal_strlit("0");
        reveal_strlit("1");
        reveal_strlit("2");
        reveal_strlit("3");
        reveal_strlit("4");
        reveal_strlit("5");
        reveal_strlit("6");
        reveal_strlit("7");
        reveal_strlit("8");
        reveal_strlit("9");
    }
    if d == 0 {
        "0"
    } else if d == 1 {
        "1"
    } else if d == 2 {
        "2"
    } else if d == 3 {
        "3"
    } else if d == 4 {
        "4"
    } else if d == 5 {
        "5"
    } else if d == 6 {
        "6"
    } else if d == 7 {
        "7"
    } else if d == 8 {
        "8"
    } else {
        "9"
    }
}

/// Formats a number in decimal.
pub fn fmt_usize(n: usize) -> (r: String)
    ensures
        r@ =~= dec_chars(n as nat),
    decreases n,
{
    if n < 10 {
        let r = String::from_str(digit_str(n));
        r
    } else {
        let mut r = fmt_usize(n / 10);
        r.append(digit_str(n % 10));
        proof {
            assert(r@ =~= dec_chars((n / 10) as nat).push(digit_char((n % 10) as nat)));
        }
        r
    }
}

/// Formats a 64-bit number in decimal.
pub fn fmt_u64(n: u64) -> (r: String)
    ensures
        r@ =~= dec_chars(n as nat),
    decreases n,
{
    if n < 10 {
        let r = String::from_str(digit_str(n as usize));
        r
    } else {
        let mut r = fmt_u64(n / 10);
        r.append(digit_str((n % 10) as usize));
        proof {
            assert(r@ =~= dec_chars((n / 10) as nat).push(digit_char((n % 10) as nat)));
        }
        r
    }
}

/// A run of space characters.
pub open spec fn spaces_spec(n: nat) -> Seq<char> {
    Seq::new(n, |i: int| ' ')
}

/// Builds a string of `n` spaces.
pub fn spaces(n: usize) -> (r: String)
    ensures
        r@ =~= spaces_spec(n as nat),
{
    let mut r = String::new();
    let mut i: usize = 0;
    proof {
        reveal_strlit(" ");
    }
    while i < n
        invariant
            i <= n,
            r@ =~= spaces_spec(i as nat),
        decreases n - i,
    {
        r.append(" ");
        i += 1;
        proof {
            reveal_strlit(" ");
            assert(r@ =~= spaces_spec(i as nat));
        }
    }
    r
}

/// Why a numeric line failed to parse, mirroring the distinctions the
/// standard unsigned parser draws.
#[derive(Clone, Copy, Debug, PartialEq, Eq)]
pub enum ParseError {
    Empty,
    InvalidDigit,
    PosOverflow,
}

/// Scans decimal digits left to right, accumulating the value, stopping at
/// the first non-digit or at the first overflow past `usize::MAX`.
pub open spec fn scan_digits(s: Seq<char>, acc: usize) -> Result<usize, ParseError>
    decreases s.len(),
{
    if s.len() == 0 {
        Ok(acc)
    } else if !is_digit_char(s[0]) {
        Err(ParseError::InvalidDigit)
    } else if acc * 10 + digit_val(s[0]) > usize::MAX {
        Err(ParseError::PosOverflow)
    } else {
        scan_digits(s.drop_first(), (acc * 10 + digit_val(s[0])) as usize)
    }
}

/// What parsing a whole line as a `usize` yields: an optional leading `+`,
/// then digits; the empty line is its own error case.
pub open spec fn parse_usize_spec(s: Seq<char>) -> Result<usize, ParseError> {
    if s.len() == 0 {
        Err(ParseError::Empty)
    } else {
        let t = if s[0] == '+' {
            s.drop_first()
        } else {
            s
        };
        if t.len() == 0 {
            Err(ParseError::InvalidDigit)
        } else {
            scan_digits(t, 0)
        }
    }
}

/// Parses a line as an unsigned number, as the standard parser would.
pub fn parse_usize(s: &str) -> (r: Result<usize, ParseError>)
    ensures
        r == parse_usize_spec(s@),
{
    let len = s.unicode_len();
    if len == 0 {
        return Err(ParseError::Empty);
    }
    let first = s.get_char(0);
    let start: usize = if first == '+' {
        1
    } else {
        0
    };
    if len == start {
        return Err(ParseError::InvalidDigit);
    }
    let ghost t: Seq<char> = if s@[0] == '+' {
        s@.drop_first()
    } else {
        s@
    };
    let mut acc: usize = 0;
    let mut i: usize = start;
    proof {
        assert(t.skip(0) =~= t);
    }
    loop
        invariant
            start <= i <= len,
            len == s@.len(),
            start == if s@[0] == '+' { 1int } else { 0int },
            t == if s@[0] == '+' { s@.drop_first() } else { s@ },
            parse_usize_spec(s@) == scan_digits(t.skip(i - start), acc),
        decreases len - i,
    {
        if i == len {
            proof {
                assert(t.skip(i - start).len() == 0);
            }
            return Ok(acc);
        }
        let c = s.get_char(i);
        proof {
            assert(t.skip(i - start)[0] == s@[i as int]);
        }
        if !((c as u32) >= 48 && (c as u32) <= 57) {
            return Err(ParseError::InvalidDigit);
        }
        let d = ((c as u32) - 48) as usize;
        let step = match acc.checked_mul(10) {
            Some(m) => m.checked_add(d),
            None => None,
        };
        match step {
            None => {
                return Err(ParseError::PosOverflow);
            },
            Some(next) => {
                proof {
                    assert(t.skip(i - start).drop_first() =~= t.skip(i + 1 - start));
                }
                acc = next;
                i += 1;
            },
        }
    }
}

/// How many non-overlapping occurrences of `needle` a greedy left-to-right
/// scan finds in `hay`; zero when `needle` is empty.
pub open spec fn occ_count(hay: Seq<char>, needle: Seq<char>) -> nat
    decreases hay.len(),
{
    if needle.len() == 0 || hay.len() < needle.len() {
        0
    } else if hay.take(needle.len() as int) == needle {
        1 + occ_count(hay.skip(needle.len() as int), needle)
    } else {
        occ_count(hay.skip(1), needle)
    }
}

/// The occurrences of a pattern jointly cover no more than the whole text.
pub proof fn lemma_occ_bound(hay: Seq<char>, needle: Seq<char>)
    requires
        needle.len() >= 1,
    ensures
        (occ_count(hay, needle) as int) * (needle.len() as int) <= hay.len() as int,
    decreases hay.len(),
{
    let m = needle.len() as int;
    if hay.len() < needle.len() {
        assert((occ_count(hay, needle) as int) * m == 0) by (nonlinear_arith)
            requires
                occ_count(hay, needle) == 0,
        ;
    } else if hay.take(needle.len() as int) == needle {
        let sub = occ_count(hay.skip(needle.len() as int), needle) as int;
        assert(occ_count(hay, needle) as int == sub + 1);
        lemma_occ_bound(hay.skip(needle.len() as int), needle);
        assert(sub * m <= hay.len() - m);
        assert((sub + 1) * m == sub * m + m) by (nonlinear_arith);
    } else {
        lemma_occ_bound(hay.skip(1), needle);
    }
}

/// Whether `needle` sits at position `i` of `hay`.
fn matches_at(hay: &str, hay_len: usize, i: usize, needle: &str, m: usize) -> (r: bool)
    requires
        hay_len == hay@.len(),
        m == needle@.len(),
        i + m <= hay_len,
    ensures
        r == (hay@.subrange(i as int, i + m) == needle@),
{
    let mut k: usize = 0;
    while k < m
        invariant
            k <= m,
            hay_len == hay@.len(),
            m == needle@.len(),
            i + m <= hay_len,
            forall|j: int| 0 <= j < k ==> hay@[i + j] == needle@[j],
        decreases m - k,
    {
        let a = hay.get_char(i + k);
        let b = needle.get_char(k);
        if (a as u32) != (b as u32) {
            proof {
                assert(hay@.subrange(i as int, i + m)[k as int] == hay@[i + k]);
            }
            return false;
        }
        proof {
            vstd::utf8::char_u32_cast(a, a as u32);
            vstd::utf8::char_u32_cast(b, b as u32);
        }
        k += 1;
    }
    proof {
        assert(hay@.subrange(i as int, i + m) =~= needle@);
    }
    true
}

/// Counts the non-overlapping occurrences of `needle` in `hay`, scanning
/// greedily from the left.
pub fn count_occurrences(hay: &str, needle: &str) -> (r: usize)
    ensures
        r == occ_count(hay@, needle@),
{
    let m = needle.unicode_len();
    let hay_len = hay.unicode_len();
    if m == 0 {
        return 0;
    }
    let mut count: usize = 0;
    let mut i: usize = 0;
    proof {
        assert(hay@.skip(0) =~= hay@);
    }
    loop
        invariant
            i <= hay_len,
            count <= i,
            1 <= m == needle@.len(),
            hay_len == hay@.len(),
            occ_count(hay@, needle@) == count + occ_count(hay@.skip(i as int), needle@),
        decreases hay_len - i,
    {
        if hay_len - i < m {
            proof {
                assert(occ_count(hay@.skip(i as int), needle@) == 0);
            }
            return count;
        }
        if matches_at(hay, hay_len, i, needle, m) {
            proof {
                assert(hay@.skip(i as int).take(m as int) =~= hay@.subrange(i as int, i + m));
                assert(hay@.skip(i as int).skip(m as int) =~= hay@.skip(i + m));
            }
            count += 1;
            i += m;
        } else {
            proof {
                assert(hay@.skip(i as int).take(m as int) =~= hay@.subrange(i as int, i + m));
                assert(hay@.skip(i as int).skip(1) =~= hay@.skip(i + 1));
            }
            i += 1;
        }
    }
}

/// Drops a final carriage return, as the standard line iterator does for
/// lines terminated by a newline.
pub open spec fn strip_cr(l: Seq<char>) -> Seq<char> {
    if l.len() > 0 && l.last() == '\r' {
        l.drop_last()
    } else {
        l
    }
}

/// Splits text into lines, carrying the unfinished current line: a newline
/// ends the current line (with its carriage return stripped), and a nonempty
/// final line without a newline is kept as it stands.
pub open spec fn split_acc(s: Seq<char>, cur: Seq<char>) -> Seq<Seq<char>>
    decreases s.len(),
{
    if s.len() == 0 {
        if cur.len() == 0 {
            Seq::empty()
        } else {
            seq![cur]
        }
    } else if s[0] == '\n' {
        seq![strip_cr(cur)] + split_acc(s.drop_first(), Seq::empty())
    } else {
        split_acc(s.drop_first(), cur.push(s[0]))
    }
}

/// The lines of a text, as the standard line iterator yields them.
pub open spec fn split_lines_spec(s: Seq<char>) -> Seq<Seq<char>> {
    split_acc(s, Seq::empty())
}

/// The text that a sequence of lines makes, each line followed by a newline.
pub open spec fn join_lines_spec(lines: Seq<Seq<char>>) -> Seq<char>
    decreases lines.len(),
{
    if lines.len() == 0 {
        Seq::empty()
    } else {
        lines[0] + seq!['\n'] + join_lines_spec(lines.drop_first())
    }
}

proof fn lemma_split_acc_step(l: Seq<char>, rest: Seq<char>, cur: Seq<char>)
    requires
        !l.contains('\n'),
    ensures
        split_acc(l + seq!['\n'] + rest, cur) =~= seq![strip_cr(cur + l)] + split_acc(
            rest,
            Seq::empty(),
        ),
    decreases l.len(),
{
    let s = l + seq!['\n'] + rest;
    if l.len() == 0 {
        assert(s[0] == '\n');
        assert(s.drop_first() =~= rest);
        assert(cur + l =~= cur);
    } else {
        assert(s[0] == l[0]);
        assert(l.contains('\n') <== l[0] == '\n');
        assert(s[0] != '\n');
        assert(!l.drop_first().contains('\n')) by {
            assert(forall|i: int|
                0 <= i < l.drop_first().len() ==> l.drop_first()[i] == l[i + 1]);
        }
        lemma_split_acc_step(l.drop_first(), rest, cur.push(l[0]));
        assert(s.drop_first() =~= l.drop_first() + seq!['\n'] + rest);
        assert(cur.push(l[0]) + l.drop_first() =~= cur + l);
    }
}

/// Joining lines with newlines and splitting the result again returns the
/// same lines, provided no line holds a newline and no line ends with a
/// carriage return.
pub proof fn lemma_join_split_roundtrip(lines: Seq<Seq<char>>)
    requires
        forall|i: int| 0 <= i < lines.len() ==> !(#[trigger] lines[i]).contains('\n'),
        forall|i: int|
            0 <= i < lines.len() ==> ((#[trigger] lines[i]).len() > 0 ==> lines[i].last() != '\r'),
    ensures
        split_lines_spec(join_lines_spec(lines)) =~= lines,
    decreases lines.len(),
{
    if lines.len() == 0 {
    } else {
        let l = lines[0];
        let rest = join_lines_spec(lines.drop_first());
        assert(join_lines_spec(lines) == l + seq!['\n'] + rest);
        lemma_split_acc_step(l, rest, Seq::empty());
        assert(Seq::<char>::empty() + l =~= l);
        assert(strip_cr(l) =~= l);
        lemma_join_split_roundtrip(lines.drop_first());
        assert(split_lines_spec(join_lines_spec(lines)) =~= seq![l] + lines.drop_first());
        assert(seq![l] + lines.drop_first() =~= lines);
    }
}

/// Splits book content into its lines, as the standard line iterator would.
pub fn split_lines(s: &str) -> (r: Vec<String>)
    ensures
        r@.map_values(|l: String| l@) =~= split_lines_spec(s@),
{
    let len = s.unicode_len();
    let mut out: Vec<String> = Vec::new();
    let mut start: usize = 0;
    let mut i: usize = 0;
    proof {
        assert(s@.skip(0) =~= s@);
        assert(s@.subrange(0, 0) =~= Seq::<char>::empty());
    }
    loop
        invariant
            start <= i <= len,
            len == s@.len(),
            split_lines_spec(s@) =~= out@.map_values(|l: String| l@) + split_acc(
                s@.skip(i as int),
                s@.subrange(start as int, i as int),
            ),
        decreases len - i,
    {
        let ghost cur = s@.subrange(start as int, i as int);
        if i == len {
            proof {
                assert(s@.skip(i as int).len() == 0);
            }
            if start < i {
                let piece = s.substring_char(start, i);
                let owned = String::from_str(piece);
                proof {
                    assert(out@.push(owned).map_values(|l: String| l@) =~= out@.map_values(
                        |l: String| l@,
                    ).push(owned@));
                }
                out.push(owned);
            }
            return out;
        }
        let c = s.get_char(i);
        if c == '\n' {
            let end: usize = if i > start && s.get_char(i - 1) == '\r' {
                i - 1
            } else {
                i
            };
            proof {
                if i > start && s@[i - 1] == '\r' {
                    assert(cur.last() == '\r');
                    assert(cur.drop_last() =~= s@.subrange(start as int, i - 1));
                } else if i > start {
                    assert(cur.last() == s@[i - 1]);
                }
                assert(strip_cr(cur) =~= s@.subrange(start as int, end as int));
            }
            let piece = s.substring_char(start, end);
            let owned = String::from_str(piece);
            proof {
                assert(s@.skip(i as int)[0] == '\n');
                assert(s@.skip(i as int).drop_first() =~= s@.skip(i + 1));
                assert(out@.push(owned).map_values(|l: String| l@) =~= out@.map_values(
                    |l: String| l@,
                ).push(owned@));
                assert(s@.subrange(i + 1, i + 1) =~= Seq::<char>::empty());
            }
            out.push(owned);
            start = i + 1;
        } else {
            proof {
                assert(s@.skip(i as int)[0] == s@[i as int]);
                assert(s@.skip(i as int).drop_first() =~= s@.skip(i + 1));
                assert(cur.push(s@[i as int]) =~= s@.subrange(start as int, i + 1));
            }
        }
        i += 1;
    }
}

/// Joins authored lines into book content, each line followed by a newline.
pub fn join_lines(lines: &Vec<String>) -> (r: String)
    ensures
        r@ =~= join_lines_spec(lines@.map_values(|l: String| l@)),
{
    let ghost views = lines@.map_values(|l: String| l@);
    let mut out = String::new();
    let mut i: usize = 0;
    proof {
        assert(views.skip(0) =~= views);
    }
    while i < lines.len()
        invariant
            i <= lines.len(),
            views == lines@.map_values(|l: String| l@),
            out@ + join_lines_spec(views.skip(i as int)) =~= join_lines_spec(views),
        decreases lines.len() - i,
    {
        out.append(lines[i].as_str());
        out.append("\n");
        proof {
            reveal_strlit("\n");
            assert("\n"@ =~= seq!['\n']);
            assert(views.skip(i as int)[0] == views[i as int]);
            assert(views.skip(i as int).drop_first() =~= views.skip(i + 1));
            assert(join_lines_spec(views.skip(i as int)) == views[i as int] + seq!['\n']
                + join_lines_spec(views.skip(i + 1)));
            assert(out@ + join_lines_spec(views.skip(i + 1)) =~= join_lines_spec(views));
        }
        i += 1;
    }
    proof {
        assert(views.skip(i as int).len() == 0);
        assert(out@ + join_lines_spec(views.skip(i as int)) =~= out@);
    }
    out
}

} // verus!
