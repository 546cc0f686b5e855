use cat_library::text::{
    count_occurrences, fmt_u64, fmt_usize, join_lines, parse_usize, spaces, split_lines,
    str_compare, str_eq, Cmp, ParseError,
};

#[test]
fn parse_usize_matches_the_standard_parser() {
    assert_eq!(parse_usize("12"), Ok(12));
    assert_eq!(parse_usize("+7"), Ok(7));
    assert_eq!(parse_usize("0"), Ok(0));
    assert_eq!(parse_usize(""), Err(ParseError::Empty));
    assert_eq!(parse_usize("+"), Err(ParseError::InvalidDigit));
    assert_eq!(parse_usize("abc"), Err(ParseError::InvalidDigit));
    assert_eq!(parse_usize("-1"), Err(ParseError::InvalidDigit));
    assert_eq!(parse_usize("12x"), Err(ParseError::InvalidDigit));
    assert_eq!(
        parse_usize("99999999999999999999999999"),
        Err(ParseError::PosOverflow)
    );
    // the standard parser agrees on each of these
    for s in ["12", "+7", "0", "", "+", "abc", "-1", "12x", "99999999999999999999999999"] {
        assert_eq!(parse_usize(s).ok(), s.parse::<usize>().ok(), "on {s:?}");
    }
}

#[test]
fn decimal_formatting() {
    assert_eq!(fmt_usize(0), "0");
    assert_eq!(fmt_usize(7), "7");
    assert_eq!(fmt_usize(10), "10");
    assert_eq!(fmt_usize(345), "345");
    assert_eq!(fmt_u64(18446744073709551615), "18446744073709551615");
    assert_eq!(spaces(3), "   ");
    assert_eq!(spaces(0), "");
}

#[test]
fn occurrence_counting_is_greedy_and_non_overlapping() {
    assert_eq!(count_occurrences("foofoo", "foo"), 2);
    assert_eq!(count_occurrences("ababab", "abab"), 1);
    assert_eq!(count_occurrences("xfoox", "foo"), 1);
    assert_eq!(count_occurrences("bar", "foo"), 0);
    assert_eq!(count_occurrences("aaa", "a"), 3);
    assert_eq!(count_occurrences("anything", ""), 0);
    // the standard matcher counts the same way
    for (hay, needle) in [("foofoo", "foo"), ("ababab", "abab"), ("xfoox", "foo"), ("aaa", "a")] {
        assert_eq!(count_occurrences(hay, needle), hay.match_indices(needle).count());
    }
}

#[test]
fn split_and_join_lines() {
    assert_eq!(join_lines(&vec!["alpha".to_string(), "beta".to_string()]), "alpha\nbeta\n");
    assert_eq!(
        split_lines("alpha\nbeta\n"),
        vec!["alpha".to_string(), "beta".to_string()]
    );
    assert_eq!(split_lines(""), Vec::<String>::new());
    assert_eq!(split_lines("\n"), vec!["".to_string()]);
    assert_eq!(split_lines("a\r\nb"), vec!["a".to_string(), "b".to_string()]);
    assert_eq!(split_lines("tail"), vec!["tail".to_string()]);
    // the standard line iterator splits the same way
    for s in ["alpha\nbeta\n", "", "\n", "a\r\nb", "tail", "a\n\nb"] {
        let ours = split_lines(s);
        let std_lines: Vec<String> = s.lines().map(|l| l.to_string()).collect();
        assert_eq!(ours, std_lines, "on {s:?}");
    }
}

#[test]
fn string_comparison() {
    assert!(str_eq("abc", "abc"));
    assert!(!str_eq("abc", "abd"));
    assert!(!str_eq("abc", "ab"));
    assert_eq!(str_compare("abc", "abd"), Cmp::Lt);
    assert_eq!(str_compare("b", "abc"), Cmp::Gt);
    assert_eq!(str_compare("same", "same"), Cmp::Eq);
    assert_eq!(str_compare("ab", "abc"), Cmp::Lt);
}
