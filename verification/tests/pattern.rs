use wscrpt::pattern::{
    has_prefix, last_span_before, Pattern, PatternError, Splice, MAX_PATTERN_BYTES,
};

#[test]
fn literal_default_and_regex_prefix() {
    let literal = Pattern::parse("bird", true).unwrap();
    assert!(!literal.is_regex());
    assert_eq!(literal.find_from("a bird flies", 0), Some(2..6));

    let regex = Pattern::parse(r"re:b\w+d", true).unwrap();
    assert!(regex.is_regex());
    assert_eq!(regex.find_from("a bird flies", 0), Some(2..6));

    let insensitive = Pattern::parse("re:i:BIRD", true).unwrap();
    assert_eq!(insensitive.find_from("a bird flies", 0), Some(2..6));
}

#[test]
fn regex_replace_supports_captures() {
    let pattern = Pattern::parse(r"re:(\w+)-(\w+)", true).unwrap();
    let (updated, count) = pattern
        .replace_all("foo-bar and baz-qux", "$2/$1", 64 * 1024)
        .unwrap();
    assert_eq!(count, 2);
    assert_eq!(updated, "bar/foo and qux/baz");
}

#[test]
fn empty_and_oversized_patterns_are_refused() {
    assert!(matches!(Pattern::parse("", true), Err(PatternError::Empty)));
    let huge = "a".repeat(MAX_PATTERN_BYTES + 1);
    assert!(matches!(
        Pattern::parse(&huge, true),
        Err(PatternError::TooLarge { .. })
    ));
}

#[test]
fn a_malformed_expression_is_refused_with_its_reason() {
    for input in ["re:(", "re:i:["] {
        match Pattern::parse(input, true) {
            Err(PatternError::InvalidRegex { message }) => assert!(message.contains("regex")),
            _ => panic!("{input} was taken"),
        }
    }
    assert!(matches!(Pattern::parse("re:", true), Err(PatternError::Empty)));
    assert!(has_prefix("re:i:x", "re:"));
    assert!(!has_prefix("r", "re:"));
}

#[test]
fn modes_have_labels() {
    assert_eq!(Pattern::parse("a", true).unwrap().mode_label(), "literal");
    assert_eq!(Pattern::parse("re:a", true).unwrap().mode_label(), "regex");
}

#[test]
fn literals_are_found_forwards_and_backwards() {
    let exact = Pattern::parse("aB", true).unwrap();
    assert_eq!(exact.find_from("ab aB aB", 0), Some(3..5));
    assert_eq!(exact.find_from("ab aB aB", 4), Some(6..8));
    assert_eq!(exact.find_previous("ab aB aB", 8), Some(6..8));
    assert_eq!(exact.find_previous("ab aB aB", 6), Some(3..5));
    assert_eq!(exact.find_previous("ab aB aB", 3), None);
    let folded = Pattern::parse("É", false).unwrap();
    assert_eq!(folded.find_from("xé", 0), Some(1..3));
    assert_eq!(exact.find_all("aBaBaB", 2, || false), Some(vec![0..2, 2..4]));
    assert_eq!(exact.find_all("aBaBaB", 9, || true), None);
}

#[test]
fn expressions_are_found_forwards_and_backwards() {
    let digits = Pattern::parse(r"re:\d+", true).unwrap();
    assert_eq!(digits.find_from("1 22 333", 2), Some(2..4));
    assert_eq!(digits.find_previous("1 22 333", 8), Some(5..8));
    assert_eq!(digits.find_previous("1 22 333", 4), Some(2..4));
    assert_eq!(digits.find_all("1 22 333", 2, || false), Some(vec![0..1, 2..4]));
}

#[test]
fn replacement_stops_at_the_byte_limit() {
    let literal = Pattern::parse("a", true).unwrap();
    assert_eq!(literal.replace_all("banana", "oo", 64).unwrap(), ("boonoonoo".to_owned(), 3));
    assert_eq!(literal.replace_all("bird", "oo", 64).unwrap(), ("bird".to_owned(), 0));
    for input in ["a", "re:a"] {
        let pattern = Pattern::parse(input, true).unwrap();
        assert_eq!(
            pattern.replace_all("banana", "oo", 8),
            Err(PatternError::InvalidRegex {
                message: "replacement result is 9 bytes; limit is 8 bytes".to_owned(),
            })
        );
    }
}

#[test]
fn matches_are_replaced_one_after_the_other() {
    let mut splice = Splice::new("añb, añb");
    assert_eq!(splice.put(1, 3, "nn"), 3);
    assert_eq!(splice.put(7, 9, ""), 7);
    assert_eq!(splice.finish(64), Ok("annb, ab".to_owned()));
    let mut splice = Splice::new("abc");
    splice.put(3, 3, "!!");
    assert_eq!(
        splice.finish(4).unwrap_err().describe(),
        "invalid regular expression: replacement result is 5 bytes; limit is 4 bytes"
    );
}

#[test]
fn anchors_and_boundaries_see_the_whole_text() {
    let start = Pattern::parse("re:^a", true).unwrap();
    assert_eq!(start.find_all("aaa", 10, || false), Some(vec![0..1]));
    assert_eq!(start.find_from("aaa", 1), None);
    assert_eq!(start.find_all("a\na", 10, || false), Some(vec![0..1, 2..3]));
    assert_eq!(start.replace_all("aaa", "b", 64).unwrap(), ("baa".to_owned(), 1));
    let word = Pattern::parse(r"re:\bchew\b", true).unwrap();
    assert_eq!(word.find_from("eschew", 2), None);
    let end = Pattern::parse("re:a$", true).unwrap();
    assert_eq!(end.find_previous("aaa", 2), None);
    assert_eq!(end.find_previous("aaa", 3), Some(2..3));
    let empty = Pattern::parse("re:x*", true).unwrap();
    assert_eq!(empty.find_all("aé", 10, || false), Some(vec![0..0, 1..1, 3..3]));
    assert_eq!(last_span_before(&vec![(0, 1), (2, 4), (5, 6)], 5), Some((2, 4)));
    assert_eq!(last_span_before(&vec![(2, 4)], 3), None);
}

#[test]
fn copies_find_the_same() {
    for input in ["b+", "re:b+", "re:i:B+"] {
        let pattern = Pattern::parse(input, true).unwrap();
        let copy = pattern.clone();
        assert_eq!(copy.find_from("abbb", 0), pattern.find_from("abbb", 0));
        assert_eq!(copy.is_regex(), pattern.is_regex());
    }
    let copy = Pattern::parse("re:b+", true).unwrap().clone();
    assert_eq!(copy.find_from("abbb", 0), Some(1..4));
}

#[test]
fn a_search_without_room_is_never_cancelled() {
    let pattern = Pattern::parse("a", true).unwrap();
    assert_eq!(pattern.find_all("aaa", 0, || true), Some(Vec::new()));
    assert_eq!(pattern.find_all("", 1, || true), None);
}
