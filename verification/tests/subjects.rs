use silent_nats::subjects::{matches_tokens, Atom, Subject, SubjectError};

fn covers(pattern: &str, name: &str) -> bool {
    Subject::parse(pattern).unwrap().matches(name)
}

#[test]
fn a_literal_subject_covers_only_itself() {
    assert!(covers("orders.eu", "orders.eu"));
    assert!(!covers("orders.eu", "orders"));
    assert!(!covers("orders.eu", "orders.eu.new"));
    assert!(!covers("orders.eu", "orders.us"));
    assert!(!covers("orders.eu", "Orders.eu"));
}

#[test]
fn a_star_covers_one_segment() {
    assert!(covers("orders.*", "orders.eu"));
    assert!(covers("*", "orders"));
    assert!(!covers("*", "orders.eu"));
    assert!(!covers("orders.*", "orders"));
    assert!(!covers("orders.*", "orders.eu.new"));
    assert!(covers("*.eu.*", "orders.eu.new"));
    assert!(covers("orders.*", "orders."));
}

#[test]
fn a_tail_covers_the_rest() {
    assert!(covers("test.>", "test.hello"));
    assert!(covers("test.>", "test.hello.world"));
    assert!(covers("test.>", "test"));
    assert!(!covers("test.>", "other.hello"));
    assert!(covers(">", "anything.at.all"));
    assert!(covers(">", ""));
    assert!(covers("a.*.>", "a.b.c"));
    assert!(!covers("a.*.>", "a"));
}

#[test]
fn a_pattern_matches_part_by_part() {
    let first = || vec![Atom::Literal("a".to_string()), Atom::One];
    let second = || vec![Atom::Literal("c".to_string()), Atom::Tail];
    let whole = || first().into_iter().chain(second()).collect::<Vec<Atom>>();
    assert!(matches_tokens(&first(), &["a", "b"]));
    assert!(!matches_tokens(&first(), &["x", "b"]));
    assert!(matches_tokens(&second(), &["c"]));
    assert!(matches_tokens(&second(), &["c", "d", "e"]));
    assert!(!matches_tokens(&second(), &["d"]));
    assert!(matches_tokens(&whole(), &["a", "b", "c", "d", "e"]));
    assert!(!matches_tokens(&whole(), &["x", "b", "c"]));
    assert!(!matches_tokens(&whole(), &["a", "b", "d"]));
    assert!(matches_tokens(&[], &[]));
    assert!(covers("a.*", "a.b") && covers("c.>", "c.d") && covers("a.*.c.>", "a.b.c.d"));
}

#[test]
fn a_wildcard_inside_a_segment_is_literal() {
    assert!(covers("a*.b", "a*.b"));
    assert!(!covers("a*.b", "ax.b"));
    assert!(covers("a>.b", "a>.b"));
}

#[test]
fn a_subject_covers_itself() {
    for s in ["a.b", "a.*", "a.>", "*", ">"] {
        assert!(covers(s, s));
    }
}

#[test]
fn a_subject_keeps_its_text() {
    let s = Subject::parse("a.*.>").unwrap();
    assert_eq!(s.raw(), "a.*.>");
    let t = s.clone();
    assert_eq!(t.raw(), "a.*.>");
    assert!(t.matches("a.b.c"));
    assert!(s == t);
}

#[test]
fn an_empty_subject_is_refused() {
    for s in ["", "   ", "\t\n", "\u{3000}"] {
        let e = Subject::parse(s).unwrap_err();
        assert!(matches!(e, SubjectError::Empty));
        assert_eq!(e.message(), "subject 不能为空");
    }
}

#[test]
fn an_empty_segment_is_refused() {
    match Subject::parse("a..b").unwrap_err() {
        SubjectError::EmptyToken { index } => assert_eq!(index, 1),
        other => panic!("{:?}", other),
    }
    match Subject::parse(".a").unwrap_err() {
        SubjectError::EmptyToken { index } => assert_eq!(index, 0),
        other => panic!("{:?}", other),
    }
    let e = Subject::parse("a.b.").unwrap_err();
    assert_eq!(
        e.message(),
        "subject 不能包含连续的句点或空 segment，第 2 段无效"
    );
}

#[test]
fn an_early_tail_is_refused() {
    let e = Subject::parse("a.>.b").unwrap_err();
    assert!(matches!(e, SubjectError::TrailingWildcard));
    assert_eq!(e.message(), "'>' 通配符必须作为最后一段出现");
}

#[test]
fn white_space_in_a_segment_is_refused() {
    let e = Subject::parse("a.b c").unwrap_err();
    match &e {
        SubjectError::InvalidWhitespace { segment } => assert_eq!(segment, "b c"),
        other => panic!("{:?}", other),
    }
    assert_eq!(e.message(), "subject 段包含非法空白字符: b c");
    assert!(matches!(
        Subject::parse("a.\u{a0}x"),
        Err(SubjectError::InvalidWhitespace { .. })
    ));
}

#[test]
fn the_first_fault_counts() {
    assert!(matches!(
        Subject::parse("a b..c"),
        Err(SubjectError::InvalidWhitespace { .. })
    ));
    assert!(matches!(
        Subject::parse("..>.a"),
        Err(SubjectError::EmptyToken { index: 0 })
    ));
    assert!(matches!(
        Subject::parse(">..a"),
        Err(SubjectError::TrailingWildcard)
    ));
}
