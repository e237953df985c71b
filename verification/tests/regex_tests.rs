use rlex::regex_expr::{Charactor, RegexError, RegexExpr};

fn chars(text: &str) -> Vec<Charactor> {
    RegexExpr::to_charactors(text).unwrap()
}

fn literal_count(tokens: &[Charactor]) -> usize {
    tokens
        .iter()
        .filter(|t| matches!(t, Charactor::Char(_)))
        .count()
}

#[test]
fn class_becomes_group_of_alternatives() {
    assert_eq!(RegexExpr::to_simple_regex(b"[0-2]"), Ok(b"(0|1|2)".to_vec()));
    assert_eq!(RegexExpr::to_simple_regex(b"x[ab]y"), Ok(b"x(a|b)y".to_vec()));
    assert_eq!(
        RegexExpr::to_simple_regex(b"[a-cx0-1]"),
        Ok(b"(a|b|c|x|0|1)".to_vec())
    );
}

#[test]
fn class_escapes_special_members() {
    assert_eq!(
        RegexExpr::to_simple_regex(b"[a.*]"),
        Ok(b"(a|\\.|\\*)".to_vec())
    );
    assert_eq!(
        RegexExpr::to_simple_regex(b"[(-*]"),
        Ok(b"(\\(|\\)|\\*)".to_vec())
    );
}

#[test]
fn class_range_may_end_at_the_last_byte() {
    let out = RegexExpr::to_simple_regex(&[b'[', 254, b'-', 255, b']']).unwrap();
    assert_eq!(out, vec![b'(', 254, b'|', 255, b')']);
}

#[test]
fn class_of_one_byte_range() {
    assert_eq!(RegexExpr::to_simple_regex(b"[a-a]"), Ok(b"(a)".to_vec()));
}

#[test]
fn empty_class_is_empty_group() {
    assert_eq!(RegexExpr::to_simple_regex(b"[]"), Ok(b"()".to_vec()));
}

#[test]
fn unclosed_class_is_left_alone() {
    assert_eq!(RegexExpr::to_simple_regex(b"[ab"), Ok(b"[ab".to_vec()));
    assert_eq!(RegexExpr::to_simple_regex(b"a]b"), Ok(b"a]b".to_vec()));
    assert_eq!(RegexExpr::to_simple_regex(b"[a\nb]"), Ok(b"[a\nb]".to_vec()));
    assert_eq!(RegexExpr::to_simple_regex(b"[a\n[b]"), Ok(b"[a\n(b)".to_vec()));
}

#[test]
fn range_is_read_inside_its_class_only() {
    assert_eq!(
        RegexExpr::to_simple_regex(b"a-c[x-z]"),
        Ok(b"a-c(x|y|z)".to_vec())
    );
    assert_eq!(
        RegexExpr::to_simple_regex(b"[0-1][a-b]"),
        Ok(b"(0|1)(a|b)".to_vec())
    );
}

#[test]
fn trailing_dash_is_a_member() {
    assert_eq!(RegexExpr::to_simple_regex(b"[a-]"), Ok(b"(a|-)".to_vec()));
    assert_eq!(RegexExpr::to_simple_regex(b"[-a]"), Ok(b"(-|a)".to_vec()));
}

#[test]
fn descending_range_is_invalid() {
    assert_eq!(
        RegexExpr::to_simple_regex(b"[z-a]"),
        Err(RegexError::InvalidRange)
    );
    assert!(matches!(
        RegexExpr::build("x[9-0]"),
        Err(RegexError::InvalidRange)
    ));
}

#[test]
fn tokens_of_plain_text() {
    assert_eq!(
        chars("a(b|c)*"),
        vec![
            Charactor::Char(b'a'),
            Charactor::LeftBracket,
            Charactor::Char(b'b'),
            Charactor::Or,
            Charactor::Char(b'c'),
            Charactor::RightBracket,
            Charactor::Closure,
        ]
    );
    assert_eq!(
        chars("a.b"),
        vec![
            Charactor::Char(b'a'),
            Charactor::Concat,
            Charactor::Char(b'b')
        ]
    );
}

#[test]
fn escapes_make_literals() {
    assert_eq!(
        chars("\\(\\)\\*\\|\\.\\\\"),
        vec![
            Charactor::Char(b'('),
            Charactor::Char(b')'),
            Charactor::Char(b'*'),
            Charactor::Char(b'|'),
            Charactor::Char(b'.'),
            Charactor::Char(b'\\'),
        ]
    );
}

#[test]
fn escaped_backslash_does_not_escape_what_follows() {
    assert_eq!(
        chars("a\\\\a"),
        vec![
            Charactor::Char(b'a'),
            Charactor::Char(b'\\'),
            Charactor::Char(b'a')
        ]
    );
    assert_eq!(
        chars("\\\\*"),
        vec![Charactor::Char(b'\\'), Charactor::Closure]
    );
}

#[test]
fn unsupported_escape_is_invalid() {
    assert_eq!(
        RegexExpr::to_charactors("a\\qb"),
        Err(RegexError::InvalidEscape)
    );
    assert!(matches!(
        RegexExpr::build("\\n"),
        Err(RegexError::InvalidEscape)
    ));
}

#[test]
fn trailing_backslash_is_dropped() {
    assert_eq!(chars("ab\\"), vec![Charactor::Char(b'a'), Charactor::Char(b'b')]);
}

#[test]
fn tokenize_reads_raw_bytes() {
    assert_eq!(
        RegexExpr::tokenize(&[200, b'|', 7]),
        Ok(vec![
            Charactor::Char(200),
            Charactor::Or,
            Charactor::Char(7)
        ])
    );
}

#[test]
fn explicit_concat_wraps_and_joins() {
    let out = RegexExpr::to_explicit_concat_expr(&chars("a(b|c)*d"));
    assert_eq!(
        out,
        vec![
            Charactor::LeftBracket,
            Charactor::Char(b'a'),
            Charactor::Concat,
            Charactor::LeftBracket,
            Charactor::Char(b'b'),
            Charactor::Or,
            Charactor::Char(b'c'),
            Charactor::RightBracket,
            Charactor::Closure,
            Charactor::Concat,
            Charactor::Char(b'd'),
            Charactor::RightBracket,
        ]
    );
}

#[test]
fn explicit_concat_of_nothing_is_empty_group() {
    assert_eq!(
        RegexExpr::to_explicit_concat_expr(&Vec::new()),
        vec![Charactor::LeftBracket, Charactor::RightBracket]
    );
}

#[test]
fn postfix_honours_precedence() {
    // a|bc*  ->  a b c * . |
    let expr = RegexExpr::build("a|bc*").unwrap();
    assert_eq!(
        expr.0,
        vec![
            Charactor::Char(b'a'),
            Charactor::Char(b'b'),
            Charactor::Char(b'c'),
            Charactor::Closure,
            Charactor::Concat,
            Charactor::Or,
        ]
    );
}

#[test]
fn postfix_of_group_and_closure() {
    // a(b|c)*  ->  a b c | * .
    let expr = RegexExpr::build("a(b|c)*").unwrap();
    assert_eq!(
        expr.0,
        vec![
            Charactor::Char(b'a'),
            Charactor::Char(b'b'),
            Charactor::Char(b'c'),
            Charactor::Or,
            Charactor::Closure,
            Charactor::Concat,
        ]
    );
}

#[test]
fn postfix_is_left_associative() {
    // abc  ->  a b . c .
    let expr = RegexExpr::build("abc").unwrap();
    assert_eq!(
        expr.0,
        vec![
            Charactor::Char(b'a'),
            Charactor::Char(b'b'),
            Charactor::Concat,
            Charactor::Char(b'c'),
            Charactor::Concat,
        ]
    );
}

#[test]
fn postfix_of_class() {
    let expr = RegexExpr::build("[0-2]").unwrap();
    assert_eq!(
        expr.0,
        vec![
            Charactor::Char(b'0'),
            Charactor::Char(b'1'),
            Charactor::Or,
            Charactor::Char(b'2'),
            Charactor::Or,
        ]
    );
}

#[test]
fn unclosed_group_is_unbalanced() {
    assert!(matches!(
        RegexExpr::build("(a"),
        Err(RegexError::UnbalancedGroup)
    ));
    assert!(matches!(
        RegexExpr::build("((a)"),
        Err(RegexError::UnbalancedGroup)
    ));
}

#[test]
fn unopened_group_is_unbalanced() {
    assert!(matches!(
        RegexExpr::build("a)"),
        Err(RegexError::UnbalancedGroup)
    ));
    assert_eq!(
        RegexExpr::to_postfix(&vec![Charactor::Char(b'a'), Charactor::RightBracket]),
        Err(RegexError::UnbalancedGroup)
    );
}

#[test]
fn to_postfix_needs_every_operator_inside_a_group() {
    assert_eq!(
        RegexExpr::to_postfix(&vec![
            Charactor::Char(b'a'),
            Charactor::Or,
            Charactor::Char(b'b')
        ]),
        Err(RegexError::UnbalancedGroup)
    );
    assert_eq!(
        RegexExpr::to_postfix(&vec![
            Charactor::LeftBracket,
            Charactor::Char(b'a'),
            Charactor::Or,
            Charactor::Char(b'b'),
            Charactor::RightBracket
        ]),
        Ok(vec![
            Charactor::Char(b'a'),
            Charactor::Char(b'b'),
            Charactor::Or
        ])
    );
    assert_eq!(
        RegexExpr::to_postfix(&vec![Charactor::Char(b'a')]),
        Ok(vec![Charactor::Char(b'a')])
    );
}

#[test]
fn literal_count_is_kept() {
    for text in ["a", "ab|c", "a(b|c)*d", "((a))", "a**", "\\*\\|x", ""] {
        let tokens = chars(text);
        let infix = RegexExpr::to_explicit_concat_expr(&tokens);
        let postfix = RegexExpr::to_postfix(&infix).unwrap();
        assert_eq!(literal_count(&postfix), literal_count(&tokens));
    }
    let simple = RegexExpr::to_simple_regex(b"x[a-e]*").unwrap();
    let tokens = RegexExpr::tokenize(&simple).unwrap();
    assert_eq!(literal_count(&tokens), 6);
    assert_eq!(literal_count(&RegexExpr::build("x[a-e]*").unwrap().0), 6);
}
