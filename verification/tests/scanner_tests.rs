use rlex::compile;
use rlex::regex_expr::RegexError;
use rlex::dfa::{LookupState, LookupTable};
use rlex::scanner::{Rlex, Token};

fn scanner(texts: &[&str]) -> Rlex {
    let patterns: Vec<String> = texts.iter().map(|t| t.to_string()).collect();
    Rlex::new(compile(&patterns).unwrap().lookup_table)
}

fn matched(start: usize, end: usize, handler: usize) -> Token {
    Token::Matched { start, end, handler }
}

#[test]
fn longest_match_beats_first_listed() {
    let lexer = scanner(&["ab", "a"]);
    assert_eq!(lexer.lex("ab"), vec![matched(0, 2, 0)]);
    let lexer = scanner(&["a", "ab"]);
    assert_eq!(lexer.lex("ab"), vec![matched(0, 2, 1)]);
    assert_eq!(lexer.lex("aab"), vec![matched(0, 1, 0), matched(1, 3, 1)]);
}

#[test]
fn earlier_rule_wins_a_tie() {
    let lexer = scanner(&["[0-9][0-9]*", "(0|1|2|3|4|5|6|7|8|9|a)"]);
    assert_eq!(lexer.lex("5"), vec![matched(0, 1, 0)]);
    assert_eq!(lexer.lex("a"), vec![matched(0, 1, 1)]);
    let lexer = scanner(&["(0|1|2|3|4|5|6|7|8|9|a)", "[0-9][0-9]*"]);
    assert_eq!(lexer.lex("5"), vec![matched(0, 1, 0)]);
    assert_eq!(lexer.lex("55"), vec![matched(0, 2, 1)]);
}

#[test]
fn plus_is_a_literal_and_dot_is_an_operator() {
    let lexer = scanner(&["[0-9]+"]);
    assert_eq!(lexer.lex("5+"), vec![matched(0, 2, 0)]);
    assert_eq!(lexer.lex("5"), vec![Token::Unmatched { at: 0 }]);
    assert!(matches!(
        compile(&vec!["[0-9]".to_string(), ".".to_string()]),
        Err(RegexError::MalformedExpression)
    ));
    assert!(matches!(
        compile(&vec!["a.b".to_string()]),
        Err(RegexError::MalformedExpression)
    ));
    let lexer = scanner(&["\\."]);
    assert_eq!(lexer.lex("."), vec![matched(0, 1, 0)]);
}

#[test]
fn unmatched_byte_is_skipped_and_reported_once() {
    let lexer = scanner(&["[0-9][0-9]*"]);
    assert_eq!(
        lexer.lex("12#34"),
        vec![matched(0, 2, 0), Token::Unmatched { at: 2 }, matched(3, 5, 0)]
    );
    assert_eq!(
        lexer.lex("##"),
        vec![Token::Unmatched { at: 0 }, Token::Unmatched { at: 1 }]
    );
    assert_eq!(lexer.lex(""), Vec::<Token>::new());
}

#[test]
fn match_falls_back_to_the_last_accepting_place() {
    let lexer = scanner(&["a", "abc"]);
    assert_eq!(
        lexer.lex("abd"),
        vec![
            matched(0, 1, 0),
            Token::Unmatched { at: 1 },
            Token::Unmatched { at: 2 }
        ]
    );
    assert_eq!(lexer.lex("abc"), vec![matched(0, 3, 1)]);
}

#[test]
fn class_accepts_exactly_its_members() {
    let lexer = scanner(&["[0-2]"]);
    for b in 0u8..=255 {
        let got = Rlex::lex_bytes(&[b], &lexer.lookup_table);
        if b == b'0' || b == b'1' || b == b'2' {
            assert_eq!(got, vec![matched(0, 1, 0)]);
        } else {
            assert_eq!(got, vec![Token::Unmatched { at: 0 }]);
        }
    }
    assert_eq!(Rlex::match_reg(b"", 0, &lexer.lookup_table), None);
    assert_eq!(Rlex::match_reg(b"00", 0, &lexer.lookup_table), Some((1, 0)));
    assert_eq!(Rlex::match_reg(b"3", 0, &lexer.lookup_table), None);
    assert_eq!(lexer.lex("01"), vec![matched(0, 1, 0), matched(1, 2, 0)]);
}

#[test]
fn closure_never_matches_nothing() {
    let lexer = scanner(&["a*"]);
    assert!(lexer.lookup_table.is_acceptable(0));
    assert_eq!(lexer.lex("b"), vec![Token::Unmatched { at: 0 }]);
    assert_eq!(
        lexer.lex("aab"),
        vec![matched(0, 2, 0), Token::Unmatched { at: 2 }]
    );
}

#[test]
fn match_reg_starts_where_it_is_told() {
    let lexer = scanner(&["ab", "b"]);
    assert_eq!(Rlex::match_reg(b"xab", 0, &lexer.lookup_table), None);
    assert_eq!(Rlex::match_reg(b"xab", 1, &lexer.lookup_table), Some((2, 0)));
    assert_eq!(Rlex::match_reg(b"xab", 2, &lexer.lookup_table), Some((1, 1)));
    assert_eq!(Rlex::match_reg(b"xab", 3, &lexer.lookup_table), None);
}

#[test]
fn smallest_listed_handler_fires() {
    let mut start = LookupState::new();
    start.insert_neighbor(b'x', 1);
    let mut end = LookupState::new();
    end.handlers = vec![5, 2, 9];
    let table = LookupTable { states: vec![start, end] };
    assert!(table.is_valid());
    assert_eq!(Rlex::match_reg(b"x", 0, &table), Some((1, 2)));
    assert_eq!(Rlex::lex_bytes(b"xx", &table), vec![matched(0, 1, 2), matched(1, 2, 2)]);
}

#[test]
fn identifiers_and_numbers() {
    let lexer = scanner(&["[0-9][0-9]*", "[A-Za-z][A-Za-z0-9]*", "( |;|,|!|=)( |;|,|!|=)*"]);
    assert_eq!(
        lexer.lex("x1 = 42;"),
        vec![
            matched(0, 2, 1),
            matched(2, 5, 2),
            matched(5, 7, 0),
            matched(7, 8, 2),
        ]
    );
}

#[test]
fn bytes_above_ascii_are_plain_bytes() {
    let lexer = scanner(&["é"]);
    assert_eq!(lexer.lex("é"), vec![matched(0, 2, 0)]);
    assert_eq!(
        Rlex::lex_bytes(&[0xc3], &lexer.lookup_table),
        vec![Token::Unmatched { at: 0 }]
    );
}

#[test]
fn tokens_cover_the_input() {
    let lexer = scanner(&["[a-c][a-c]*", "( )( )*", "ab;"]);
    for input in ["", "abc", "ab;", "ab;;c", ";;;", "a b  c;", "zab;z"] {
        let mut at = 0;
        for token in lexer.lex(input) {
            match token {
                Token::Matched { start, end, .. } => {
                    assert_eq!(start, at);
                    assert!(end > start);
                    at = end;
                }
                Token::Unmatched { at: place } => {
                    assert_eq!(place, at);
                    at += 1;
                }
            }
        }
        assert_eq!(at, input.len());
    }
}

#[test]
fn handler_order_in_a_row_does_not_matter() {
    let table = |ids: Vec<usize>| {
        let mut start = LookupState::new();
        start.insert_neighbor(b'x', 1);
        let mut end = LookupState::new();
        end.handlers = ids;
        end.insert_neighbor(b'x', 1);
        LookupTable { states: vec![start, end] }
    };
    let a = table(vec![3, 1, 2]);
    let b = table(vec![2, 3, 1]);
    for input in ["", "x", "xxx", "xyx"] {
        assert_eq!(
            Rlex::lex_bytes(input.as_bytes(), &a),
            Rlex::lex_bytes(input.as_bytes(), &b)
        );
    }
    assert_eq!(Rlex::lex_bytes(b"xx", &a), vec![matched(0, 2, 1)]);
}
