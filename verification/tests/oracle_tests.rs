use regex::Regex;
use rlex::nfa::{Nfa, NfaBuilder};
use rlex::scanner::Rlex;
use rlex::{Dfa, RegexExpr};
use std::collections::BTreeSet;

fn words(alphabet: &[u8], max_len: usize) -> Vec<Vec<u8>> {
    let mut all = vec![Vec::new()];
    let mut last = vec![Vec::new()];
    for _ in 0..max_len {
        let mut next = Vec::new();
        for w in &last {
            for &b in alphabet {
                let mut longer = w.clone();
                longer.push(b);
                next.push(longer);
            }
        }
        all.extend(next.iter().cloned());
        last = next;
    }
    all
}

fn nfa_of_rules(texts: &[&str]) -> Nfa {
    let mut builder = NfaBuilder::new();
    for (id, text) in texts.iter().enumerate() {
        builder.add_rule(&RegexExpr::build(text).unwrap(), id).unwrap();
    }
    builder.build().unwrap()
}

fn close(nfa: &Nfa, set: &mut BTreeSet<usize>) {
    let mut work: Vec<usize> = set.iter().copied().collect();
    while let Some(a) = work.pop() {
        for &b in &nfa.states[a].epsilon_neighbors {
            if set.insert(b) {
                work.push(b);
            }
        }
    }
}

/// The handlers of the states that the NFA may be in after `w`.
fn nfa_handlers(nfa: &Nfa, w: &[u8]) -> BTreeSet<usize> {
    let mut now = BTreeSet::new();
    now.insert(nfa.start.0);
    close(nfa, &mut now);
    for b in w {
        let mut next = BTreeSet::new();
        for &a in &now {
            if let Some(&t) = nfa.states[a].neighbors.get(b) {
                next.insert(t);
            }
        }
        close(nfa, &mut next);
        now = next;
    }
    now.iter().filter_map(|&a| nfa.states[a].handler).collect()
}

#[test]
fn table_does_what_the_nfa_does() {
    let nfa = nfa_of_rules(&["(a|b)*abb", "a*c", "[a-c][a-c]*", "ab"]);
    let table = Dfa::build(&nfa).lookup_table;
    for w in words(b"abc", 5) {
        let want = nfa_handlers(&nfa, &w);
        let whole = match Rlex::match_reg(&w, 0, &table) {
            Some((len, handler)) if len == w.len() => Some(handler),
            _ => None,
        };
        if w.is_empty() {
            assert_eq!(whole, None);
        } else {
            assert_eq!(whole, want.iter().next().copied());
        }
    }
}

#[test]
fn patterns_mean_what_they_mean_elsewhere() {
    for text in [
        "(a|b)*abb",
        "a*b*",
        "(ab|a)(b|c)*",
        "[a-c][a-c]*c",
        "((a|b)(a|b))*",
        "a(b|c*)*a",
        "[a-b]|c(a|b)",
    ] {
        let oracle = Regex::new(&format!("^(?:{})$", text)).unwrap();
        let nfa = nfa_of_rules(&[text]);
        let table = Dfa::build(&nfa).lookup_table;
        for w in words(b"abc", 5) {
            if w.is_empty() {
                continue;
            }
            let whole = matches!(Rlex::match_reg(&w, 0, &table), Some((len, _)) if len == w.len());
            let want = oracle.is_match(std::str::from_utf8(&w).unwrap());
            assert_eq!(whole, want);
        }
    }
}

#[test]
fn longest_match_is_the_longest_prefix_that_matches() {
    let text = "(ab)*|a*c";
    let oracle = Regex::new(&format!("^(?:{})$", text)).unwrap();
    let table = Dfa::build(&nfa_of_rules(&[text])).lookup_table;
    for w in words(b"abc", 5) {
        let s = std::str::from_utf8(&w).unwrap();
        let want = (1..=w.len()).rev().find(|&n| oracle.is_match(&s[..n]));
        let got = Rlex::match_reg(&w, 0, &table).map(|m| m.0);
        assert_eq!(got, want);
    }
}

/// Class expansion written with the regex crate: each leftmost match of a
/// class, and inside it each leftmost match of a range.
fn expansion_by_regex(text: &str) -> Option<String> {
    let class = Regex::new(r"\[(.*?)\]").unwrap();
    let range = Regex::new(r"(.)-(.)").unwrap();
    let mut out = String::new();
    let mut last = 0;
    for c in class.captures_iter(text) {
        let whole = c.get(0).unwrap();
        out.push_str(&text[last..whole.start()]);
        last = whole.end();
        let content = &c[1];
        let mut members = String::new();
        let mut at = 0;
        for r in range.captures_iter(content) {
            let m = r.get(0).unwrap();
            members.push_str(&content[at..m.start()]);
            at = m.end();
            let from = r[1].as_bytes()[0];
            let to = r[2].as_bytes()[0];
            if to < from {
                return None;
            }
            for b in from..=to {
                members.push(b as char);
            }
        }
        members.push_str(&content[at..]);
        out.push('(');
        for (i, ch) in members.chars().enumerate() {
            if i != 0 {
                out.push('|');
            }
            if "\\.()*|".contains(ch) {
                out.push('\\');
            }
            out.push(ch);
        }
        out.push(')');
    }
    out.push_str(&text[last..]);
    Some(out)
}

#[test]
fn classes_are_found_as_the_regex_crate_finds_them() {
    for w in words(b"[]-ac\n", 5) {
        let text = std::str::from_utf8(&w).unwrap();
        let got = RegexExpr::to_simple_regex(&w).ok();
        let want = expansion_by_regex(text).map(|s| s.into_bytes());
        assert_eq!(got, want, "{:?}", text);
    }
    for text in ["x[a-c]y[0-2]", "[a-c-e]", "[--0]", "[.-0]", "[(-*]", "[\\]", "[a\n]b]"] {
        let got = RegexExpr::to_simple_regex(text.as_bytes()).ok();
        let want = expansion_by_regex(text).map(|s| s.into_bytes());
        assert_eq!(got, want, "{:?}", text);
    }
}
