use rlex::config::{parse_config, parse_definations, parse_rules, replace_regex_variables};
use rlex::ConfigError;

fn pair(a: &str, b: &str) -> (String, String) {
    (a.to_string(), b.to_string())
}

const SAMPLE: &str = "%{\nstruct Foo;\n%}\n  digit = \"[0-9]\"\n  number = \"{digit}{digit}*\"\n%%\n  {number} -> |s|{\n    println!(\"number: {}\", s);\n  } ;;\n  x{digit} -> |s| two ;;\n%%\n  pub a: i32,\n";

#[test]
fn rule_file_is_read() {
    let config = parse_config(SAMPLE).unwrap();
    assert_eq!(config.declarations, "\nstruct Foo;\n");
    assert_eq!(config.variables, "\n  pub a: i32,\n");
    assert_eq!(
        config.rules,
        vec![
            pair(
                "(([0-9])([0-9])*)",
                "|s|{\n    println!(\"number: {}\", s);\n  }"
            ),
            pair("x([0-9])", "|s| two"),
        ]
    );
}

#[test]
fn text_without_sections_is_refused() {
    assert!(matches!(parse_config(""), Err(ConfigError::Format)));
    assert!(matches!(
        parse_config("a -> b ;;"),
        Err(ConfigError::Format)
    ));
    assert!(matches!(
        parse_config("%{ d %} %% a -> b ;;"),
        Err(ConfigError::Format)
    ));
    assert!(matches!(
        parse_config("%{%} %% a -> b ;; %% v"),
        Err(ConfigError::Format)
    ));
}

#[test]
fn sections_may_hold_no_definition_and_no_rule() {
    let config = parse_config("%{d%}%%%%v").unwrap();
    assert_eq!(config.declarations, "d");
    assert!(config.rules.is_empty());
    assert_eq!(config.variables, "v");
}

#[test]
fn undefined_variable_is_named() {
    let text = "%{ d %} a = \"x\" %% {a}{nope} -> h ;; %% v";
    match parse_config(text) {
        Err(ConfigError::UndefinedVariable(name)) => assert_eq!(name, "nope"),
        _ => panic!("the variable is not defined"),
    }
    let text = "%{ d %} a = \"{b}\" %% x -> h ;; %% v";
    match parse_config(text) {
        Err(ConfigError::UndefinedVariable(name)) => assert_eq!(name, "b"),
        _ => panic!("the variable is not defined"),
    }
}

#[test]
fn definitions_are_trimmed_and_resolved_once() {
    let defs = parse_definations(
        "digit = \" [0-9] \"\n number=\"{digit}*\"\n twice = \"{number}\"",
    )
    .unwrap();
    assert_eq!(
        defs,
        vec![
            pair("digit", "[0-9]"),
            pair("number", "([0-9])*"),
            pair("twice", "({digit}*)"),
        ]
    );
}

#[test]
fn later_definition_takes_the_place_of_an_earlier() {
    let defs = parse_definations("a = \"x\"\n b = \"{a}\"\n a = \"y\"").unwrap();
    assert_eq!(defs, vec![pair("a", "y"), pair("b", "(y)")]);
    assert_eq!(parse_definations("no definition here").unwrap(), vec![]);
}

#[test]
fn rules_keep_their_order_and_their_handlers() {
    let defs = vec![pair("a", "x|y")];
    let rules = parse_rules("\n {a}* -> first ;;  b{a} ->\n second\n ;; c -> ;;", &defs).unwrap();
    assert_eq!(
        rules,
        vec![
            pair("(x|y)*", "first"),
            pair("b(x|y)", "second"),
            pair("c", ""),
        ]
    );
}

#[test]
fn every_use_of_a_variable_is_replaced() {
    let defs = vec![pair("a", "0"), pair("b", "1")];
    let out = replace_regex_variables(&"{a}{b}{a}|{}".to_string(), &defs).unwrap();
    assert_eq!(out, "(0)(1)(0)|{}");
    let out = replace_regex_variables(&"plain".to_string(), &defs).unwrap();
    assert_eq!(out, "plain");
    assert!(matches!(
        replace_regex_variables(&"{a}{c}{d}".to_string(), &defs),
        Err(ConfigError::UndefinedVariable(name)) if name == "c"
    ));
}
