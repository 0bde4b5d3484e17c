use phrase_compiler::grammar::{Grammar, Rule, RuleType};
use phrase_compiler::parse::{parse, try_parse, ParseResult};
use phrase_compiler::phrase::{first_phrase, try_first_phrase, PhraseError};
use phrase_compiler::template::find_template;
use phrase_compiler::tokenable::Tokenable;
use phrase_compiler::tree::{Expression, SyntaxTree};

fn word() -> Tokenable {
    Tokenable::new("^[A-Za-z0-9_]+$").unwrap()
}

fn rule(name: &str, pattern: &str) -> Rule {
    Rule { name: Some(name.to_string()), rule: Some(pattern.to_string()), lf: false, tokens: None }
}

fn grammar(types: Vec<(&str, Vec<Vec<Rule>>)>) -> Grammar {
    Grammar { types: types.into_iter().map(|(n, rs)| RuleType { name: n.to_string(), rulesets: rs }).collect() }
}

fn prepared(mut g: Grammar) -> Grammar {
    find_template(&mut g, &word()).unwrap();
    g
}

fn ident_arg(t: &SyntaxTree, key: &str) -> Option<(String, String)> {
    t.args.iter().find(|a| a.0 == key).and_then(|a| match &a.1 .0 {
        Expression::Ident(s) => Some((s.clone(), a.1 .1.clone())),
        Expression::Exp(_) => None,
    })
}

#[test]
fn first_phrase_reads_a_rule() {
    let g = prepared(grammar(vec![("root", vec![vec![rule("print", "print{x:ident}")]])]));
    let (n, t) = first_phrase("print hello", &g, &word(), "root", false).unwrap();
    assert_eq!(n, 11);
    assert_eq!(t.rule, "print");
    assert_eq!(t.args.len(), 1);
    assert_eq!(ident_arg(&t, "x"), Some((" hello".to_string(), "ident".to_string())));
}

#[test]
fn first_phrase_without_tree() {
    let g = prepared(grammar(vec![("root", vec![vec![rule("print", "print{x:ident}")]])]));
    let (n, t) = first_phrase("print hello", &g, &word(), "root", true).unwrap();
    assert_eq!(n, 11);
    assert_eq!(t.rule, "");
    assert!(t.args.is_empty());
}

#[test]
fn first_phrase_nested_type() {
    let g = prepared(grammar(vec![
        ("root", vec![vec![rule("say", "say{v:value}")]]),
        ("value", vec![vec![rule("num", "num{n:ident}")]]),
    ]));
    let (n, t) = first_phrase("say num 5", &g, &word(), "root", false).unwrap();
    assert_eq!(n, 9);
    assert_eq!(t.rule, "say");
    let inner = match &t.args[0].1 .0 {
        Expression::Exp(e) => e,
        Expression::Ident(_) => panic!("expected a phrase"),
    };
    assert_eq!(t.args[0].0, "v");
    assert_eq!(t.args[0].1 .1, "value");
    assert_eq!(inner.rule, "num");
    assert_eq!(ident_arg(inner, "n"), Some((" 5".to_string(), "ident".to_string())));
}

#[test]
fn first_phrase_no_rule_matches() {
    let g = prepared(grammar(vec![("root", vec![vec![rule("print", "print{x:ident}")]])]));
    assert_eq!(first_phrase("print hello", &g, &word(), "other", false).err(), Some("No rule matches!"));
    assert_eq!(first_phrase("show hello", &g, &word(), "root", false).err(), Some("No rule matches!"));
}

#[test]
fn first_phrase_unbalanced_brackets() {
    let g = prepared(grammar(vec![("root", vec![vec![rule("print", "print{x:ident}")]])]));
    assert_eq!(first_phrase("(}", &g, &word(), "root", false).err(), Some("Parentheses do not match."));
}

#[test]
fn first_phrase_stops_at_a_closing_bracket() {
    let g = prepared(grammar(vec![("root", vec![vec![rule("print", "print{x:ident}")]])]));
    let (n, t) = first_phrase("print a) b", &g, &word(), "root", false).unwrap();
    assert_eq!(n, 7);
    assert_eq!(t.rule, "print");
}

#[test]
fn parse_reads_a_rule() {
    let g = grammar(vec![("root", vec![vec![rule("print", "print {x:ident}")]])]);
    let t = parse("print hello", &g, "root", &word()).unwrap();
    assert_eq!(t.rule, "root.print");
    assert_eq!(ident_arg(&t, "x"), Some(("hello".to_string(), "ident".to_string())));
}

#[test]
fn parse_reads_a_placeholder_before_a_literal() {
    let g = grammar(vec![("root", vec![vec![rule("assign", "{x:ident} to {y:ident}")]])]);
    let t = parse("a to b", &g, "root", &word()).unwrap();
    assert_eq!(t.rule, "root.assign");
    assert_eq!(ident_arg(&t, "x"), Some(("a".to_string(), "ident".to_string())));
    assert_eq!(ident_arg(&t, "y"), Some(("b".to_string(), "ident".to_string())));
}

#[test]
fn parse_errors() {
    let g = grammar(vec![("root", vec![vec![rule("print", "print {x:ident}")]])]);
    assert_eq!(parse("print hello", &g, "none", &word()).err(), Some("No rule matches."));
    let unnamed = grammar(vec![(
        "root",
        vec![vec![Rule { name: None, rule: Some("a".to_string()), lf: false, tokens: None }]],
    )]);
    assert_eq!(parse("a", &unnamed, "root", &word()).err(), Some("No name field."));
    let no_pattern = grammar(vec![(
        "root",
        vec![vec![Rule { name: Some("a".to_string()), rule: None, lf: false, tokens: None }]],
    )]);
    assert_eq!(parse("a", &no_pattern, "root", &word()).err(), Some("No rule field."));
}

#[test]
fn parse_unbalanced_brackets() {
    let g = grammar(vec![("root", vec![vec![rule("assign", "{x:ident} to {y:ident}")]])]);
    assert_eq!(parse("a ) to b", &g, "root", &word()).err(), Some("Parentheses do not match."));
}

#[test]
fn parse_literal_that_is_no_token_is_not_compared() {
    // "=" is no token, so the rule's "=" is never compared with the text; the
    // last placeholder then takes "= b", which is no name.
    let g = grammar(vec![("root", vec![vec![rule("assign", "{x:ident} = {y:ident}")]])]);
    assert_eq!(parse("a = b", &g, "root", &word()).err(), Some("No rule matches."));
}

#[test]
fn parse_past_the_end_is_a_fault() {
    let g = grammar(vec![("root", vec![vec![rule("two", "a b")]])]);
    assert!(matches!(try_parse("a", &g, "root", &word()), ParseResult::Fault));
}

#[test]
fn first_phrase_cyclic_types_fault() {
    // Each type starts with a phrase of the other: reading would nest without
    // end, which is a fault.
    let g = prepared(grammar(vec![
        ("a", vec![vec![rule("ab", "{x:b}")]]),
        ("b", vec![vec![rule("ba", "{y:a}")]]),
    ]));
    assert!(matches!(try_first_phrase("z", &g, &word(), "a", false), Err(PhraseError::Fault)));
}

#[test]
fn first_phrase_unprepared_rules_fault() {
    let g = grammar(vec![("root", vec![vec![rule("print", "print{x:ident}")]])]);
    assert!(matches!(try_first_phrase("print hello", &g, &word(), "root", false), Err(PhraseError::Fault)));
    // A type that is not read may stay unprepared.
    let mut g = prepared(grammar(vec![("root", vec![vec![rule("print", "print{x:ident}")]])]));
    g.types.push(RuleType { name: "other".to_string(), rulesets: vec![vec![rule("x", "x")]] });
    let (n, t) = first_phrase("print hello", &g, &word(), "root", false).unwrap();
    assert_eq!(n, 11);
    assert_eq!(t.rule, "print");
}

#[test]
fn first_phrase_unnamed_rule_that_reads_faults() {
    let unnamed = Rule { name: None, rule: Some("print{x:ident}".to_string()), lf: false, tokens: None };
    let g = prepared(grammar(vec![("root", vec![vec![unnamed]])]));
    assert!(matches!(try_first_phrase("print hello", &g, &word(), "root", false), Err(PhraseError::Fault)));
}

#[test]
fn first_phrase_unnamed_rule_that_drops_out_is_fine() {
    let unnamed = Rule { name: None, rule: Some("show{x:ident}".to_string()), lf: false, tokens: None };
    let g = prepared(grammar(vec![("root", vec![vec![rule("print", "print{x:ident}"), unnamed]])]));
    let (n, t) = first_phrase("print hello", &g, &word(), "root", false).unwrap();
    assert_eq!(n, 11);
    assert_eq!(t.rule, "print");
    assert!(matches!(try_first_phrase("show hello", &g, &word(), "root", false), Err(PhraseError::Fault)));
}

#[test]
fn try_first_phrase_agrees_with_first_phrase() {
    let g = prepared(grammar(vec![("root", vec![vec![rule("print", "print{x:ident}")]])]));
    match try_first_phrase("print hello", &g, &word(), "root", true) {
        Ok((n, t)) => {
            assert_eq!(n, 11);
            assert_eq!(t.rule, "");
        },
        Err(_) => panic!("expected a phrase"),
    }
    assert!(matches!(try_first_phrase("show hello", &g, &word(), "root", false), Err(PhraseError::NoMatch)));
    assert!(matches!(try_first_phrase("(}", &g, &word(), "root", false), Err(PhraseError::Unbalanced)));
}

#[test]
fn parse_cyclic_type_is_a_fault() {
    let g = grammar(vec![("a", vec![vec![rule("self", "{x:a}")]])]);
    assert!(matches!(try_parse("z", &g, "a", &word()), ParseResult::Fault));
}

#[test]
fn try_parse_agrees_with_parse() {
    let g = grammar(vec![("root", vec![vec![rule("print", "print {x:ident}")]])]);
    match try_parse("print hello", &g, "root", &word()) {
        ParseResult::Tree(t) => assert_eq!(t.rule, "root.print"),
        _ => panic!("expected a tree"),
    }
    match try_parse("print hello", &g, "none", &word()) {
        ParseResult::Fail(m) => assert_eq!(m, "No rule matches."),
        _ => panic!("expected a refusal"),
    }
}

#[test]
fn first_phrase_reads_three_levels_deep() {
    let g = prepared(grammar(vec![
        ("root", vec![vec![rule("say", "say{v:value}")]]),
        ("value", vec![vec![rule("num", "num{n:digit}")]]),
        ("digit", vec![vec![rule("one", "one{d:ident}")]]),
    ]));
    let (n, t) = first_phrase("say num one 5", &g, &word(), "root", false).unwrap();
    assert_eq!(n, 13);
    assert_eq!(t.rule, "say");
    let value = match &t.args[0].1 .0 {
        Expression::Exp(e) => e,
        Expression::Ident(_) => panic!("expected a phrase"),
    };
    assert_eq!(value.rule, "num");
    let digit = match &value.args[0].1 .0 {
        Expression::Exp(e) => e,
        Expression::Ident(_) => panic!("expected a phrase"),
    };
    assert_eq!(digit.rule, "one");
    assert_eq!(ident_arg(digit, "d"), Some((" 5".to_string(), "ident".to_string())));
}

#[test]
fn parse_reads_nested_phrases() {
    let g = grammar(vec![
        ("root", vec![vec![rule("say", "say {v:value}")]]),
        ("value", vec![vec![rule("num", "num {n:ident}")]]),
    ]);
    let t = parse("say num 5", &g, "root", &word()).unwrap();
    assert_eq!(t.rule, "root.say");
    let value = match &t.args[0].1 .0 {
        Expression::Exp(e) => e,
        Expression::Ident(_) => panic!("expected a phrase"),
    };
    assert_eq!(value.rule, "value.num");
    assert_eq!(ident_arg(value, "n"), Some(("5".to_string(), "ident".to_string())));
}

#[test]
fn first_phrase_takes_the_longest_rule() {
    let g = prepared(grammar(vec![("root", vec![vec![rule("a", "a"), rule("ab", "a b")]])]));
    let (n, t) = first_phrase("a b", &g, &word(), "root", false).unwrap();
    assert_eq!(n, 3);
    assert_eq!(t.rule, "ab");
}

#[test]
fn first_phrase_keys_are_placeholders_of_its_rule() {
    let g = prepared(grammar(vec![("root", vec![vec![rule("pair", "pair{a:ident},{b:ident}")]])]));
    let (_, t) = first_phrase("pair x,y", &g, &word(), "root", false).unwrap();
    assert_eq!(t.rule, "pair");
    let pieces: Vec<(bool, String)> =
        g.types[0].rulesets[0][0].tokens.as_ref().unwrap().iter().map(|p| (p.literal, p.text.clone())).collect();
    for (k, (_, ty)) in &t.args {
        assert!(pieces.contains(&(false, format!("{}:{}", k, ty))));
    }
    assert_eq!(t.args.len(), 2);
}

#[test]
fn first_phrase_ties_go_to_the_earliest_rule_set() {
    let g = prepared(grammar(vec![("root", vec![vec![rule("first", "go{x:ident}")], vec![rule("second", "go{y:ident}")]])]));
    let (n, t) = first_phrase("go on", &g, &word(), "root", false).unwrap();
    assert_eq!(n, 5);
    assert_eq!(t.rule, "first");
    let g2 = prepared(grammar(vec![("root", vec![vec![rule("second", "go{y:ident}")], vec![rule("first", "go{x:ident}")]])]));
    let (_, t2) = first_phrase("go on", &g2, &word(), "root", false).unwrap();
    assert_eq!(t2.rule, "second");
}
