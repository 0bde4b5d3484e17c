use phrase_compiler::grammar::{Grammar, Part, Rule, RuleType};
use phrase_compiler::template::find_template;
use phrase_compiler::tokenable::Tokenable;

fn word() -> Tokenable {
    Tokenable::new("^[A-Za-z0-9_]+$").unwrap()
}

fn rule(name: Option<&str>, pattern: Option<&str>) -> Rule {
    Rule {
        name: name.map(|s| s.to_string()),
        rule: pattern.map(|s| s.to_string()),
        lf: false,
        tokens: None,
    }
}

fn parts(r: &Rule) -> Vec<(bool, String)> {
    r.tokens.as_ref().unwrap().iter().map(|p| (p.literal, p.text.clone())).collect()
}

#[test]
fn pieces_of_a_simple_rule() {
    let mut g = Grammar {
        types: vec![RuleType { name: "root".to_string(), rulesets: vec![vec![rule(Some("print"), Some("print{x:ident}"))]] }],
    };
    assert_eq!(find_template(&mut g, &word()), Ok(()));
    assert_eq!(
        parts(&g.types[0].rulesets[0][0]),
        vec![(true, "print".to_string()), (false, "x:ident".to_string())]
    );
}

#[test]
fn spaces_give_empty_literals() {
    let mut g = Grammar {
        types: vec![RuleType {
            name: "expr".to_string(),
            rulesets: vec![vec![rule(Some("add"), Some("{a:expr} + {b:expr}"))]],
        }],
    };
    assert_eq!(find_template(&mut g, &word()), Ok(()));
    assert_eq!(
        parts(&g.types[0].rulesets[0][0]),
        vec![
            (false, "a:expr".to_string()),
            (true, "".to_string()),
            (true, "+".to_string()),
            (true, "".to_string()),
            (false, "b:expr".to_string()),
        ]
    );
}

#[test]
fn unclosed_placeholder_is_dropped() {
    let mut g = Grammar {
        types: vec![RuleType { name: "root".to_string(), rulesets: vec![vec![rule(Some("r"), Some("go{x"))]] }],
    };
    assert_eq!(find_template(&mut g, &word()), Ok(()));
    assert_eq!(parts(&g.types[0].rulesets[0][0]), vec![(true, "go".to_string())]);
}

#[test]
fn missing_pattern_stops_preparing() {
    let mut g = Grammar {
        types: vec![RuleType {
            name: "root".to_string(),
            rulesets: vec![vec![rule(Some("a"), Some("a")), rule(Some("b"), None), rule(Some("c"), Some("c"))]],
        }],
    };
    assert_eq!(find_template(&mut g, &word()), Err("No rule field."));
    let rs = &g.types[0].rulesets[0];
    assert!(rs[0].tokens.is_some());
    assert!(rs[1].tokens.is_none());
    assert!(rs[2].tokens.is_none());
}

#[test]
fn preparing_twice_changes_nothing() {
    let mut g = Grammar {
        types: vec![RuleType {
            name: "expr".to_string(),
            rulesets: vec![vec![rule(Some("add"), Some("{a:expr} + {b:expr}"))], vec![rule(Some("n"), Some("{x:ident}"))]],
        }],
    };
    find_template(&mut g, &word()).unwrap();
    let once: Vec<Vec<(bool, String)>> = g.types[0].rulesets.iter().map(|rs| parts(&rs[0])).collect();
    find_template(&mut g, &word()).unwrap();
    let twice: Vec<Vec<(bool, String)>> = g.types[0].rulesets.iter().map(|rs| parts(&rs[0])).collect();
    assert_eq!(once, twice);
}

#[test]
fn escaped_brace_is_a_literal() {
    let t = Tokenable::new("^[a-z\\{]+$").unwrap();
    let mut g = Grammar {
        types: vec![RuleType { name: "root".to_string(), rulesets: vec![vec![rule(Some("r"), Some("a\\{b"))]] }],
    };
    find_template(&mut g, &t).unwrap();
    let p: Vec<Part> = g.types[0].rulesets[0].remove(0).tokens.unwrap();
    assert_eq!(p.len(), 1);
    assert!(p[0].literal);
    assert_eq!(p[0].text, "a{b");
}

#[test]
fn pieces_write_back_the_pattern() {
    let pattern = "call{f:ident}({a:exp},{b:exp});";
    let mut g = Grammar {
        types: vec![RuleType { name: "root".to_string(), rulesets: vec![vec![rule(Some("call"), Some(pattern))]] }],
    };
    assert_eq!(find_template(&mut g, &word()), Ok(()));
    let back: String = parts(&g.types[0].rulesets[0][0])
        .iter()
        .map(|(lit, text)| if *lit { text.clone() } else { format!("{{{}}}", text) })
        .collect();
    assert_eq!(back, pattern);
}
