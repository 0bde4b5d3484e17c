use phrase_compiler::assemble::{assemble, templates_partial_free};
use phrase_compiler::grammar::{Grammar, Rule, RuleType};
use phrase_compiler::render::{include_tag_in, keep_text, LineFeeds, RenderData, Renderer};
use phrase_compiler::tree::{Expression, SyntaxTree};

fn target(rules: Vec<Rule>) -> Grammar {
    Grammar { types: vec![RuleType { name: "root".to_string(), rulesets: vec![rules] }] }
}

fn template(name: &str, text: Option<&str>, lf: bool) -> Rule {
    Rule { name: Some(name.to_string()), rule: text.map(|s| s.to_string()), lf, tokens: None }
}

fn print_tree(arg: &str) -> SyntaxTree {
    let mut t = SyntaxTree::new("print".to_string());
    t.insert_arg("x".to_string(), Expression::Ident(arg.to_string()), "ident".to_string());
    t
}

#[test]
fn assemble_renders_a_phrase() {
    let lang = target(vec![template("print", Some("puts {{x-ident}}"), true)]);
    let mut r = Renderer::new();
    let mut lf = LineFeeds::new();
    let out = assemble(&print_tree("hello"), &lang, &mut r, "root", &mut lf).unwrap();
    assert_eq!(out, "puts hello\n");
    assert!(r.has_template("print-root"));
    assert_eq!(lf.get("print-root"), Some(true));
}

#[test]
fn assemble_does_not_escape() {
    let lang = target(vec![template("print", Some("puts {{x-ident}}"), false)]);
    let mut r = Renderer::new();
    let mut lf = LineFeeds::new();
    let out = assemble(&print_tree("a < b & \"c\""), &lang, &mut r, "root", &mut lf).unwrap();
    assert_eq!(out, "puts a < b & \"c\"");
}

#[test]
fn assemble_nested_phrase() {
    let lang = Grammar {
        types: vec![
            RuleType { name: "root".to_string(), rulesets: vec![vec![template("say", Some("echo({{v-value}})"), false)]] },
            RuleType { name: "value".to_string(), rulesets: vec![vec![template("num", Some("{{n-ident}}"), false)]] },
        ],
    };
    let mut inner = SyntaxTree::new("num".to_string());
    inner.insert_arg("n".to_string(), Expression::Ident("5".to_string()), "ident".to_string());
    let mut t = SyntaxTree::new("say".to_string());
    t.insert_arg("v".to_string(), Expression::Exp(inner), "value".to_string());
    let mut r = Renderer::new();
    let mut lf = LineFeeds::new();
    assert_eq!(assemble(&t, &lang, &mut r, "root", &mut lf).unwrap(), "echo(5)");
    assert!(r.has_template("say-root"));
    assert!(r.has_template("num-value"));
}

#[test]
fn assemble_reuses_a_registered_template() {
    let lang = target(vec![template("print", Some("puts {{x-ident}}"), false)]);
    let mut r = Renderer::new();
    let mut lf = LineFeeds::new();
    assert_eq!(assemble(&print_tree("a"), &lang, &mut r, "root", &mut lf).unwrap(), "puts a");
    let other = target(vec![template("print", Some("changed"), false)]);
    assert_eq!(assemble(&print_tree("b"), &other, &mut r, "root", &mut lf).unwrap(), "puts b");
}

#[test]
fn assemble_missing_template_text() {
    let lang = target(vec![template("print", None, false)]);
    let mut r = Renderer::new();
    let mut lf = LineFeeds::new();
    assert_eq!(assemble(&print_tree("a"), &lang, &mut r, "root", &mut lf), Err("No `rule` in object."));
}

#[test]
fn assemble_bad_template() {
    let lang = target(vec![template("print", Some("{{#if}}"), false)]);
    let mut r = Renderer::new();
    let mut lf = LineFeeds::new();
    assert_eq!(assemble(&print_tree("a"), &lang, &mut r, "root", &mut lf), Err("Render template Error!"));
    assert!(!r.has_template("print-root"));
}

#[test]
fn assemble_without_rule_cannot_render() {
    let lang = target(vec![template("other", Some("x"), false)]);
    let mut r = Renderer::new();
    let mut lf = LineFeeds::new();
    assert_eq!(assemble(&print_tree("a"), &lang, &mut r, "root", &mut lf), Err("Render Error!"));
}

#[test]
fn renderer_register_then_render() {
    let mut r = Renderer::new();
    assert!(!r.has_template("t"));
    assert!(r.register_template_string("t", "<{{a}}>"));
    assert!(r.has_template("t"));
    let mut d = RenderData::new();
    d.insert("a".to_string(), "1".to_string());
    d.insert("a".to_string(), "2".to_string());
    assert_eq!(r.render("t", &d), Some("<2>".to_string()));
    assert_eq!(r.render("missing", &d), None);
    assert!(!r.register_template_string("bad", "{{#each}}"));
    assert!(!r.has_template("bad"));
}

#[test]
fn line_feeds_keep_the_last_flag() {
    let mut lf = LineFeeds::new();
    assert_eq!(lf.get("a"), None);
    lf.insert("a".to_string(), true);
    lf.insert("b".to_string(), false);
    lf.insert("a".to_string(), false);
    assert_eq!(lf.get("a"), Some(false));
    assert_eq!(lf.get("b"), Some(false));
}

#[test]
fn keep_text_is_unchanged() {
    assert_eq!(keep_text("<&>"), "<&>");
}

#[test]
fn tree_args_stay_in_name_order() {
    let mut t = SyntaxTree::new("r".to_string());
    t.insert_arg("b".to_string(), Expression::Ident("1".to_string()), "ident".to_string());
    t.insert_arg("a".to_string(), Expression::Ident("2".to_string()), "ident".to_string());
    t.insert_arg("c".to_string(), Expression::Ident("3".to_string()), "ident".to_string());
    t.insert_arg("b".to_string(), Expression::Ident("4".to_string()), "x".to_string());
    let keys: Vec<&str> = t.args.iter().map(|a| a.0.as_str()).collect();
    assert_eq!(keys, vec!["a", "b", "c"]);
    match &t.args[1].1 .0 {
        Expression::Ident(s) => assert_eq!(s, "4"),
        Expression::Exp(_) => panic!("expected a name"),
    }
    assert_eq!(t.args[1].1 .1, "x");
}

#[test]
fn include_tags_are_found() {
    let tag = |s: &str| include_tag_in(&s.chars().collect::<Vec<char>>());
    assert!(tag("a {{> b-exp}} c"));
    assert!(tag("{{~ > b}}"));
    assert!(tag("{{#> layout}}x{{/layout}}"));
    assert!(tag("{{ # > layout}}x{{/layout}}"));
    assert!(!tag("puts {{x-ident}} -> {{y-ident}}"));
    assert!(!tag("{{#if a}}>{{/if}}"));
    assert!(!tag("{"));
    // Decorators, which may define inline partials, count as well.
    assert!(tag("{{#*inline \"p\"}}{{> p}}{{/inline}}"));
    assert!(tag("{{* log}}"));
    assert!(!tag("{{#each xs}}{{this}}{{/each}}"));
}

#[test]
fn templates_without_partials_are_free() {
    let lang = target(vec![template("print", Some("puts {{x-ident}}"), true), template("none", None, false)]);
    assert!(templates_partial_free(&lang));
    let with_partial = target(vec![template("a", Some("{{> b-root}}"), false), template("b", Some("{{> a-root}}"), false)]);
    assert!(!templates_partial_free(&with_partial));
}

#[test]
fn assemble_hands_up_a_child_error() {
    // The inner phrase has no rule of its type, so its rendering fails and
    // that error is the whole result.
    let lang = Grammar {
        types: vec![
            RuleType { name: "root".to_string(), rulesets: vec![vec![template("say", Some("echo({{v-value}})"), false)]] },
            RuleType { name: "value".to_string(), rulesets: vec![vec![template("num", None, false)]] },
        ],
    };
    let mut inner = SyntaxTree::new("num".to_string());
    inner.insert_arg("n".to_string(), Expression::Ident("5".to_string()), "ident".to_string());
    let mut t = SyntaxTree::new("say".to_string());
    t.insert_arg("v".to_string(), Expression::Exp(inner), "value".to_string());
    let mut r = Renderer::new();
    let mut lf = LineFeeds::new();
    assert_eq!(assemble(&t, &lang, &mut r, "root", &mut lf), Err("No `rule` in object."));
}

#[test]
fn assemble_bad_template_records_its_flag() {
    let lang = target(vec![template("print", Some("{{"), true)]);
    let mut r = Renderer::new();
    let mut lf = LineFeeds::new();
    assert_eq!(assemble(&print_tree("a"), &lang, &mut r, "root", &mut lf), Err("Render template Error!"));
    assert_eq!(lf.get("print-root"), Some(true));
    assert!(!r.has_template("print-root"));
}

#[test]
fn assemble_twice_gives_the_same_text() {
    let lang = Grammar {
        types: vec![
            RuleType { name: "root".to_string(), rulesets: vec![vec![template("say", Some("echo({{v-value}})"), true)]] },
            RuleType { name: "value".to_string(), rulesets: vec![vec![template("num", Some("{{n-ident}}"), false)]] },
        ],
    };
    let mut inner = SyntaxTree::new("num".to_string());
    inner.insert_arg("n".to_string(), Expression::Ident("7".to_string()), "ident".to_string());
    let mut t = SyntaxTree::new("say".to_string());
    t.insert_arg("v".to_string(), Expression::Exp(inner), "value".to_string());
    let mut r = Renderer::new();
    let mut lf = LineFeeds::new();
    let first = assemble(&t, &lang, &mut r, "root", &mut lf).unwrap();
    let second = assemble(&t, &lang, &mut r, "root", &mut lf).unwrap();
    assert_eq!(first, "echo(7)\n");
    assert_eq!(first, second);
    assert_eq!(lf.get("say-root"), Some(true));
    assert_eq!(lf.get("num-value"), Some(false));
}

#[test]
fn registered_phrase_ignores_the_grammar() {
    let lang = target(vec![template("print", Some("puts {{x-ident}}"), false)]);
    let mut r = Renderer::new();
    let mut lf = LineFeeds::new();
    assert_eq!(assemble(&print_tree("a"), &lang, &mut r, "root", &mut lf).unwrap(), "puts a");
    // A grammar whose templates include each other is never read here.
    let cyclic = target(vec![template("a", Some("{{> b-root}}"), false), template("b", Some("{{> a-root}}"), false)]);
    assert_eq!(assemble(&print_tree("b"), &cyclic, &mut r, "root", &mut lf).unwrap(), "puts b");
}

#[test]
fn render_data_replaces_a_value() {
    let mut r = Renderer::new();
    assert!(r.register_template_string("t", "{{a}}-{{b}}"));
    let mut d = RenderData::new();
    d.insert("a".to_string(), "1".to_string());
    d.insert("b".to_string(), "2".to_string());
    d.insert("a".to_string(), "3".to_string());
    assert_eq!(r.render("t", &d), Some("3-2".to_string()));
}
