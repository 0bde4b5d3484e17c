use phrase_compiler::language::read_language;

#[test]
fn read_language_takes_the_file_apart() {
    let text = r#"{"tokenable":"^[a-z]+$","ext":"rs","then":["build",1],
        "syntax":{"root":[[{"name":"p","rule":"p{x:ident}","lf":true},{"name":"q"}]],"exp":[]}}"#;
    let (lang, g) = read_language(text).unwrap();
    assert_eq!(lang.tokenable, Some("^[a-z]+$".to_string()));
    assert_eq!(lang.ext, "rs");
    assert_eq!(lang.commands, vec![Some("build".to_string()), None]);
    assert_eq!(g.types.len(), 2);
    assert_eq!(g.types[0].name, "root");
    assert_eq!(g.types[1].name, "exp");
    let rules = &g.types[0].rulesets[0];
    assert_eq!(rules.len(), 2);
    assert_eq!(rules[0].name, Some("p".to_string()));
    assert_eq!(rules[0].rule, Some("p{x:ident}".to_string()));
    assert!(rules[0].lf);
    assert_eq!(rules[1].rule, None);
    assert!(!rules[1].lf);
}

#[test]
fn read_language_refuses_what_is_no_json() {
    assert!(read_language("{").is_none());
    let (lang, g) = read_language("[]").unwrap();
    assert_eq!(lang.tokenable, None);
    assert_eq!(lang.ext, "null");
    assert!(g.types.is_empty());
}
