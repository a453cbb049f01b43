use taskdsl::{loads_all, ParseError, Parser, SExp};

fn sym(s: &str, line: usize) -> SExp {
    SExp::Symbol(s.to_string(), line)
}

fn text(s: &str) -> String {
    s.to_string()
}

fn items(e: &SExp) -> &Vec<SExp> {
    match e {
        SExp::List(v, _) => v,
        other => panic!("expected a list, got {:?}", other),
    }
}

fn symbol_text(e: &SExp) -> String {
    match e {
        SExp::Symbol(s, _) => s.clone(),
        other => panic!("expected a symbol, got {:?}", other),
    }
}

#[test]
fn parses_atoms_strings_and_quotes() {
    let forms = loads_all("(a \"b\" 'c)").unwrap();
    assert_eq!(forms.len(), 1);
    let v = items(&forms[0]);
    assert_eq!(v.len(), 3);
    assert_eq!(symbol_text(&v[0]), "a");
    match &v[1] {
        SExp::String(s, 1) => assert_eq!(s, "b"),
        other => panic!("{:?}", other),
    }
    match &v[2] {
        SExp::Quoted(inner, 1) => assert_eq!(symbol_text(inner), "c"),
        other => panic!("{:?}", other),
    }
}

#[test]
fn records_the_line_where_each_node_begins() {
    let forms = loads_all("(a\n  (b\n c))").unwrap();
    assert_eq!(forms[0].line(), 1);
    let v = items(&forms[0]);
    assert_eq!(v[1].line(), 2);
    assert_eq!(items(&v[1])[1].line(), 3);
}

#[test]
fn nil_and_true_tokens() {
    let forms = loads_all("(nil t)").unwrap();
    let v = items(&forms[0]);
    assert!(items(&v[0]).is_empty());
    assert_eq!(symbol_text(&v[1]), "true");
}

#[test]
fn integer_tokens_are_normalised() {
    let forms =
        loads_all("(007 -0 +5 -9223372036854775808 9223372036854775808 12a - +)").unwrap();
    let got: Vec<String> = items(&forms[0]).iter().map(symbol_text).collect();
    assert_eq!(
        got,
        vec![
            "7",
            "0",
            "5",
            "-9223372036854775808",
            "9223372036854775808",
            "12a",
            "-",
            "+"
        ]
    );
}

#[test]
fn comments_and_whitespace_are_skipped() {
    let forms = loads_all("; heading\n(a ; note\n b )\n; tail").unwrap();
    assert_eq!(forms.len(), 1);
    let v = items(&forms[0]);
    assert_eq!(v.len(), 2);
    assert_eq!(v[1].line(), 3);
    assert_eq!(symbol_text(&v[1]), "b");
}

#[test]
fn string_escapes() {
    let forms = loads_all("(\"a\\nb\\t\\\"q\\\"\\\\z\\x\\b\\f\\r\")").unwrap();
    match &items(&forms[0])[0] {
        SExp::String(s, _) => assert_eq!(s, "a\nb\t\"q\"\\zx\u{8}\u{c}\r"),
        other => panic!("{:?}", other),
    }
}

#[test]
fn empty_source_has_no_forms() {
    assert!(loads_all("").unwrap().is_empty());
    assert!(loads_all("  ; only a comment\n").unwrap().is_empty());
}

#[test]
fn unclosed_parenthesis() {
    match loads_all("(a\n(b)") {
        Err(ParseError::UnclosedParen(2)) => {}
        other => panic!("{:?}", other),
    }
}

#[test]
fn top_level_content_must_be_a_list() {
    match loads_all("x") {
        Err(ParseError::UnexpectedContent(m, 1)) => assert_eq!(m, "Expected '(' at position 0"),
        other => panic!("{:?}", other),
    }
    match loads_all("(a))") {
        Err(ParseError::UnexpectedContent(m, 1)) => assert_eq!(m, "Expected '(' at position 3"),
        other => panic!("{:?}", other),
    }
}

#[test]
fn unterminated_string() {
    match loads_all("\n\n(\"abc") {
        Err(ParseError::UnterminatedString(3)) => {}
        other => panic!("{:?}", other),
    }
    match loads_all("(\"abc\\") {
        Err(ParseError::UnterminatedString(1)) => {}
        other => panic!("{:?}", other),
    }
}

#[test]
fn empty_quote() {
    match loads_all("(a ')") {
        Err(ParseError::EmptyQuoted(1)) => {}
        other => panic!("{:?}", other),
    }
    match loads_all("(a '") {
        Err(ParseError::EmptyQuoted(1)) => {}
        other => panic!("{:?}", other),
    }
}

#[test]
fn parser_with_its_own_tokens() {
    let mut p = Parser::new("#f % note\n  x #t none", "none", "#t", Some("#f"), '%');
    assert_eq!(symbol_text(&p.parse_sexp().unwrap()), "false");
    assert_eq!(p.current_line(), 1);
    let x = p.parse_sexp().unwrap();
    assert_eq!(x.line(), 2);
    assert_eq!(symbol_text(&x), "x");
    assert_eq!(symbol_text(&p.parse_sexp().unwrap()), "true");
    assert!(items(&p.parse_sexp().unwrap()).is_empty());
    match p.parse_sexp() {
        Err(ParseError::UnexpectedEOF(2)) => {}
        other => panic!("{:?}", other),
    }
}

#[test]
fn stray_closing_parenthesis() {
    let mut p = Parser::new("\n)", "nil", "t", None, ';');
    match p.parse_sexp() {
        Err(ParseError::UnexpectedCloseParen(2)) => {}
        other => panic!("{:?}", other),
    }
}

#[test]
fn symbols_keep_their_text() {
    let forms = loads_all("(a\"b x'y [k v])").unwrap();
    let got: Vec<String> = items(&forms[0]).iter().map(symbol_text).collect();
    assert_eq!(got, vec![text("a\"b"), text("x'y"), text("[k"), text("v]")]);
    assert_eq!(sym("a", 1).line(), 1);
}
