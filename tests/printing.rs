use taskdsl::{dumps, dumps_pretty, loads_all, SExp};

fn same_shape(a: &SExp, b: &SExp) -> bool {
    match (a, b) {
        (SExp::Symbol(x, _), SExp::Symbol(y, _)) => x == y,
        (SExp::String(x, _), SExp::String(y, _)) => x == y,
        (SExp::Quoted(x, _), SExp::Quoted(y, _)) => same_shape(x, y),
        (SExp::List(x, _), SExp::List(y, _)) => {
            x.len() == y.len() && x.iter().zip(y.iter()).all(|(p, q)| same_shape(p, q))
        }
        _ => false,
    }
}

fn one(src: &str) -> SExp {
    let mut forms = loads_all(src).unwrap();
    assert_eq!(forms.len(), 1);
    forms.remove(0)
}

#[test]
fn compact_rendering() {
    let e = one("(a \"x\\\"y\\n\" 'b (c) ())");
    assert_eq!(dumps(&e, false), "(a \"x\\\"y\\n\" 'b (c) ())");
}

#[test]
fn symbols_escape_special_characters() {
    let e = one("(equal? a#b [k)");
    assert_eq!(dumps(&e, false), "(equal\\? a\\#b \\[k)");
}

#[test]
fn pretty_rendering_indents_children() {
    let e = one("(a (b \"c\") ())");
    assert_eq!(dumps(&e, true), "(\n  a\n  (\n    b\n    \"c\"\n  )\n  ()\n)");
    assert_eq!(dumps_pretty(&one("(a)"), "\t", 1), "(\n\t\ta\n\t)");
}

#[test]
fn rendering_parses_back_to_the_same_tree() {
    let src = "(task build \"Build \\\"it\\\"\\n\" (cmd \"make {target}\")\n  (steps a b) '(x \"y\") (meta (k v)))";
    let e = one(src);
    let compact = one(&dumps(&e, false));
    assert!(same_shape(&e, &compact));
    let pretty = one(&dumps(&e, true));
    assert!(same_shape(&e, &pretty));
}
