use taskdsl::{interpolate, EvalError, Table};

fn env(pairs: &[(&str, &str)]) -> Table<String> {
    let mut t = Table::new();
    for (k, v) in pairs {
        t.insert(k.to_string(), v.to_string());
    }
    t
}

#[test]
fn text_without_placeholders_is_unchanged() {
    let e = env(&[("a", "x")]);
    assert_eq!(interpolate("plain {} text {", &e, 1).unwrap(), "plain {} text {");
}

#[test]
fn one_placeholder() {
    assert_eq!(interpolate("{a}", &env(&[("a", "x")]), 1).unwrap(), "x");
    assert_eq!(
        interpolate("run {a} and {a}!", &env(&[("a", "x")]), 1).unwrap(),
        "run x and x!"
    );
}

#[test]
fn substituted_text_is_interpolated_again() {
    assert_eq!(interpolate("{a}", &env(&[("a", "{b}"), ("b", "y")]), 1).unwrap(), "y");
}

#[test]
fn self_reference_exceeds_the_depth() {
    match interpolate("{a}", &env(&[("a", "{a}")]), 7) {
        Err(EvalError::InterpolationDepthExceeded { line: 7, .. }) => {}
        other => panic!("{:?}", other),
    }
}

fn chain(links: usize) -> Table<String> {
    let mut t = Table::new();
    for i in 1..links {
        t.insert(format!("a{}", i), format!("{{a{}}}", i + 1));
    }
    t.insert(format!("a{}", links), "end".to_string());
    t
}

#[test]
fn tenth_pass_is_the_last() {
    assert_eq!(interpolate("{a1}", &chain(10), 1).unwrap(), "end");
    match interpolate("{a1}", &chain(11), 1) {
        Err(EvalError::InterpolationDepthExceeded { .. }) => {}
        other => panic!("{:?}", other),
    }
}

#[test]
fn undefined_placeholder() {
    match interpolate("x {zz} y", &env(&[("a", "1")]), 4) {
        Err(EvalError::UndefinedVariable { message, line: 4 }) => assert_eq!(message, "zz"),
        other => panic!("{:?}", other),
    }
}

#[test]
fn placeholder_names_span_to_the_first_closing_brace() {
    match interpolate("{{a}}", &env(&[("a", "x")]), 1) {
        Err(EvalError::UndefinedVariable { message, .. }) => assert_eq!(message, "{a"),
        other => panic!("{:?}", other),
    }
}
