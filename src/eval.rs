//! The expression evaluator: strings are interpolated, symbols looked up, quoted
//! lists taken literally, and lists headed by a builtin's name applied.

use vstd::prelude::*;
use crate::context::{Context, opt_table};
use crate::error::{EvalError, Fail, FailKind, fail, other};
use crate::host::{Answer, Ask, Halt, Host, Reply, Request, Stop, take_answer};
use crate::interp::{interp_fail, interpolate, interpolation};
use crate::sexp::{Node, SExp, nodes_of, lemma_nodes_of};
use crate::table::Table;
use crate::text::{is_ws, is_whitespace, chars_of, is_word, string_of, text, trim, trim_string};

verus! {

/// A runtime value.
#[derive(Debug)]
pub enum Value {
    Str(String),
    List(Vec<String>),
    Nothing,
}

pub enum Val {
    Str(Seq<char>),
    List(Seq<Seq<char>>),
    Nothing,
}

impl View for Value {
    type V = Val;

    open spec fn view(&self) -> Val {
        match self {
            Value::Str(s) => Val::Str(s@),
            Value::List(v) => Val::List(v.deep_view()),
            Value::Nothing => Val::Nothing,
        }
    }
}

impl Value {
    /// The text of a string value; any other value is not a string.
    pub fn as_str(&self) -> (r: Result<&String, EvalError>)
        ensures
            self is Str ==> r is Ok && r->Ok_0@ == self->Str_0@,
            !(self is Str) ==> r is Err && r->Err_0@ == fail(FailKind::Other, 0),
    {
        match self {
            Value::Str(s) => Ok(s),
            _ => Err(other("Expected string value", 0)),
        }
    }
}

/// What evaluation reads: variables, configuration fields and the answers so far.
pub struct Scope {
    pub env: Map<Seq<char>, Seq<char>>,
    pub conf: Option<Map<Seq<char>, Seq<char>>>,
    pub answers: Seq<Answer>,
}

pub open spec fn scope_of(env: &Table<String>, ctx: &Context, host: &Host) -> Scope {
    Scope { env: env@, conf: opt_table(ctx.config), answers: host.answers() }
}

pub open spec fn outcome_view(r: Result<Value, Halt>) -> Result<Val, Stop> {
    match r {
        Ok(v) => Ok(v@),
        Err(h) => Err(h@),
    }
}

pub open spec fn stop_fail(kind: FailKind, line: nat, next: nat) -> (Result<Val, Stop>, nat) {
    (Err(Stop::Fail(fail(kind, line))), next)
}

pub open spec fn is_literal(n: Node) -> bool {
    n is Sym || n is Str
}

pub open spec fn literal_text(n: Node) -> Seq<char> {
    match n {
        Node::Sym(t, _) => t,
        Node::Str(t, _) => t,
        _ => Seq::empty(),
    }
}

pub open spec fn skip_ws_from(s: Seq<char>, p: int) -> int
    decreases s.len() - p,
{
    if 0 <= p < s.len() && is_ws(s[p]) {
        skip_ws_from(s, p + 1)
    } else {
        p
    }
}

pub open spec fn word_end(s: Seq<char>, p: int) -> int
    decreases s.len() - p,
{
    if 0 <= p < s.len() && !is_ws(s[p]) {
        word_end(s, p + 1)
    } else {
        p
    }
}

/// The whitespace-separated words of `s` from `p`.
pub open spec fn words_from(s: Seq<char>, p: int) -> Seq<Seq<char>>
    decreases s.len() - p,
{
    let a = skip_ws_from(s, p);
    let b = word_end(s, a);
    if 0 <= p <= a < s.len() && a < b <= s.len() {
        seq![s.subrange(a, b)] + words_from(s, b)
    } else {
        Seq::empty()
    }
}

pub open spec fn words(s: Seq<char>) -> Seq<Seq<char>> {
    words_from(s, 0)
}

/// An argument that must evaluate to a string: its text, or why not.
pub open spec fn arg_str(o: (Result<Val, Stop>, nat), line: nat) -> (Result<Seq<char>, Stop>, nat) {
    match o.0 {
        Ok(Val::Str(t)) => (Ok(t), o.1),
        Ok(_) => (Err(Stop::Fail(fail(FailKind::Other, line))), o.1),
        Err(s) => (Err(s), o.1),
    }
}

/// The value of an outside answer that must be text; anything else is an execution error.
pub open spec fn answer_text(
    o: (Result<Answer, Stop>, nat),
    line: nat,
    then: spec_fn(Seq<char>) -> Val,
) -> (Result<Val, Stop>, nat) {
    match o.0 {
        Ok(Answer::Text(t)) => (Ok(then(t)), o.1),
        Ok(_) => stop_fail(FailKind::ExecutionError, line, o.1),
        Err(s) => (Err(s), o.1),
    }
}

pub open spec fn eval_node(n: Node, sc: Scope, next: nat) -> (Result<Val, Stop>, nat)
    decreases n, 0int, 0int,
{
    match n {
        Node::Str(t, l) => match interpolation(t, sc.env) {
            Ok(r) => (Ok(Val::Str(r)), next),
            Err(f) => (Err(Stop::Fail(interp_fail(f, l))), next),
        },
        Node::Sym(t, l) => if sc.env.contains_key(t) {
            (Ok(Val::Str(sc.env[t])), next)
        } else {
            stop_fail(FailKind::UndefinedVariable(t), l, next)
        },
        Node::Quote(b, l) => match *b {
            Node::List(items, _) => quoted_list(items, l, next),
            _ => eval_node(*b, sc, next),
        },
        Node::List(items, _) => if items.len() == 0 {
            (Ok(Val::Nothing), next)
        } else {
            match items[0] {
                Node::Sym(f, fl) => eval_call(f, fl, items, sc, next),
                _ => stop_fail(FailKind::InvalidFunctionCall, items[0].line(), next),
            }
        },
    }
}

/// A quoted list: the texts of its items, which must all be symbols or strings.
pub open spec fn quoted_list(items: Seq<Node>, l: nat, next: nat) -> (Result<Val, Stop>, nat) {
    if forall|i: int| 0 <= i < items.len() ==> is_literal(#[trigger] items[i]) {
        (Ok(Val::List(Seq::new(items.len(), |i: int| literal_text(items[i])))), next)
    } else {
        stop_fail(FailKind::NonLiteralInQuoted, l, next)
    }
}

/// A call of the builtin `f`, written on line `fl`, with `items` the whole list.
pub open spec fn eval_call(f: Seq<char>, fl: nat, items: Seq<Node>, sc: Scope, next: nat) -> (
    Result<Val, Stop>,
    nat,
)
    decreases items, 2int, 0int,
{
    if f == "or"@ {
        eval_or(items, 1, sc, next)
    } else if f == "and"@ {
        eval_and(items, 1, Val::Nothing, sc, next)
    } else if f == "if"@ {
        if items.len() != 4 {
            stop_fail(FailKind::InvalidFunctionCall, fl, next)
        } else {
            let c = arg_str(eval_node(items[1], sc, next), items[1].line());
            match c.0 {
                Ok(t) => if trim(t) == "true"@ {
                    eval_node(items[2], sc, c.1)
                } else {
                    eval_node(items[3], sc, c.1)
                },
                Err(s) => (Err(s), c.1),
            }
        }
    } else if f == "equal?"@ {
        if items.len() != 3 {
            stop_fail(FailKind::InvalidFunctionCall, fl, next)
        } else {
            let a = arg_str(eval_node(items[1], sc, next), items[1].line());
            match a.0 {
                Ok(at) => {
                    let b = arg_str(eval_node(items[2], sc, a.1), items[2].line());
                    match b.0 {
                        Ok(bt) => (
                            Ok(
                                Val::Str(
                                    if trim(at) == trim(bt) {
                                        "true"@
                                    } else {
                                        "false"@
                                    },
                                ),
                            ),
                            b.1,
                        ),
                        Err(s) => (Err(s), b.1),
                    }
                },
                Err(s) => (Err(s), a.1),
            }
        }
    } else if f == "env"@ || f == "conf"@ || f == "shell"@ || f == "from-shell"@ {
        if items.len() != 2 {
            stop_fail(FailKind::InvalidFunctionCall, fl, next)
        } else {
            let a = arg_str(eval_node(items[1], sc, next), items[1].line());
            match a.0 {
                Ok(t) => apply_unary(f, fl, t, sc, a.1),
                Err(s) => (Err(s), a.1),
            }
        }
    } else if f == "git-root"@ {
        answer_text(take_answer(sc.answers, next, Ask::GitRoot), fl, |o: Seq<char>| Val::Str(trim(o)))
    } else if f == "current-timestamp"@ {
        answer_text(take_answer(sc.answers, next, Ask::Timestamp), fl, |o: Seq<char>| Val::Str(o))
    } else {
        stop_fail(FailKind::UnknownFunction(f), fl, next)
    }
}

/// `env`, `conf`, `shell` or `from-shell` applied to the text of its argument.
pub open spec fn apply_unary(f: Seq<char>, fl: nat, t: Seq<char>, sc: Scope, next: nat) -> (
    Result<Val, Stop>,
    nat,
) {
    if f == "env"@ {
        let o = take_answer(sc.answers, next, Ask::EnvVar(t));
        match o.0 {
            Ok(Answer::Text(v)) => (Ok(Val::Str(v)), o.1),
            Ok(_) => (Ok(Val::Nothing), o.1),
            Err(s) => (Err(s), o.1),
        }
    } else if f == "conf"@ {
        (
            Ok(
                match sc.conf {
                    Some(m) => if m.contains_key(t) {
                        Val::Str(m[t])
                    } else {
                        Val::Nothing
                    },
                    None => Val::Nothing,
                },
            ),
            next,
        )
    } else if f == "shell"@ {
        answer_text(take_answer(sc.answers, next, Ask::Shell(t)), fl, |o: Seq<char>| Val::Str(trim(o)))
    } else {
        answer_text(take_answer(sc.answers, next, Ask::Shell(t)), fl, |o: Seq<char>| Val::List(words(o)))
    }
}

/// `or` from the `i`th item: the first value that is not `None`.
pub open spec fn eval_or(items: Seq<Node>, i: int, sc: Scope, next: nat) -> (Result<Val, Stop>, nat)
    decreases items, 1int, items.len() - i,
{
    if i < 0 || i >= items.len() {
        (Ok(Val::Nothing), next)
    } else {
        let r = eval_node(items[i], sc, next);
        match r.0 {
            Ok(v) => if v is Nothing {
                eval_or(items, i + 1, sc, r.1)
            } else {
                (Ok(v), r.1)
            },
            Err(s) => (Err(s), r.1),
        }
    }
}

/// `and` from the `i`th item, `last` being the value before it: `None` at the
/// first `None`, else the last value.
pub open spec fn eval_and(items: Seq<Node>, i: int, last: Val, sc: Scope, next: nat) -> (
    Result<Val, Stop>,
    nat,
)
    decreases items, 1int, items.len() - i,
{
    if i < 0 || i >= items.len() {
        (Ok(last), next)
    } else {
        let r = eval_node(items[i], sc, next);
        match r.0 {
            Ok(v) => if v is Nothing {
                (Ok(Val::Nothing), r.1)
            } else {
                eval_and(items, i + 1, v, sc, r.1)
            },
            Err(s) => (Err(s), r.1),
        }
    }
}

/// The whitespace-separated words of `s`.
pub fn split_words(s: &String) -> (r: Vec<String>)
    ensures
        r.deep_view() == words(s@),
{
    let v = chars_of(s.as_str());
    let ghost sv = v@;
    let n = v.len();
    let mut r: Vec<String> = Vec::new();
    let mut p: usize = 0;
    proof {
        assert(r.deep_view() =~= Seq::<Seq<char>>::empty());
        assert(r.deep_view() + words_from(sv, 0) =~= words(s@));
    }
    while p < n
        invariant
            v@ == sv,
            sv == s@,
            n == sv.len(),
            p <= n,
            r.deep_view() + words_from(sv, p as int) == words(s@),
        ensures
            r.deep_view() == words(s@),
        decreases n - p,
    {
        let mut a = p;
        while a < n && is_whitespace(v[a])
            invariant
                v@ == sv,
                n == sv.len(),
                p <= a <= n,
                skip_ws_from(sv, a as int) == skip_ws_from(sv, p as int),
            decreases n - a,
        {
            a = a + 1;
        }
        if a >= n {
            assert(words_from(sv, p as int) =~= Seq::<Seq<char>>::empty());
            assert(r.deep_view() + words_from(sv, p as int) =~= r.deep_view());
            break;
        }
        let mut b = a;
        let mut w: Vec<char> = Vec::new();
        while b < n && !is_whitespace(v[b])
            invariant
                v@ == sv,
                n == sv.len(),
                a <= b <= n,
                w@ == sv.subrange(a as int, b as int),
                word_end(sv, b as int) == word_end(sv, a as int),
            decreases n - b,
        {
            w.push(v[b]);
            b = b + 1;
            assert(w@ =~= sv.subrange(a as int, b as int));
        }
        let ghost before = r.deep_view();
        let ws = string_of(w.as_slice());
        r.push(ws);
        proof {
            assert(r.deep_view() =~= before.push(sv.subrange(a as int, b as int)));
            assert(words_from(sv, p as int) == seq![sv.subrange(a as int, b as int)] + words_from(
                sv,
                b as int,
            ));
            assert(r.deep_view() + words_from(sv, b as int) =~= before + words_from(sv, p as int));
        }
        p = b;
    }
    r
}

/// The text of an argument's value, which must be a string.
fn str_result(r: Result<Value, Halt>, line: usize) -> (out: Result<String, Halt>)
    ensures
        match arg_str((outcome_view(r), 0), line as nat).0 {
            Ok(t) => out is Ok && out->Ok_0@ == t,
            Err(s) => out is Err && out->Err_0@ == s,
        },
{
    match r {
        Ok(Value::Str(t)) => Ok(t),
        Ok(_) => Err(Halt::Failed(other("Expected string", line))),
        Err(h) => Err(h),
    }
}

fn exec_failure(reply: &Reply, line: usize) -> (r: Halt)
    ensures
        r@ == Stop::Fail(fail(FailKind::ExecutionError, line as nat)),
{
    let message = match reply {
        Reply::Failed(m) => m.clone(),
        _ => text("no output"),
    };
    Halt::Failed(EvalError::ExecutionError { message, line })
}

/// Evaluates `exp` with the variables of `env`, the configuration of `ctx` and
/// the answers of `host`, consuming one answer per outside request.
pub fn eval_expr(exp: &SExp, env: &Table<String>, ctx: &Context, host: &mut Host) -> (r: Result<
    Value,
    Halt,
>)
    requires
        old(host).next <= old(host).replies@.len(),
    ensures
        final(host).replies == old(host).replies,
        final(host).next <= final(host).replies@.len(),
        (outcome_view(r), final(host).next as nat) == eval_node(
            exp@,
            scope_of(env, ctx, old(host)),
            old(host).next as nat,
        ),
    decreases exp,
{
    let ghost sc = scope_of(env, ctx, host);
    let ghost next0 = host.next as nat;
    match exp {
        SExp::String(s, line) => match interpolate(s.as_str(), env, *line) {
            Ok(t) => Ok(Value::Str(t)),
            Err(e) => Err(Halt::Failed(e)),
        },
        SExp::Symbol(s, line) => match env.get(s) {
            Some(v) => Ok(Value::Str(v.clone())),
            None => Err(
                Halt::Failed(EvalError::UndefinedVariable { message: s.clone(), line: *line }),
            ),
        },
        SExp::Quoted(inner, line) => match &**inner {
            SExp::List(items, _) => {
                let ghost ns = nodes_of(items@);
                proof {
                    lemma_nodes_of(items@);
                }
                assert((**inner)@ == Node::List(ns, (**inner)->List_1 as nat));
                assert(exp@ == Node::Quote(Box::new((**inner)@), *line as nat));
                assert(eval_node(exp@, sc, next0) == quoted_list(ns, *line as nat, next0));
                let mut out: Vec<String> = Vec::new();
                let mut i: usize = 0;
                while i < items.len()
                    invariant
                        i <= items@.len(),
                        host.replies == old(host).replies,
                        host.next == old(host).next,
                        next0 == host.next as nat,
                        host.next <= host.replies@.len(),
                        eval_node(exp@, sc, next0) == quoted_list(ns, *line as nat, next0),
                        sc == scope_of(env, ctx, old(host)),
                        next0 == old(host).next as nat,
                        ns == nodes_of(items@),
                        ns.len() == items@.len(),
                        forall|j: int| 0 <= j < items@.len() ==> #[trigger] ns[j] == items@[j]@,
                        forall|j: int| 0 <= j < i ==> is_literal(#[trigger] ns[j]),
                        out@.len() == i,
                        forall|j: int| 0 <= j < i ==> #[trigger] out@[j]@ == literal_text(ns[j]),
                    decreases items@.len() - i,
                {
                    let t = match &items[i] {
                        SExp::String(t, _) => t.clone(),
                        SExp::Symbol(t, _) => t.clone(),
                        _ => {
                            assert(!is_literal(ns[i as int]));
                            return Err(
                                Halt::Failed(
                                    EvalError::NonLiteralInQuoted {
                                        message: text("(in quoted expression)"),
                                        line: *line,
                                    },
                                ),
                            );
                        },
                    };
                    out.push(t);
                    i = i + 1;
                }
                proof {
                    let lit = Seq::new(ns.len(), |j: int| literal_text(ns[j]));
                    assert(out.deep_view() =~= lit);
                }
                Ok(Value::List(out))
            },
            _ => eval_expr(inner, env, ctx, host),
        },
        SExp::List(items, _) => {
            let ghost ns = nodes_of(items@);
            proof {
                lemma_nodes_of(items@);
            }
            if items.len() == 0 {
                return Ok(Value::Nothing);
            }
            proof {
                assert(decreases_to!(*exp => (*exp)->List_0));
                assert(decreases_to!(*items => items@));
            }
            let (f, fl) = match &items[0] {
                SExp::Symbol(f, fl) => (f, *fl),
                other_head => {
                    return Err(
                        Halt::Failed(
                            EvalError::InvalidFunctionCall {
                                message: text("Function call must start with a symbol"),
                                line: other_head.line(),
                            },
                        ),
                    );
                },
            };
            assert(ns[0] == Node::Sym(f@, fl as nat));
            assert(eval_node(exp@, sc, next0) == eval_call(f@, fl as nat, ns, sc, next0));
            if is_word(f, "or") {
                assert(eval_call(f@, fl as nat, ns, sc, next0) == eval_or(ns, 1, sc, next0));
                let mut i: usize = 1;
                while i < items.len()
                    invariant
                        1 <= i <= items@.len(),
                        *exp is List,
                        (*exp)->List_0 == *items,
                        ns == nodes_of(items@),
                        ns.len() == items@.len(),
                        forall|j: int| 0 <= j < items@.len() ==> #[trigger] ns[j] == items@[j]@,
                        host.replies == old(host).replies,
                        host.next <= host.replies@.len(),
                        sc == scope_of(env, ctx, host),
                        sc == scope_of(env, ctx, old(host)),
                        next0 == old(host).next as nat,
                        eval_or(ns, i as int, sc, host.next as nat) == eval_node(exp@, sc, next0),
                    decreases items@.len() - i,
                {
                    proof {
                        assert(decreases_to!(items@ => items@[i as int]));
                    }
                    match eval_expr(&items[i], env, ctx, host) {
                        Ok(v) => {
                            if let Value::Nothing = v {
                                i = i + 1;
                            } else {
                                return Ok(v);
                            }
                        },
                        Err(h) => {
                            return Err(h);
                        },
                    }
                }
                Ok(Value::Nothing)
            } else if is_word(f, "and") {
                proof {
                    reveal_strlit("or");
                    reveal_strlit("and");
                    assert(f@ != "or"@);
                }
                assert(eval_call(f@, fl as nat, ns, sc, next0) == eval_and(ns, 1, Val::Nothing, sc, next0));
                let mut last = Value::Nothing;
                let mut i: usize = 1;
                while i < items.len()
                    invariant
                        1 <= i <= items@.len(),
                        *exp is List,
                        (*exp)->List_0 == *items,
                        ns == nodes_of(items@),
                        ns.len() == items@.len(),
                        forall|j: int| 0 <= j < items@.len() ==> #[trigger] ns[j] == items@[j]@,
                        host.replies == old(host).replies,
                        host.next <= host.replies@.len(),
                        sc == scope_of(env, ctx, host),
                        sc == scope_of(env, ctx, old(host)),
                        next0 == old(host).next as nat,
                        eval_and(ns, i as int, last@, sc, host.next as nat) == eval_node(
                            exp@,
                            sc,
                            next0,
                        ),
                    decreases items@.len() - i,
                {
                    proof {
                        assert(decreases_to!(items@ => items@[i as int]));
                    }
                    match eval_expr(&items[i], env, ctx, host) {
                        Ok(v) => {
                            if let Value::Nothing = v {
                                return Ok(Value::Nothing);
                            }
                            last = v;
                            i = i + 1;
                        },
                        Err(h) => {
                            return Err(h);
                        },
                    }
                }
                Ok(last)
            } else if is_word(f, "if") {
                if items.len() != 4 {
                    return Err(
                        Halt::Failed(
                            EvalError::InvalidFunctionCall {
                                message: text("if requires exactly 3 arguments"),
                                line: fl,
                            },
                        ),
                    );
                }
                proof {
                    assert(decreases_to!(items@ => items@[1]));
                }
                let c = str_result(eval_expr(&items[1], env, ctx, host), items[1].line());
                match c {
                    Ok(t) => {
                        let tt = trim_string(&t);
                        if is_word(&tt, "true") {
                            proof {
                                assert(decreases_to!(items@ => items@[2]));
                            }
                            eval_expr(&items[2], env, ctx, host)
                        } else {
                            proof {
                                assert(decreases_to!(items@ => items@[3]));
                            }
                            eval_expr(&items[3], env, ctx, host)
                        }
                    },
                    Err(h) => Err(h),
                }
            } else if is_word(f, "equal?") {
                if items.len() != 3 {
                    return Err(
                        Halt::Failed(
                            EvalError::InvalidFunctionCall {
                                message: text("equal? requires exactly 2 arguments"),
                                line: fl,
                            },
                        ),
                    );
                }
                proof {
                    assert(decreases_to!(items@ => items@[1]));
                    assert(decreases_to!(items@ => items@[2]));
                }
                let a = str_result(eval_expr(&items[1], env, ctx, host), items[1].line());
                match a {
                    Ok(at) => {
                        let b = str_result(eval_expr(&items[2], env, ctx, host), items[2].line());
                        match b {
                            Ok(bt) => {
                                let ta = trim_string(&at);
                                let tb = trim_string(&bt);
                                if ta == tb {
                                    Ok(Value::Str(text("true")))
                                } else {
                                    Ok(Value::Str(text("false")))
                                }
                            },
                            Err(h) => Err(h),
                        }
                    },
                    Err(h) => Err(h),
                }
            } else if is_word(f, "env") || is_word(f, "conf") || is_word(f, "shell") || is_word(
                f,
                "from-shell",
            ) {
                if items.len() != 2 {
                    return Err(
                        Halt::Failed(
                            EvalError::InvalidFunctionCall {
                                message: text("this function requires one argument"),
                                line: fl,
                            },
                        ),
                    );
                }
                proof {
                    assert(decreases_to!(items@ => items@[1]));
                }
                let a = str_result(eval_expr(&items[1], env, ctx, host), items[1].line());
                let t = match a {
                    Ok(t) => t,
                    Err(h) => {
                        return Err(h);
                    },
                };
                if is_word(f, "env") {
                    match host.take(Request::EnvVar(t)) {
                        Ok(Reply::Text(v)) => Ok(Value::Str(v.clone())),
                        Ok(_) => Ok(Value::Nothing),
                        Err(h) => Err(h),
                    }
                } else if is_word(f, "conf") {
                    match &ctx.config {
                        Some(m) => match m.get(&t) {
                            Some(v) => Ok(Value::Str(v.clone())),
                            None => Ok(Value::Nothing),
                        },
                        None => Ok(Value::Nothing),
                    }
                } else if is_word(f, "shell") {
                    match host.take(Request::Shell(t)) {
                        Ok(Reply::Text(o)) => Ok(Value::Str(trim_string(o))),
                        Ok(other_reply) => Err(exec_failure(other_reply, fl)),
                        Err(h) => Err(h),
                    }
                } else {
                    match host.take(Request::Shell(t)) {
                        Ok(Reply::Text(o)) => Ok(Value::List(split_words(o))),
                        Ok(other_reply) => Err(exec_failure(other_reply, fl)),
                        Err(h) => Err(h),
                    }
                }
            } else if is_word(f, "git-root") {
                match host.take(Request::GitRoot) {
                    Ok(Reply::Text(o)) => Ok(Value::Str(trim_string(o))),
                    Ok(other_reply) => Err(exec_failure(other_reply, fl)),
                    Err(h) => Err(h),
                }
            } else if is_word(f, "current-timestamp") {
                match host.take(Request::Timestamp) {
                    Ok(Reply::Text(o)) => Ok(Value::Str(o.clone())),
                    Ok(other_reply) => Err(exec_failure(other_reply, fl)),
                    Err(h) => Err(h),
                }
            } else {
                Err(Halt::Failed(EvalError::UnknownFunction { message: f.clone(), line: fl }))
            }
        },
    }
}

} // verus!
