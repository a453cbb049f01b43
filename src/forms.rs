//! The top-level declarations, processed in order into the context.

use vstd::prelude::*;
use crate::config::{env_pairs, fields_map, json_fields, parse_config, parse_env_file};
use crate::context::{Context, Ctx, TaskM};
use crate::decl::{group_of, group_record, process_task, task_of};
use crate::error::{EvalError, Fail, FailKind, fail, other};
use crate::eval::{Scope, Val, Value, eval_expr, eval_node};
use crate::host::{Answer, Ask, Halt, Host, Reply, Request, Stop, take_answer};
use crate::sexp::{Node, SExp, nodes_of, lemma_nodes_of};
use crate::text::{chars_of, clone_texts, contains_text, is_word, string_of};

verus! {

pub open spec fn stop_at(kind: FailKind, line: nat, next: nat) -> (Result<Ctx, Stop>, nat) {
    (Err(Stop::Fail(fail(kind, line))), next)
}

/// What evaluation inside a declaration reads: the variables defined so far.
pub open spec fn decl_scope(c: Ctx, answers: Seq<Answer>) -> Scope {
    Scope { env: c.defs, conf: c.config, answers }
}

/// `s` without the `[` characters at its start.
pub open spec fn trim_open(s: Seq<char>) -> Seq<char>
    decreases s.len(),
{
    if s.len() > 0 && s[0] == '[' {
        trim_open(s.drop_first())
    } else {
        s
    }
}

/// `s` without the `]` characters at its end.
pub open spec fn trim_close(s: Seq<char>) -> Seq<char>
    decreases s.len(),
{
    if s.len() > 0 && s.last() == ']' {
        trim_close(s.drop_last())
    } else {
        s
    }
}

/// The variable, and its type if any, of a `def` entry's key: `name` or `[name type]`.
pub open spec fn def_key(n: Node) -> Option<(Seq<char>, Option<Seq<char>>)> {
    match n {
        Node::Sym(s, _) => Some((s, None)),
        Node::List(inner, _) => if inner.len() == 2 && inner[0] is Sym && inner[1] is Sym {
            Some((trim_open(inner[0]->Sym_0), Some(trim_close(inner[1]->Sym_0))))
        } else {
            None
        },
        _ => None,
    }
}

/// The `types` entries `items[i..]`.
pub open spec fn types_from(items: Seq<Node>, i: int, c: Ctx, answers: Seq<Answer>, next: nat) -> (
    Result<Ctx, Stop>,
    nat,
)
    decreases items.len() - i,
{
    if i < 0 || i >= items.len() {
        (Ok(c), next)
    } else {
        match items[i] {
            Node::List(d, dl) => if d.len() != 2 || !(d[0] is Sym) {
                stop_at(FailKind::Other, dl, next)
            } else {
                let o = eval_node(d[1], decl_scope(c, answers), next);
                match o.0 {
                    Err(s) => (Err(s), o.1),
                    Ok(Val::Nothing) => stop_at(FailKind::Other, dl, o.1),
                    Ok(v) => {
                        let allowed = match v {
                            Val::List(xs) => xs,
                            Val::Str(x) => seq![x],
                            Val::Nothing => Seq::empty(),
                        };
                        types_from(
                            items,
                            i + 1,
                            Ctx { types: c.types.insert(d[0]->Sym_0, allowed), ..c },
                            answers,
                            o.1,
                        )
                    },
                }
            },
            _ => stop_at(FailKind::Other, 0, next),
        }
    }
}

/// The `def` entries `items[i..]`.
pub open spec fn defs_from(items: Seq<Node>, i: int, c: Ctx, answers: Seq<Answer>, next: nat) -> (
    Result<Ctx, Stop>,
    nat,
)
    decreases items.len() - i,
{
    if i < 0 || i >= items.len() {
        (Ok(c), next)
    } else {
        match items[i] {
            Node::List(parts, dl) => if parts.len() != 2 || def_key(parts[0]) is None {
                stop_at(FailKind::Other, dl, next)
            } else {
                let key = def_key(parts[0])->0;
                let var = key.0;
                let ty = key.1;
                let o = eval_node(parts[1], decl_scope(c, answers), next);
                match o.0 {
                    Err(s) => (Err(s), o.1),
                    Ok(v) => {
                        let t = match v {
                            Val::Str(t) => t,
                            _ => Seq::empty(),
                        };
                        if ty is Some && c.types.contains_key(ty->0) && !c.types[ty->0].contains(t) {
                            stop_at(FailKind::TypeError(var, t, c.types[ty->0]), dl, o.1)
                        } else {
                            defs_from(items, i + 1, Ctx { defs: c.defs.insert(var, t), ..c }, answers, o.1)
                        }
                    },
                }
            },
            _ => stop_at(FailKind::Other, 0, next),
        }
    }
}

/// The tasks declared among the children `items[i..]` of the group `g`.
pub open spec fn group_tasks(items: Seq<Node>, i: int, g: TaskM, tasks: Map<Seq<char>, TaskM>) -> Result<
    Map<Seq<char>, TaskM>,
    Fail,
>
    decreases items.len() - i,
{
    if i < 0 || i >= items.len() {
        Ok(tasks)
    } else {
        match items[i] {
            Node::List(ps, _) => if ps.len() > 0 && ps[0] is Sym && ps[0]->Sym_0 == "task"@ {
                match task_of(ps, Some(g)) {
                    Ok(t) => group_tasks(items, i + 1, g, tasks.insert(t.name, t)),
                    Err(f) => Err(f),
                }
            } else {
                group_tasks(items, i + 1, g, tasks)
            },
            _ => group_tasks(items, i + 1, g, tasks),
        }
    }
}

/// A `(group ...)` form on line `gl`.
pub open spec fn group_form(items: Seq<Node>, gl: nat, c: Ctx) -> Result<Ctx, Fail> {
    if items.len() < 3 || !(items[1] is Sym) {
        Err(fail(FailKind::Other, gl))
    } else {
        match group_of(items) {
            Err(_) => Err(fail(FailKind::Other, gl)),
            Ok(g) => match group_tasks(items, 3, g, c.tasks) {
                Ok(ts) => Ok(Ctx { groups: c.groups.insert(g.name, g), tasks: ts, ..c }),
                Err(_) => Err(fail(FailKind::Other, gl)),
            },
        }
    }
}

/// A `(load-env "<path>")` form, the path's string on line `sl`.
pub open spec fn load_env_form(path: Seq<char>, sl: nat, c: Ctx, answers: Seq<Answer>, next: nat) -> (
    Result<Ctx, Stop>,
    nat,
) {
    let o = take_answer(answers, next, Ask::ReadFile(path));
    match o.0 {
        Err(s) => (Err(s), o.1),
        Ok(Answer::Text(content)) => {
            let o2 = take_answer(answers, o.1, Ask::SetVars(env_pairs(content)));
            match o2.0 {
                Err(s) => (Err(s), o2.1),
                Ok(_) => (Ok(c), o2.1),
            }
        },
        Ok(_) => stop_at(FailKind::Other, sl, o.1),
    }
}

/// A `(load-config "<path>")` form, the path's string on line `sl`.
pub open spec fn load_config_form(path: Seq<char>, sl: nat, c: Ctx, answers: Seq<Answer>, next: nat) -> (
    Result<Ctx, Stop>,
    nat,
) {
    let o = take_answer(answers, next, Ask::ReadFile(path));
    match o.0 {
        Err(s) => (Err(s), o.1),
        Ok(Answer::Text(content)) => match json_fields(content) {
            Some(fs) => (Ok(Ctx { config: Some(fields_map(fs)), ..c }), o.1),
            None => stop_at(FailKind::Other, sl, o.1),
        },
        Ok(_) => stop_at(FailKind::Other, sl, o.1),
    }
}

/// One top-level form.
pub open spec fn form_step(form: Node, c: Ctx, answers: Seq<Answer>, next: nat) -> (
    Result<Ctx, Stop>,
    nat,
) {
    match form {
        Node::List(items, fl) => if items.len() == 0 {
            (Ok(c), next)
        } else {
            match items[0] {
                Node::Sym(name, nl) => if name == "base-cmd"@ {
                    if items.len() != 2 || !(items[1] is Str) {
                        stop_at(FailKind::Other, fl, next)
                    } else {
                        (Ok(Ctx { base_cmd: Some(items[1]->Str_0), ..c }), next)
                    }
                } else if name == "load-env"@ || name == "load-config"@ {
                    if items.len() != 2 || !(items[1] is Str) {
                        stop_at(FailKind::Other, fl, next)
                    } else if name == "load-env"@ {
                        load_env_form(items[1]->Str_0, items[1]->Str_1, c, answers, next)
                    } else {
                        load_config_form(items[1]->Str_0, items[1]->Str_1, c, answers, next)
                    }
                } else if name == "types"@ {
                    types_from(items, 1, c, answers, next)
                } else if name == "def"@ {
                    defs_from(items, 1, c, answers, next)
                } else if name == "task"@ {
                    match task_of(items, None) {
                        Ok(t) => (Ok(Ctx { tasks: c.tasks.insert(t.name, t), ..c }), next),
                        Err(f) => (Err(Stop::Fail(f)), next),
                    }
                } else if name == "group"@ {
                    match group_form(items, fl, c) {
                        Ok(c2) => (Ok(c2), next),
                        Err(f) => (Err(Stop::Fail(f)), next),
                    }
                } else {
                    stop_at(FailKind::Other, nl, next)
                },
                _ => stop_at(FailKind::Other, fl, next),
            }
        },
        _ => stop_at(FailKind::Other, 0, next),
    }
}

/// The forms `forms[i..]`, in order, from the context `c`.
pub open spec fn forms_from(forms: Seq<Node>, i: int, c: Ctx, answers: Seq<Answer>, next: nat) -> (
    Result<Ctx, Stop>,
    nat,
)
    decreases forms.len() - i,
{
    if i < 0 || i >= forms.len() {
        (Ok(c), next)
    } else {
        let o = form_step(forms[i], c, answers, next);
        match o.0 {
            Ok(c2) => forms_from(forms, i + 1, c2, answers, o.1),
            Err(s) => (Err(s), o.1),
        }
    }
}

/// The context that the forms build from `c`, or why they stop.
pub open spec fn process_spec(forms: Seq<Node>, c: Ctx, answers: Seq<Answer>, next: nat) -> (
    Result<Ctx, Stop>,
    nat,
) {
    forms_from(forms, 0, c, answers, next)
}

/// Whether an outcome of form processing agrees with its specification.
pub open spec fn ctx_outcome(r: Result<(), Halt>, c: Ctx, spec: Result<Ctx, Stop>) -> bool {
    match spec {
        Ok(c2) => r is Ok && c == c2,
        Err(s) => r is Err && r->Err_0@ == s,
    }
}

fn trim_open_text(s: &String) -> (r: String)
    ensures
        r@ == trim_open(s@),
{
    let v = chars_of(s.as_str());
    let mut i: usize = 0;
    assert(v@.subrange(0, v@.len() as int) =~= v@);
    while i < v.len() && v[i] == '['
        invariant
            i <= v@.len(),
            trim_open(v@.subrange(i as int, v@.len() as int)) == trim_open(v@),
        decreases v@.len() - i,
    {
        assert(v@.subrange(i as int, v@.len() as int).drop_first() =~= v@.subrange(
            i + 1,
            v@.len() as int,
        ));
        i = i + 1;
    }
    let mut out: Vec<char> = Vec::new();
    let mut j = i;
    while j < v.len()
        invariant
            i <= j <= v@.len(),
            out@ == v@.subrange(i as int, j as int),
        decreases v@.len() - j,
    {
        out.push(v[j]);
        j = j + 1;
        assert(out@ =~= v@.subrange(i as int, j as int));
    }
    string_of(out.as_slice())
}

fn trim_close_text(s: &String) -> (r: String)
    ensures
        r@ == trim_close(s@),
{
    let v = chars_of(s.as_str());
    let mut k: usize = v.len();
    assert(v@.subrange(0, v@.len() as int) =~= v@);
    while k > 0 && v[k - 1] == ']'
        invariant
            k <= v@.len(),
            trim_close(v@.subrange(0, k as int)) == trim_close(v@),
        decreases k,
    {
        assert(v@.subrange(0, k as int).drop_last() =~= v@.subrange(0, k - 1));
        k = k - 1;
    }
    let mut out: Vec<char> = Vec::new();
    let mut j: usize = 0;
    while j < k
        invariant
            j <= k <= v@.len(),
            out@ == v@.subrange(0, j as int),
        decreases k - j,
    {
        out.push(v[j]);
        j = j + 1;
        assert(out@ =~= v@.subrange(0, j as int));
    }
    string_of(out.as_slice())
}

fn process_types(items: &Vec<SExp>, ctx: &mut Context, host: &mut Host) -> (r: Result<(), Halt>)
    requires
        old(host).next <= old(host).replies@.len(),
    ensures
        final(host).replies == old(host).replies,
        final(host).next <= final(host).replies@.len(),
        ctx_outcome(
            r,
            final(ctx)@,
            types_from(nodes_of(items@), 1, old(ctx)@, old(host).answers(), old(host).next as nat).0,
        ),
        final(host).next == types_from(
            nodes_of(items@),
            1,
            old(ctx)@,
            old(host).answers(),
            old(host).next as nat,
        ).1,
{
    let ghost ns = nodes_of(items@);
    let ghost answers = host.answers();
    let ghost target = types_from(ns, 1, ctx@, answers, host.next as nat);
    proof {
        lemma_nodes_of(items@);
    }
    let mut i: usize = 1;
    if items.len() < 1 {
        return Ok(());
    }
    while i < items.len()
        invariant
            1 <= i <= items@.len(),
            ns == nodes_of(items@),
            ns.len() == items@.len(),
            forall|j: int| 0 <= j < items@.len() ==> #[trigger] ns[j] == items@[j]@,
            host.replies == old(host).replies,
            host.next <= host.replies@.len(),
            answers == host.answers(),
            types_from(ns, i as int, ctx@, answers, host.next as nat) == target,
            target == types_from(ns, 1, old(ctx)@, answers, old(host).next as nat),
            answers == old(host).answers(),
        decreases items@.len() - i,
    {
        let (d, dl) = match &items[i] {
            SExp::List(d, dl) => (d, *dl),
            _ => {
                return Err(Halt::Failed(other("Invalid type definition: expected a list", 0)));
            },
        };
        proof {
            lemma_nodes_of(d@);
        }
        if d.len() != 2 {
            return Err(Halt::Failed(other("Malformed type definition", dl)));
        }
        let tn = match &d[0] {
            SExp::Symbol(s, _) => s.clone(),
            _ => {
                return Err(Halt::Failed(other("Invalid type name in type definition", dl)));
            },
        };
        let v = eval_expr(&d[1], &ctx.defs, ctx, host);
        let allowed = match v {
            Ok(Value::List(xs)) => xs,
            Ok(Value::Str(x)) => {
                let ghost xv = x@;
                let mut xs: Vec<String> = Vec::new();
                xs.push(x);
                assert(xs.deep_view() =~= seq![xv]);
                xs
            },
            Ok(Value::Nothing) => {
                return Err(Halt::Failed(other("Type allowed-values must be a list or string", dl)));
            },
            Err(h) => {
                return Err(h);
            },
        };
        ctx.types.insert(tn, allowed);
        i = i + 1;
    }
    Ok(())
}

fn process_defs(items: &Vec<SExp>, ctx: &mut Context, host: &mut Host) -> (r: Result<(), Halt>)
    requires
        old(host).next <= old(host).replies@.len(),
    ensures
        final(host).replies == old(host).replies,
        final(host).next <= final(host).replies@.len(),
        ctx_outcome(
            r,
            final(ctx)@,
            defs_from(nodes_of(items@), 1, old(ctx)@, old(host).answers(), old(host).next as nat).0,
        ),
        final(host).next == defs_from(
            nodes_of(items@),
            1,
            old(ctx)@,
            old(host).answers(),
            old(host).next as nat,
        ).1,
{
    let ghost ns = nodes_of(items@);
    let ghost answers = host.answers();
    let ghost target = defs_from(ns, 1, ctx@, answers, host.next as nat);
    proof {
        lemma_nodes_of(items@);
    }
    let mut i: usize = 1;
    if items.len() < 1 {
        return Ok(());
    }
    while i < items.len()
        invariant
            1 <= i <= items@.len(),
            ns == nodes_of(items@),
            ns.len() == items@.len(),
            forall|j: int| 0 <= j < items@.len() ==> #[trigger] ns[j] == items@[j]@,
            host.replies == old(host).replies,
            host.next <= host.replies@.len(),
            answers == host.answers(),
            defs_from(ns, i as int, ctx@, answers, host.next as nat) == target,
            target == defs_from(ns, 1, old(ctx)@, answers, old(host).next as nat),
            answers == old(host).answers(),
        decreases items@.len() - i,
    {
        let (parts, dl) = match &items[i] {
            SExp::List(parts, dl) => (parts, *dl),
            _ => {
                return Err(Halt::Failed(other("Invalid def entry (expected a list)", 0)));
            },
        };
        proof {
            lemma_nodes_of(parts@);
        }
        if parts.len() != 2 {
            return Err(Halt::Failed(other("Each def entry must have a key and a value", dl)));
        }
        let (var, ty) = match &parts[0] {
            SExp::Symbol(s, _) => (s.clone(), None),
            SExp::List(inner, _) => {
                proof {
                    lemma_nodes_of(inner@);
                }
                if inner.len() != 2 {
                    return Err(Halt::Failed(other("Invalid def key format", dl)));
                }
                match (&inner[0], &inner[1]) {
                    (SExp::Symbol(a, _), SExp::Symbol(b, _)) => (
                        trim_open_text(a),
                        Some(trim_close_text(b)),
                    ),
                    _ => {
                        return Err(Halt::Failed(other("Invalid def key", dl)));
                    },
                }
            },
            _ => {
                return Err(Halt::Failed(other("Invalid def key format", dl)));
            },
        };
        let v = eval_expr(&parts[1], &ctx.defs, ctx, host);
        let t = match v {
            Ok(Value::Str(t)) => t,
            Ok(_) => String::new(),
            Err(h) => {
                return Err(h);
            },
        };
        if let Some(tn) = &ty {
            if let Some(allowed) = ctx.types.get(tn) {
                if !contains_text(allowed, &t) {
                    return Err(
                        Halt::Failed(
                            EvalError::TypeError {
                                var,
                                value: t,
                                allowed: clone_texts(allowed),
                                line: dl,
                            },
                        ),
                    );
                }
            }
        }
        ctx.defs.insert(var, t);
        i = i + 1;
    }
    Ok(())
}

fn process_group(items: &Vec<SExp>, fl: usize, ctx: &mut Context) -> (r: Result<(), Halt>)
    ensures
        match group_form(nodes_of(items@), fl as nat, old(ctx)@) {
            Ok(c) => r is Ok && final(ctx)@ == c,
            Err(f) => r is Err && r->Err_0@ == Stop::Fail(f),
        },
{
    let ghost ns = nodes_of(items@);
    proof {
        lemma_nodes_of(items@);
    }
    if items.len() < 3 {
        return Err(Halt::Failed(other("Group definition too short", fl)));
    }
    if let SExp::Symbol(_, _) = &items[1] {
    } else {
        return Err(Halt::Failed(other("Group name must be a symbol", fl)));
    }
    let g = match group_record(items) {
        Ok(g) => g,
        Err(_) => {
            return Err(Halt::Failed(other("Error processing group", fl)));
        },
    };
    let ghost gm = g.deep_view();
    let ghost target = group_tasks(ns, 3, gm, ctx.tasks@);
    let mut i: usize = 3;
    while i < items.len()
        invariant
            3 <= i <= items@.len(),
            ns == nodes_of(items@),
            ns.len() == items@.len(),
            forall|j: int| 0 <= j < items@.len() ==> #[trigger] ns[j] == items@[j]@,
            gm == g.deep_view(),
            group_tasks(ns, i as int, gm, ctx.tasks@) == target,
            target == group_tasks(ns, 3, gm, old(ctx).tasks@),
            group_of(ns) == Ok::<TaskM, Fail>(gm),
            ns[1] is Sym,
            ctx@ == (Ctx { tasks: ctx.tasks@, ..old(ctx)@ }),
        decreases items@.len() - i,
    {
        if let SExp::List(ps, _) = &items[i] {
            proof {
                lemma_nodes_of(ps@);
            }
            if ps.len() > 0 {
                if let SExp::Symbol(key, _) = &ps[0] {
                    if is_word(key, "task") {
                        match process_task(ps, Some(&g)) {
                            Ok(t) => {
                                ctx.tasks.insert(t.name.clone(), t);
                            },
                            Err(_) => {
                                return Err(Halt::Failed(other("Error processing group", fl)));
                            },
                        }
                    }
                }
            }
        }
        i = i + 1;
    }
    ctx.groups.insert(g.name.clone(), g);
    Ok(())
}

fn process_form(form: &SExp, ctx: &mut Context, host: &mut Host) -> (r: Result<(), Halt>)
    requires
        old(host).next <= old(host).replies@.len(),
    ensures
        final(host).replies == old(host).replies,
        final(host).next <= final(host).replies@.len(),
        ctx_outcome(r, final(ctx)@, form_step(form@, old(ctx)@, old(host).answers(), old(host).next as nat).0),
        final(host).next == form_step(form@, old(ctx)@, old(host).answers(), old(host).next as nat).1,
{
    let (items, fl) = match form {
        SExp::List(items, fl) => (items, *fl),
        _ => {
            return Err(Halt::Failed(other("Expected a list for a top-level form", 0)));
        },
    };
    proof {
        lemma_nodes_of(items@);
    }
    if items.len() == 0 {
        return Ok(());
    }
    let name = match &items[0] {
        SExp::Symbol(name, _) => name,
        _ => {
            return Err(Halt::Failed(other("Expected a symbol at the beginning of the form", fl)));
        },
    };
    if is_word(name, "base-cmd") {
        if items.len() != 2 {
            return Err(Halt::Failed(other("base-cmd requires one argument", fl)));
        }
        match &items[1] {
            SExp::String(s, _) => {
                ctx.base_cmd = Some(s.clone());
                Ok(())
            },
            _ => Err(Halt::Failed(other("base-cmd argument must be a string", fl))),
        }
    } else if is_word(name, "load-env") || is_word(name, "load-config") {
        if items.len() != 2 {
            return Err(Halt::Failed(other("This form requires one argument", fl)));
        }
        let (path, sl) = match &items[1] {
            SExp::String(s, sl) => (s, *sl),
            _ => {
                return Err(Halt::Failed(other("This form's argument must be a string", fl)));
            },
        };
        let content = match host.take(Request::ReadFile(path.clone())) {
            Ok(Reply::Text(c)) => c.clone(),
            Ok(_) => {
                return Err(Halt::Failed(other("Error reading the file", sl)));
            },
            Err(h) => {
                return Err(h);
            },
        };
        if is_word(name, "load-env") {
            let pairs = parse_env_file(&content);
            match host.take(Request::SetVars(pairs)) {
                Ok(_) => Ok(()),
                Err(h) => Err(h),
            }
        } else {
            match parse_config(&content) {
                Ok(t) => {
                    ctx.config = Some(t);
                    Ok(())
                },
                Err(_) => Err(Halt::Failed(other("Error parsing JSON in config file", sl))),
            }
        }
    } else if is_word(name, "types") {
        process_types(items, ctx, host)
    } else if is_word(name, "def") {
        process_defs(items, ctx, host)
    } else if is_word(name, "task") {
        match process_task(items, None) {
            Ok(t) => {
                ctx.tasks.insert(t.name.clone(), t);
                Ok(())
            },
            Err(e) => Err(Halt::Failed(e)),
        }
    } else if is_word(name, "group") {
        process_group(items, fl, ctx)
    } else {
        Err(Halt::Failed(other("Unknown top-level form", items[0].line())))
    }
}

/// Processes the top-level forms in order, building the context; stops at the
/// first failure, or at the first outside request that `host` has no answer for.
pub fn process_forms(forms: &Vec<SExp>, ctx: &mut Context, host: &mut Host) -> (r: Result<(), Halt>)
    requires
        old(host).next <= old(host).replies@.len(),
    ensures
        final(host).replies == old(host).replies,
        final(host).next <= final(host).replies@.len(),
        ctx_outcome(
            r,
            final(ctx)@,
            process_spec(nodes_of(forms@), old(ctx)@, old(host).answers(), old(host).next as nat).0,
        ),
        final(host).next == process_spec(
            nodes_of(forms@),
            old(ctx)@,
            old(host).answers(),
            old(host).next as nat,
        ).1,
{
    let ghost ns = nodes_of(forms@);
    let ghost answers = host.answers();
    let ghost target = process_spec(ns, ctx@, answers, host.next as nat);
    proof {
        lemma_nodes_of(forms@);
    }
    let mut i: usize = 0;
    while i < forms.len()
        invariant
            i <= forms@.len(),
            ns == nodes_of(forms@),
            ns.len() == forms@.len(),
            forall|j: int| 0 <= j < forms@.len() ==> #[trigger] ns[j] == forms@[j]@,
            host.replies == old(host).replies,
            host.next <= host.replies@.len(),
            answers == host.answers(),
            forms_from(ns, i as int, ctx@, answers, host.next as nat) == target,
            target == process_spec(ns, old(ctx)@, answers, old(host).next as nat),
            answers == old(host).answers(),
        decreases forms@.len() - i,
    {
        match process_form(&forms[i], ctx, host) {
            Ok(()) => {},
            Err(h) => {
                return Err(h);
            },
        }
        i = i + 1;
    }
    Ok(())
}

} // verus!
