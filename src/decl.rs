//! Building task and group records from their declarations.

use vstd::prelude::*;
use crate::context::{Task, TaskM, opt_text};
use crate::error::{EvalError, Fail, FailKind, fail, other};
use crate::sexp::{Node, SExp, nodes_of, lemma_nodes_of};
use crate::table::Table;
use crate::text::{is_word, text, string_of, chars_of};

verus! {

/// The text of a symbol or string node.
pub open spec fn atom_text(n: Node) -> Option<Seq<char>> {
    match n {
        Node::Sym(t, _) => Some(t),
        Node::Str(t, _) => Some(t),
        _ => None,
    }
}

/// The text of a string node.
pub open spec fn str_text(n: Node) -> Option<Seq<char>> {
    match n {
        Node::Str(t, _) => Some(t),
        _ => None,
    }
}

/// The text of the second item of a property, when it is a string.
pub open spec fn second_str(ps: Seq<Node>) -> Option<Seq<char>> {
    if ps.len() >= 2 {
        str_text(ps[1])
    } else {
        None
    }
}

/// `m` with the key/value pairs among `ps[i..]` added, in order.
pub open spec fn add_meta(m: Map<Seq<char>, Seq<char>>, ps: Seq<Node>, i: int) -> Map<
    Seq<char>,
    Seq<char>,
>
    decreases ps.len() - i,
{
    if i < 0 || i >= ps.len() {
        m
    } else {
        let m2 = match ps[i] {
            Node::List(pair, _) => if pair.len() == 2 && atom_text(pair[0]) is Some && atom_text(
                pair[1],
            ) is Some {
                m.insert(atom_text(pair[0])->0, atom_text(pair[1])->0)
            } else {
                m
            },
            _ => m,
        };
        add_meta(m2, ps, i + 1)
    }
}

/// `steps` with the symbols among `ps[i..]` appended, in order.
pub open spec fn add_steps(steps: Seq<Seq<char>>, ps: Seq<Node>, i: int) -> Seq<Seq<char>>
    decreases ps.len() - i,
{
    if i < 0 || i >= ps.len() {
        steps
    } else {
        add_steps(
            match ps[i] {
                Node::Sym(s, _) => steps.push(s),
                _ => steps,
            },
            ps,
            i + 1,
        )
    }
}

/// A record after one property child. A group's record takes only `desc`,
/// `meta`, `cmd` and `params`; a task's takes `shell` and `steps` too, and
/// every other key as an interpolation variable.
pub open spec fn apply_prop(t: TaskM, p: Node, group: bool) -> TaskM {
    match p {
        Node::List(ps, _) => if ps.len() == 0 {
            t
        } else {
            match ps[0] {
                Node::Sym(key, _) => if key == "desc"@ {
                    if second_str(ps) is Some {
                        TaskM { desc: second_str(ps), ..t }
                    } else {
                        t
                    }
                } else if key == "meta"@ {
                    TaskM { meta: add_meta(t.meta, ps, 1), ..t }
                } else if key == "cmd"@ {
                    if second_str(ps) is Some {
                        TaskM { cmd: second_str(ps), ..t }
                    } else {
                        t
                    }
                } else if key == "params"@ {
                    if second_str(ps) is Some {
                        TaskM { params: second_str(ps), ..t }
                    } else {
                        t
                    }
                } else if group {
                    t
                } else if key == "shell"@ {
                    if second_str(ps) is Some {
                        TaskM { shell: second_str(ps), ..t }
                    } else {
                        t
                    }
                } else if key == "steps"@ {
                    TaskM { steps: add_steps(t.steps, ps, 1), ..t }
                } else if ps.len() >= 2 && atom_text(ps[1]) is Some {
                    TaskM { props: t.props.insert(key, atom_text(ps[1])->0), ..t }
                } else {
                    t
                },
                _ => t,
            }
        },
        _ => t,
    }
}

/// A record after the property children `items[i..]`.
pub open spec fn apply_props(t: TaskM, items: Seq<Node>, i: int, group: bool) -> TaskM
    decreases items.len() - i,
{
    if i < 0 || i >= items.len() {
        t
    } else {
        apply_props(apply_prop(t, items[i], group), items, i + 1, group)
    }
}

/// A record with nothing but its name and title.
pub open spec fn bare_task(name: Seq<char>, title: Seq<char>) -> TaskM {
    TaskM {
        name,
        title,
        desc: None,
        meta: Map::empty(),
        cmd: None,
        shell: None,
        params: None,
        steps: Seq::empty(),
        props: Map::empty(),
    }
}

/// The name and title of a `(task <name> "<title>" ...)` or group form, or the failure.
pub open spec fn head_of(items: Seq<Node>) -> Result<(Seq<char>, Seq<char>), Fail> {
    let l = items[0].line();
    if items.len() < 3 {
        Err(fail(FailKind::Other, l))
    } else {
        match items[1] {
            Node::Sym(n, _) => match items[2] {
                Node::Str(t, _) => Ok((n, t)),
                _ => Err(fail(FailKind::Other, l)),
            },
            _ => Err(fail(FailKind::Other, l)),
        }
    }
}

/// The task that `(task <name> "<title>" <prop>...)` declares, inside the group
/// `parent` if any: its name is then qualified by the group's, and it takes the
/// group's `cmd` and `params` where it has none of its own.
pub open spec fn task_of(items: Seq<Node>, parent: Option<TaskM>) -> Result<TaskM, Fail> {
    match head_of(items) {
        Err(f) => Err(f),
        Ok((raw, title)) => {
            let name = match parent {
                Some(p) => p.name + seq!['.'] + raw,
                None => raw,
            };
            let t = apply_props(bare_task(name, title), items, 3, false);
            Ok(
                match parent {
                    Some(p) => TaskM {
                        cmd: if t.cmd is None {
                            p.cmd
                        } else {
                            t.cmd
                        },
                        params: if t.params is None {
                            p.params
                        } else {
                            t.params
                        },
                        ..t
                    },
                    None => t,
                },
            )
        },
    }
}

/// The record that `(group <name> "<title>" <prop>...)` declares for the group itself.
pub open spec fn group_of(items: Seq<Node>) -> Result<TaskM, Fail> {
    match head_of(items) {
        Err(f) => Err(f),
        Ok((name, title)) => Ok(apply_props(bare_task(name, title), items, 3, true)),
    }
}

fn opt_clone(o: &Option<String>) -> (r: Option<String>)
    ensures
        opt_text(r) == opt_text(*o),
{
    match o {
        Some(s) => Some(s.clone()),
        None => None,
    }
}

fn second_string(ps: &Vec<SExp>) -> (r: Option<String>)
    ensures
        opt_text(r) == second_str(nodes_of(ps@)),
{
    proof {
        lemma_nodes_of(ps@);
    }
    if ps.len() >= 2 {
        match &ps[1] {
            SExp::String(s, _) => Some(s.clone()),
            _ => None,
        }
    } else {
        None
    }
}

fn atom_string(n: &SExp) -> (r: Option<String>)
    ensures
        opt_text(r) == atom_text(n@),
{
    match n {
        SExp::Symbol(s, _) => Some(s.clone()),
        SExp::String(s, _) => Some(s.clone()),
        _ => None,
    }
}

/// Applies one property child to a record under construction.
fn apply_property(t: &mut Task, p: &SExp, group: bool)
    ensures
        final(t).deep_view() == apply_prop(old(t).deep_view(), p@, group),
{
    let ps = match p {
        SExp::List(ps, _) => ps,
        _ => {
            return;
        },
    };
    let ghost ns = nodes_of(ps@);
    proof {
        lemma_nodes_of(ps@);
    }
    if ps.len() == 0 {
        return;
    }
    let key = match &ps[0] {
        SExp::Symbol(k, _) => k,
        _ => {
            return;
        },
    };
    if is_word(key, "desc") {
        let v = second_string(ps);
        if v.is_some() {
            t.desc = v;
        }
    } else if is_word(key, "meta") {
        let mut i: usize = 1;
        while i < ps.len()
            invariant
                1 <= i <= ps@.len(),
                ns == nodes_of(ps@),
                ns.len() == ps@.len(),
                forall|j: int| 0 <= j < ps@.len() ==> #[trigger] ns[j] == ps@[j]@,
                add_meta(t.meta@, ns, i as int) == add_meta(old(t).meta@, ns, 1),
                t.deep_view() == (TaskM { meta: t.meta@, ..old(t).deep_view() }),
            decreases ps@.len() - i,
        {
            if let SExp::List(pair, _) = &ps[i] {
                proof {
                    lemma_nodes_of(pair@);
                }
                if pair.len() == 2 {
                    let k = atom_string(&pair[0]);
                    let v = atom_string(&pair[1]);
                    if let (Some(k), Some(v)) = (k, v) {
                        t.meta.insert(k, v);
                    }
                }
            }
            i = i + 1;
        }
    } else if is_word(key, "cmd") {
        let v = second_string(ps);
        if v.is_some() {
            t.cmd = v;
        }
    } else if is_word(key, "params") {
        let v = second_string(ps);
        if v.is_some() {
            t.params = v;
        }
    } else if group {
    } else if is_word(key, "shell") {
        let v = second_string(ps);
        if v.is_some() {
            t.shell = v;
        }
    } else if is_word(key, "steps") {
        let mut i: usize = 1;
        while i < ps.len()
            invariant
                1 <= i <= ps@.len(),
                ns == nodes_of(ps@),
                ns.len() == ps@.len(),
                forall|j: int| 0 <= j < ps@.len() ==> #[trigger] ns[j] == ps@[j]@,
                add_steps(t.steps.deep_view(), ns, i as int) == add_steps(
                    old(t).steps.deep_view(),
                    ns,
                    1,
                ),
                t.deep_view() == (TaskM { steps: t.steps.deep_view(), ..old(t).deep_view() }),
            decreases ps@.len() - i,
        {
            if let SExp::Symbol(s, _) = &ps[i] {
                let ghost before = t.steps.deep_view();
                t.steps.push(s.clone());
                assert(t.steps.deep_view() =~= before.push(s@));
            }
            i = i + 1;
        }
    } else if ps.len() >= 2 {
        if let Some(v) = atom_string(&ps[1]) {
            t.props.insert(key.clone(), v);
        }
    }
}

pub open spec fn opt_task(p: Option<&Task>) -> Option<TaskM> {
    match p {
        Some(t) => Some(t.deep_view()),
        None => None,
    }
}

pub open spec fn task_matches(r: Result<Task, EvalError>, spec: Result<TaskM, Fail>) -> bool {
    match spec {
        Ok(t) => r is Ok && r->Ok_0.deep_view() == t,
        Err(f) => r is Err && r->Err_0@ == f,
    }
}

/// `a.b`
fn dotted(a: &String, b: &String) -> (r: String)
    ensures
        r@ == a@ + seq!['.'] + b@,
{
    let mut v = chars_of(a.as_str());
    v.push('.');
    let w = chars_of(b.as_str());
    let mut i: usize = 0;
    let ghost start = v@;
    while i < w.len()
        invariant
            i <= w@.len(),
            v@ == start + w@.subrange(0, i as int),
        decreases w@.len() - i,
    {
        v.push(w[i]);
        i = i + 1;
        assert(v@ =~= start + w@.subrange(0, i as int));
    }
    assert(w@.subrange(0, w@.len() as int) =~= w@);
    string_of(v.as_slice())
}

/// Reads the name and title of a task or group form.
fn read_head(items: &Vec<SExp>) -> (r: Result<(String, String), EvalError>)
    requires
        items@.len() >= 1,
    ensures
        match head_of(nodes_of(items@)) {
            Ok((n, t)) => r is Ok && r->Ok_0.0@ == n && r->Ok_0.1@ == t,
            Err(f) => r is Err && r->Err_0@ == f,
        },
{
    proof {
        lemma_nodes_of(items@);
    }
    let l = items[0].line();
    if items.len() < 3 {
        return Err(other("Definition too short", l));
    }
    let name = match &items[1] {
        SExp::Symbol(s, _) => s.clone(),
        _ => {
            return Err(other("Name must be a symbol", l));
        },
    };
    let title = match &items[2] {
        SExp::String(s, _) => s.clone(),
        _ => {
            return Err(other("Title must be a string", l));
        },
    };
    Ok((name, title))
}

fn new_record(name: String, title: String) -> (r: Task)
    ensures
        r.deep_view() == bare_task(name@, title@),
{
    let steps: Vec<String> = Vec::new();
    let r = Task {
        name,
        title,
        desc: None,
        meta: Table::new(),
        cmd: None,
        shell: None,
        params: None,
        steps,
        props: Table::new(),
    };
    assert(r.steps.deep_view() =~= Seq::<Seq<char>>::empty());
    r
}

/// Applies the property children `items[3..]` to a record.
fn apply_properties(t: &mut Task, items: &Vec<SExp>, group: bool)
    ensures
        final(t).deep_view() == apply_props(old(t).deep_view(), nodes_of(items@), 3, group),
{
    let ghost ns = nodes_of(items@);
    proof {
        lemma_nodes_of(items@);
    }
    let mut i: usize = 3;
    if items.len() < 3 {
        return;
    }
    while i < items.len()
        invariant
            3 <= i <= items@.len(),
            ns == nodes_of(items@),
            ns.len() == items@.len(),
            forall|j: int| 0 <= j < items@.len() ==> #[trigger] ns[j] == items@[j]@,
            apply_props(t.deep_view(), ns, i as int, group) == apply_props(
                old(t).deep_view(),
                ns,
                3,
                group,
            ),
        decreases items@.len() - i,
    {
        apply_property(t, &items[i], group);
        i = i + 1;
    }
}

/// Builds the task that `(task <name> "<title>" <prop>...)` declares, inside the
/// group `parent` if any.
pub fn process_task(items: &Vec<SExp>, parent: Option<&Task>) -> (r: Result<Task, EvalError>)
    requires
        items@.len() >= 1,
    ensures
        task_matches(r, task_of(nodes_of(items@), opt_task(parent))),
{
    let (raw, title) = match read_head(items) {
        Ok(h) => h,
        Err(e) => {
            return Err(e);
        },
    };
    let name = match parent {
        Some(p) => dotted(&p.name, &raw),
        None => raw,
    };
    let mut task = new_record(name, title);
    apply_properties(&mut task, items, false);
    if let Some(p) = parent {
        if task.cmd.is_none() {
            task.cmd = opt_clone(&p.cmd);
        }
        if task.params.is_none() {
            task.params = opt_clone(&p.params);
        }
    }
    Ok(task)
}

/// Builds the record of the group that `(group <name> "<title>" <prop>...)` declares.
pub fn group_record(items: &Vec<SExp>) -> (r: Result<Task, EvalError>)
    requires
        items@.len() >= 1,
    ensures
        task_matches(r, group_of(nodes_of(items@))),
{
    let (name, title) = match read_head(items) {
        Ok(h) => h,
        Err(e) => {
            return Err(e);
        },
    };
    let mut g = new_record(name, title);
    apply_properties(&mut g, items, true);
    Ok(g)
}

} // verus!
