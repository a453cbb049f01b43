//! Properties that relate the library's functions, stated over their specifications.

use vstd::prelude::*;
use crate::context::{Ctx, TaskM};
use crate::decl::{apply_prop, apply_props, bare_task, head_of, task_of};
use crate::exec::{
    Act, Progress, command_of, has_prefix, members, plan_spec, run_all, run_request, run_requests,
    run_steps, run_task,
};
use crate::order::{lemma_lex_irrefl, lemma_sorted_of, lex_lt};
use crate::interp::{InterpFail, interpolation, placeholder_keys};
use crate::parser::{p_all, p_expr, parse_text, skip_blank, std_syntax};
use crate::sexp::ParseFail;
use crate::printer::{render, render_pretty};
use crate::reparse::{
    blank, lemma_forms_sound, lemma_parse_pretty, lemma_parse_render, lemma_plain, plain, same,
    unescaped,
};
use crate::sexp::Node;

verus! {

/// Interpolating a text without `{name}` placeholders gives it back unchanged,
/// whatever the variables.
pub proof fn law_interpolation_identity(s: Seq<char>, env: Map<Seq<char>, Seq<char>>)
    requires
        placeholder_keys(s).len() == 0,
    ensures
        interpolation(s, env) == Ok::<Seq<char>, InterpFail>(s),
{
}

proof fn lemma_props_keep_name(t: TaskM, n: Seq<char>, items: Seq<Node>, i: int, group: bool)
    ensures
        apply_props(TaskM { name: n, ..t }, items, i, group) == (TaskM {
            name: n,
            ..apply_props(t, items, i, group)
        }),
    decreases items.len() - i,
{
    if 0 <= i < items.len() {
        let t2 = apply_prop(t, items[i], group);
        assert(apply_prop(TaskM { name: n, ..t }, items[i], group) == (TaskM { name: n, ..t2 }));
        lemma_props_keep_name(t2, n, items, i + 1, group);
    }
}

/// A task declared inside a group is named `<group>.<name>`, and takes the group's
/// `cmd` and `params` where it declares none of its own; everything else is as
/// if it were declared at the top level.
pub proof fn law_group_inheritance(items: Seq<Node>, g: TaskM)
    requires
        items.len() >= 1,
    ensures
        task_of(items, Some(g)) is Ok <==> task_of(items, None) is Ok,
        task_of(items, None) is Ok ==> ({
            let own = task_of(items, None)->Ok_0;
            let t = task_of(items, Some(g))->Ok_0;
            &&& t.name == g.name + seq!['.'] + own.name
            &&& t.cmd == if own.cmd is Some {
                own.cmd
            } else {
                g.cmd
            }
            &&& t.params == if own.params is Some {
                own.params
            } else {
                g.params
            }
            &&& t == (TaskM { name: t.name, cmd: t.cmd, params: t.params, ..own })
        }),
{
    if head_of(items) is Ok {
        let raw = head_of(items)->Ok_0.0;
        let title = head_of(items)->Ok_0.1;
        let b = bare_task(raw, title);
        let n = g.name + seq!['.'] + raw;
        assert(bare_task(n, title) == (TaskM { name: n, ..b }));
        lemma_props_keep_name(b, n, items, 3, false);
        lemma_props_keep_name(b, raw, items, 3, false);
        assert(b == (TaskM { name: raw, ..b }));
        let own = apply_props(b, items, 3, false);
        let tp = apply_props(bare_task(n, title), items, 3, false);
        assert(task_of(items, None) == Ok::<TaskM, crate::error::Fail>(own));
        assert(tp == (TaskM { name: n, ..own }));
        let t = TaskM {
            cmd: if tp.cmd is None {
                g.cmd
            } else {
                tp.cmd
            },
            params: if tp.params is None {
                g.params
            } else {
                tp.params
            },
            ..tp
        };
        assert(task_of(items, Some(g)) == Ok::<TaskM, crate::error::Fail>(t));
        assert(own.name == raw);
        assert(t.name == g.name + seq!['.'] + own.name);
        assert(t == (TaskM { name: t.name, cmd: t.cmd, params: t.params, ..own }));
    }
}

/// A requested name that matches no group, no task and no task under it as a
/// prefix is reported as not found, and the names after it are still planned.
pub proof fn law_unmatched_request(
    c: Ctx,
    extra: Seq<Seq<char>>,
    reqs: Seq<Seq<char>>,
    i: int,
    st: Progress,
)
    requires
        0 <= i < reqs.len(),
        !c.groups.contains_key(reqs[i]),
        !c.tasks.contains_key(reqs[i]),
        members(c, reqs[i]).len() == 0,
    ensures
        run_request(c, extra, reqs[i], st) == (
            Progress { acts: st.acts.push(Act::NotFound(reqs[i])), ..st },
            None::<crate::error::Fail>,
        ),
        run_requests(c, extra, reqs, i, st) == run_requests(
            c,
            extra,
            reqs,
            i + 1,
            Progress { acts: st.acts.push(Act::NotFound(reqs[i])), ..st },
        ),
{
}

/// Requesting a name that is neither a group nor a task plans, when there are
/// any, the tasks named `<name>.<...>`: exactly those, each once, in strictly
/// increasing lexicographic order.
pub proof fn law_prefix_expansion(c: Ctx, extra: Seq<Seq<char>>, g: Seq<char>, st: Progress)
    requires
        c.tasks.dom().finite(),
    ensures
        members(c, g).to_set() == c.tasks.dom().filter(|k: Seq<char>| has_prefix(k, g + seq!['.'])),
        members(c, g).no_duplicates(),
        forall|i: int, j: int|
            0 <= i < j < members(c, g).len() ==> lex_lt(
                #[trigger] members(c, g)[i],
                #[trigger] members(c, g)[j],
            ),
        !c.groups.contains_key(g) && !c.tasks.contains_key(g) && members(c, g).len() > 0
            ==> run_request(c, extra, g, st) == run_all(c, extra, members(c, g), 0, st),
{
    let s = c.tasks.dom().filter(|k: Seq<char>| has_prefix(k, g + seq!['.']));
    assert(s.finite()) by {
        c.tasks.dom().lemma_len_filter(|k: Seq<char>| has_prefix(k, g + seq!['.']));
    }
    lemma_sorted_of(s);
    let m = members(c, g);
    assert forall|i: int, j: int| 0 <= i < m.len() && 0 <= j < m.len() && i != j implies m[i] != m[j] by {
        if i < j {
            assert(lex_lt(m[i], m[j]));
            if m[i] == m[j] {
                lemma_lex_irrefl(m[i]);
            }
        } else {
            assert(lex_lt(m[j], m[i]));
            if m[i] == m[j] {
                lemma_lex_irrefl(m[i]);
            }
        }
    }
}

/// The names of the tasks whose commands `acts` run, in order.
pub open spec fn run_names(acts: Seq<Act>) -> Seq<Seq<char>>
    decreases acts.len(),
{
    if acts.len() == 0 {
        Seq::empty()
    } else {
        run_names(acts.drop_last()) + match acts.last() {
            Act::Run(n, _) => seq![n],
            _ => Seq::empty(),
        }
    }
}

/// Every step of the task at position `i` of `done` comes before it.
pub open spec fn steps_before(c: Ctx, done: Seq<Seq<char>>, i: int) -> bool {
    forall|s: Seq<char>| #[trigger]
        c.tasks[done[i]].steps.contains(s) ==> done.subrange(0, i).contains(s)
}

/// Each task in `done` is declared, and all its steps come before it.
pub open spec fn deps_first(c: Ctx, done: Seq<Seq<char>>) -> bool {
    forall|i: int| 0 <= i < done.len() ==> c.tasks.contains_key(#[trigger] done[i]) && steps_before(c, done, i)
}

spec fn good(c: Ctx, st: Progress) -> bool {
    &&& st.done == run_names(st.acts)
    &&& st.done.no_duplicates()
    &&& deps_first(c, st.done)
}

spec fn is_prefix(a: Seq<Seq<char>>, b: Seq<Seq<char>>) -> bool {
    a.len() <= b.len() && b.subrange(0, a.len() as int) == a
}

spec fn added_outside(a: Seq<Seq<char>>, b: Seq<Seq<char>>, vis: Seq<Seq<char>>) -> bool {
    forall|k: int| a.len() <= k < b.len() ==> !vis.contains(#[trigger] b[k])
}

proof fn lemma_push_other(acts: Seq<Act>, a: Act)
    requires
        !(a is Run),
    ensures
        run_names(acts.push(a)) == run_names(acts),
{
    assert(acts.push(a).drop_last() =~= acts);
    assert(run_names(acts.push(a)) =~= run_names(acts));
}

proof fn lemma_push_run(c: Ctx, st: Progress, name: Seq<char>, cmd: Seq<char>)
    requires
        good(c, st),
        !st.done.contains(name),
        c.tasks.contains_key(name),
        forall|s: Seq<char>| c.tasks[name].steps.contains(s) ==> st.done.contains(s),
    ensures
        good(c, Progress { acts: st.acts.push(Act::Run(name, cmd)), done: st.done.push(name) }),
{
    let acts2 = st.acts.push(Act::Run(name, cmd));
    let d2 = st.done.push(name);
    assert(acts2.drop_last() =~= st.acts);
    assert(run_names(acts2) =~= d2);
    assert forall|a: int, b: int| 0 <= a < d2.len() && 0 <= b < d2.len() && a != b implies d2[a]
        != d2[b] by {
        if a == st.done.len() {
            assert(st.done.contains(d2[b]) ==> true);
            assert(d2[b] == st.done[b]);
        } else if b == st.done.len() {
            assert(d2[a] == st.done[a]);
        }
    }
    assert forall|i: int| 0 <= i < d2.len() implies c.tasks.contains_key(#[trigger] d2[i])
        && steps_before(c, d2, i) by {
        if i < st.done.len() {
            assert(d2[i] == st.done[i]);
            assert(d2.subrange(0, i) =~= st.done.subrange(0, i));
            assert(steps_before(c, st.done, i));
        } else {
            assert(d2.subrange(0, i) =~= st.done);
        }
    }
}

proof fn lemma_run_task(
    c: Ctx,
    extra: Seq<Seq<char>>,
    name: Seq<char>,
    st: Progress,
    vis: Seq<Seq<char>>,
    fuel: nat,
)
    requires
        good(c, st),
    ensures
        ({
            let o = run_task(c, extra, name, st, vis, fuel);
            &&& good(c, o.0)
            &&& is_prefix(st.done, o.0.done)
            &&& added_outside(st.done, o.0.done, vis)
            &&& o.1 is None ==> o.0.done.contains(name)
        }),
    decreases fuel, 0int,
{
    assert(st.done.subrange(0, st.done.len() as int) =~= st.done);
    if st.done.contains(name) {
    } else if !c.tasks.contains_key(name) {
    } else if vis.contains(name) || fuel == 0 {
    } else {
        let t = c.tasks[name];
        let v2 = vis.push(name);
        lemma_run_steps(c, extra, t.steps, 0, st, v2, (fuel - 1) as nat);
        let o = run_steps(c, extra, t.steps, 0, st, v2, (fuel - 1) as nat);
        if o.1 is None {
            match command_of(c, t, extra) {
                Ok(cmd) => {
                    assert(!o.0.done.contains(name)) by {
                        if o.0.done.contains(name) {
                            let k = choose|k: int| 0 <= k < o.0.done.len() && o.0.done[k] == name;
                            if k < st.done.len() {
                                assert(o.0.done.subrange(0, st.done.len() as int)[k] == name);
                                assert(st.done[k] == name);
                            } else {
                                assert(!v2.contains(o.0.done[k]));
                                assert(v2[vis.len() as int] == name);
                            }
                        }
                    }
                    assert forall|s: Seq<char>| c.tasks[name].steps.contains(s) implies o.0.done.contains(s) by {
                        let j = choose|j: int| 0 <= j < t.steps.len() && t.steps[j] == s;
                        assert(o.0.done.contains(t.steps[j]));
                    }
                    lemma_push_run(c, o.0, name, cmd);
                    let d2 = o.0.done.push(name);
                    assert(d2.subrange(0, st.done.len() as int) =~= o.0.done.subrange(
                        0,
                        st.done.len() as int,
                    ));
                    assert forall|k: int| st.done.len() <= k < d2.len() implies !vis.contains(
                        #[trigger] d2[k],
                    ) by {
                        if k < o.0.done.len() {
                            assert(d2[k] == o.0.done[k]);
                            assert(!v2.contains(o.0.done[k]));
                            if vis.contains(d2[k]) {
                                let q = choose|q: int| 0 <= q < vis.len() && vis[q] == d2[k];
                                assert(v2[q] == d2[k]);
                            }
                        }
                    }
                    assert(d2[d2.len() - 1] == name);
                },
                Err(_) => {
                    assert forall|k: int| st.done.len() <= k < o.0.done.len() implies !vis.contains(
                        #[trigger] o.0.done[k],
                    ) by {
                        assert(!v2.contains(o.0.done[k]));
                        if vis.contains(o.0.done[k]) {
                            let q = choose|q: int| 0 <= q < vis.len() && vis[q] == o.0.done[k];
                            assert(v2[q] == o.0.done[k]);
                        }
                    }
                },
            }
        } else {
            assert forall|k: int| st.done.len() <= k < o.0.done.len() implies !vis.contains(
                #[trigger] o.0.done[k],
            ) by {
                assert(!v2.contains(o.0.done[k]));
                if vis.contains(o.0.done[k]) {
                    let q = choose|q: int| 0 <= q < vis.len() && vis[q] == o.0.done[k];
                    assert(v2[q] == o.0.done[k]);
                }
            }
        }
    }
}

proof fn lemma_run_steps(
    c: Ctx,
    extra: Seq<Seq<char>>,
    steps: Seq<Seq<char>>,
    i: int,
    st: Progress,
    vis: Seq<Seq<char>>,
    fuel: nat,
)
    requires
        good(c, st),
        0 <= i,
    ensures
        ({
            let o = run_steps(c, extra, steps, i, st, vis, fuel);
            &&& good(c, o.0)
            &&& is_prefix(st.done, o.0.done)
            &&& added_outside(st.done, o.0.done, vis)
            &&& o.1 is None ==> forall|j: int| i <= j < steps.len() ==> o.0.done.contains(#[trigger] steps[j])
        }),
    decreases fuel, steps.len() - i + 1,
{
    assert(st.done.subrange(0, st.done.len() as int) =~= st.done);
    if 0 <= i < steps.len() {
        lemma_run_task(c, extra, steps[i], st, vis, fuel);
        let o1 = run_task(c, extra, steps[i], st, vis, fuel);
        if o1.1 is None {
            lemma_run_steps(c, extra, steps, i + 1, o1.0, vis, fuel);
            let o2 = run_steps(c, extra, steps, i + 1, o1.0, vis, fuel);
            assert(o2.0.done.subrange(0, st.done.len() as int) =~= o2.0.done.subrange(
                0,
                o1.0.done.len() as int,
            ).subrange(0, st.done.len() as int));
            assert forall|k: int| st.done.len() <= k < o2.0.done.len() implies !vis.contains(
                #[trigger] o2.0.done[k],
            ) by {
                if k < o1.0.done.len() {
                    assert(o2.0.done.subrange(0, o1.0.done.len() as int)[k] == o2.0.done[k]);
                    assert(o1.0.done[k] == o2.0.done[k]);
                }
            }
            if o2.1 is None {
                assert forall|j: int| i <= j < steps.len() implies o2.0.done.contains(
                    #[trigger] steps[j],
                ) by {
                    if j == i {
                        let k = choose|k: int| 0 <= k < o1.0.done.len() && o1.0.done[k] == steps[i];
                        assert(o2.0.done.subrange(0, o1.0.done.len() as int)[k] == o2.0.done[k]);
                        assert(o2.0.done[k] == steps[i]);
                    }
                }
            }
        }
    }
}

proof fn lemma_run_all(c: Ctx, extra: Seq<Seq<char>>, names: Seq<Seq<char>>, i: int, st: Progress)
    requires
        good(c, st),
    ensures
        good(c, run_all(c, extra, names, i, st).0),
    decreases names.len() - i,
{
    if 0 <= i < names.len() {
        lemma_run_task(c, extra, names[i], st, Seq::empty(), c.tasks.dom().len());
        let o = run_task(c, extra, names[i], st, Seq::empty(), c.tasks.dom().len());
        if o.1 is None {
            lemma_run_all(c, extra, names, i + 1, o.0);
        }
    }
}

proof fn lemma_run_requests(c: Ctx, extra: Seq<Seq<char>>, reqs: Seq<Seq<char>>, i: int, st: Progress)
    requires
        good(c, st),
    ensures
        good(c, run_requests(c, extra, reqs, i, st).0),
    decreases reqs.len() - i,
{
    if 0 <= i < reqs.len() {
        let req = reqs[i];
        if c.groups.contains_key(req) {
            let st2 = Progress { acts: st.acts.push(Act::Group(req)), ..st };
            lemma_push_other(st.acts, Act::Group(req));
            lemma_run_all(c, extra, members(c, req), 0, st2);
        } else if c.tasks.contains_key(req) {
            lemma_run_task(c, extra, req, st, Seq::empty(), c.tasks.dom().len());
        } else if members(c, req).len() == 0 {
            lemma_push_other(st.acts, Act::NotFound(req));
        } else {
            lemma_run_all(c, extra, members(c, req), 0, st);
        }
        let o = run_request(c, extra, req, st);
        if o.1 is None {
            lemma_run_requests(c, extra, reqs, i + 1, o.0);
        }
    }
}

/// In every plan no task's command is run twice, and each task's command runs
/// after the commands of all of its steps.
pub proof fn law_dependency_order(c: Ctx, reqs: Seq<Seq<char>>, extra: Seq<Seq<char>>)
    ensures
        run_names(plan_spec(c, reqs, extra).0.acts).no_duplicates(),
        deps_first(c, run_names(plan_spec(c, reqs, extra).0.acts)),
{
    let st = Progress { acts: Seq::empty(), done: Seq::empty() };
    assert(run_names(st.acts) =~= st.done);
    lemma_run_requests(c, extra, reqs, 0, st);
}

/// A list whose symbols are plain, rendered compactly or indented, parses back
/// to that same list, up to line numbers.
pub proof fn law_round_trip(n: Node)
    requires
        n is List,
        plain(n),
    ensures
        parse_text(render(n)) is Ok,
        parse_text(render(n))->Ok_0.len() == 1,
        same(parse_text(render(n))->Ok_0[0], n),
        parse_text(render_pretty(n, seq![' ', ' '], Seq::empty())) is Ok,
        parse_text(render_pretty(n, seq![' ', ' '], Seq::empty()))->Ok_0.len() == 1,
        same(parse_text(render_pretty(n, seq![' ', ' '], Seq::empty()))->Ok_0[0], n),
{
    lemma_round_trip_pretty(n);
    let s = render(n);
    assert(s.subrange(0, s.len() as int) =~= s);
    lemma_parse_render(s, 0, n);
    assert(s[0] == '(');
    assert(skip_blank(s, 0, ';') == 0);
    assert(skip_blank(s, s.len() as int, ';') == s.len());
    let o = p_expr(s, 0, std_syntax());
    let one = Seq::<Node>::empty().push(o->Ok_0.0);
    assert(p_all(s, s.len() as int, std_syntax(), one) == Ok::<Seq<Node>, ParseFail>(one));
    assert(p_all(s, 0, std_syntax(), Seq::empty()) == p_all(s, s.len() as int, std_syntax(), one));
}

proof fn lemma_round_trip_pretty(n: Node)
    requires
        n is List,
        plain(n),
    ensures
        parse_text(render_pretty(n, seq![' ', ' '], Seq::empty())) is Ok,
        parse_text(render_pretty(n, seq![' ', ' '], Seq::empty()))->Ok_0.len() == 1,
        same(parse_text(render_pretty(n, seq![' ', ' '], Seq::empty()))->Ok_0[0], n),
{
    let ind = seq![' ', ' '];
    let cur = Seq::<char>::empty();
    let s = render_pretty(n, ind, cur);
    assert(s.subrange(0, s.len() as int) =~= s);
    assert(blank(ind));
    assert(blank(cur));
    lemma_parse_pretty(s, 0, n, ind, cur);
    assert(s[0] == '(');
    assert(skip_blank(s, 0, ';') == 0);
    assert(skip_blank(s, s.len() as int, ';') == s.len());
    let o = p_expr(s, 0, std_syntax());
    let one = Seq::<Node>::empty().push(o->Ok_0.0);
    assert(p_all(s, s.len() as int, std_syntax(), one) == Ok::<Seq<Node>, ParseFail>(one));
    assert(p_all(s, 0, std_syntax(), Seq::empty()) == p_all(s, s.len() as int, std_syntax(), one));
}

/// Each form that the parser reads from a text renders, compactly or indented,
/// to a text that parses back to that form, up to line numbers, provided its
/// symbols hold none of the characters that the printer escapes.
pub proof fn law_parsed_round_trip(s: Seq<char>, i: int)
    requires
        parse_text(s) is Ok,
        0 <= i < parse_text(s)->Ok_0.len(),
        unescaped(parse_text(s)->Ok_0[i]),
    ensures
        ({
            let n = parse_text(s)->Ok_0[i];
            &&& parse_text(render(n)) is Ok
            &&& parse_text(render(n))->Ok_0.len() == 1
            &&& same(parse_text(render(n))->Ok_0[0], n)
            &&& parse_text(render_pretty(n, seq![' ', ' '], Seq::empty())) is Ok
            &&& parse_text(render_pretty(n, seq![' ', ' '], Seq::empty()))->Ok_0.len() == 1
            &&& same(parse_text(render_pretty(n, seq![' ', ' '], Seq::empty()))->Ok_0[0], n)
        }),
{
    lemma_forms_sound(s, 0, Seq::empty());
    let n = parse_text(s)->Ok_0[i];
    lemma_plain(n);
    law_round_trip(n);
}

} // verus!
