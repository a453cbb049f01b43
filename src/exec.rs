//! Task execution, as a plan: which commands run, in which order, and where the
//! run stops. Dependencies run first, each task at most once per plan, and a
//! request for a group runs its member tasks in lexicographic order.

use vstd::prelude::*;
use crate::context::{Context, Ctx, TaskM};
use crate::error::{EvalError, Fail, FailKind, fail, other};
use crate::interp::{interp_fail, interpolate, interpolation};
use crate::order::{
    is_least, lemma_lex_total, lemma_lex_trans, lemma_least_unique, lex_lt, sorted_of, text_lt,
};
use crate::text::{chars_of, contains_text, string_of};

verus! {

/// One step of a plan.
#[derive(Debug)]
pub enum Action {
    /// A requested group's member tasks follow.
    Group(String),
    /// Run this command line, the finished command of the named task.
    Run { name: String, command: String },
    /// A requested name matched no group and no task.
    NotFound(String),
}

pub enum Act {
    Group(Seq<char>),
    Run(Seq<char>, Seq<char>),
    NotFound(Seq<char>),
}

impl View for Action {
    type V = Act;

    open spec fn view(&self) -> Act {
        match self {
            Action::Group(g) => Act::Group(g@),
            Action::Run { name, command } => Act::Run(name@, command@),
            Action::NotFound(n) => Act::NotFound(n@),
        }
    }
}

/// The steps so far, and the tasks already planned.
pub struct Progress {
    pub acts: Seq<Act>,
    pub done: Seq<Seq<char>>,
}

/// The texts joined by single spaces.
pub open spec fn join_spaced(xs: Seq<Seq<char>>) -> Seq<char>
    decreases xs.len(),
{
    if xs.len() == 0 {
        Seq::empty()
    } else if xs.len() == 1 {
        xs[0]
    } else {
        join_spaced(xs.drop_last()) + seq![' '] + xs.last()
    }
}

/// The command line of task `t` before interpolation: its shell text, or its
/// command after the base command; then the extra arguments.
pub open spec fn raw_command(c: Ctx, t: TaskM, extra: Seq<Seq<char>>) -> Option<Seq<char>> {
    let line = if t.shell is Some {
        Some(t.shell->0)
    } else if t.cmd is Some {
        Some(
            if c.base_cmd is Some {
                c.base_cmd->0 + seq![' '] + t.cmd->0
            } else {
                t.cmd->0
            },
        )
    } else {
        None
    };
    match line {
        Some(l) => Some(
            if extra.len() > 0 {
                l + seq![' '] + join_spaced(extra)
            } else {
                l
            },
        ),
        None => None,
    }
}

/// The finished command line of task `t`: interpolated with the variables,
/// overlaid by the task's own properties.
pub open spec fn command_of(c: Ctx, t: TaskM, extra: Seq<Seq<char>>) -> Result<Seq<char>, Fail> {
    match raw_command(c, t, extra) {
        None => Err(fail(FailKind::NoCommand(t.name), 0)),
        Some(l) => match interpolation(l, c.defs.union_prefer_right(t.props)) {
            Ok(r) => Ok(r),
            Err(f) => Err(interp_fail(f, 0)),
        },
    }
}

/// Planning the task `name`: its steps first, unless already planned. `vis` are
/// the tasks whose steps are being planned; meeting one again is a cycle.
pub open spec fn run_task(
    c: Ctx,
    extra: Seq<Seq<char>>,
    name: Seq<char>,
    st: Progress,
    vis: Seq<Seq<char>>,
    fuel: nat,
) -> (Progress, Option<Fail>)
    decreases fuel, 0int,
{
    if st.done.contains(name) {
        (st, None)
    } else if !c.tasks.contains_key(name) {
        (st, Some(fail(FailKind::TaskNotFound(name), 0)))
    } else if vis.contains(name) || fuel == 0 {
        (st, Some(fail(FailKind::Other, 0)))
    } else {
        let t = c.tasks[name];
        finish_task(c, extra, name, t, run_steps(c, extra, t.steps, 0, st, vis.push(name), (fuel - 1) as nat))
    }
}

/// After the steps of task `name` were planned with outcome `o`: its own command.
pub open spec fn finish_task(
    c: Ctx,
    extra: Seq<Seq<char>>,
    name: Seq<char>,
    t: TaskM,
    o: (Progress, Option<Fail>),
) -> (Progress, Option<Fail>) {
    if o.1 is Some {
        o
    } else {
        match command_of(c, t, extra) {
            Err(f) => (o.0, Some(f)),
            Ok(cmd) => (
                Progress { acts: o.0.acts.push(Act::Run(name, cmd)), done: o.0.done.push(name) },
                None,
            ),
        }
    }
}

/// Planning the steps `steps[i..]` in order.
pub open spec fn run_steps(
    c: Ctx,
    extra: Seq<Seq<char>>,
    steps: Seq<Seq<char>>,
    i: int,
    st: Progress,
    vis: Seq<Seq<char>>,
    fuel: nat,
) -> (Progress, Option<Fail>)
    decreases fuel, steps.len() - i + 1,
{
    if i < 0 || i >= steps.len() {
        (st, None)
    } else {
        let o = run_task(c, extra, steps[i], st, vis, fuel);
        if o.1 is Some {
            o
        } else {
            run_steps(c, extra, steps, i + 1, o.0, vis, fuel)
        }
    }
}

/// Planning the tasks `names[i..]` in order, each from scratch.
pub open spec fn run_all(c: Ctx, extra: Seq<Seq<char>>, names: Seq<Seq<char>>, i: int, st: Progress) -> (
    Progress,
    Option<Fail>,
)
    decreases names.len() - i,
{
    if i < 0 || i >= names.len() {
        (st, None)
    } else {
        let o = run_task(c, extra, names[i], st, Seq::empty(), c.tasks.dom().len());
        if o.1 is Some {
            o
        } else {
            run_all(c, extra, names, i + 1, o.0)
        }
    }
}

pub open spec fn has_prefix(k: Seq<char>, p: Seq<char>) -> bool {
    p.len() <= k.len() && k.subrange(0, p.len() as int) == p
}

/// The tasks named `<g>.<...>`, in lexicographic order.
pub open spec fn members(c: Ctx, g: Seq<char>) -> Seq<Seq<char>> {
    sorted_of(c.tasks.dom().filter(|k: Seq<char>| has_prefix(k, g + seq!['.'])))
}

/// Planning one requested name: a group's members, a task, or else every task
/// under the name as a prefix; a name that matches nothing is reported.
pub open spec fn run_request(c: Ctx, extra: Seq<Seq<char>>, req: Seq<char>, st: Progress) -> (
    Progress,
    Option<Fail>,
) {
    if c.groups.contains_key(req) {
        run_all(
            c,
            extra,
            members(c, req),
            0,
            Progress { acts: st.acts.push(Act::Group(req)), ..st },
        )
    } else if c.tasks.contains_key(req) {
        run_task(c, extra, req, st, Seq::empty(), c.tasks.dom().len())
    } else if members(c, req).len() == 0 {
        (Progress { acts: st.acts.push(Act::NotFound(req)), ..st }, None)
    } else {
        run_all(c, extra, members(c, req), 0, st)
    }
}

pub open spec fn run_requests(
    c: Ctx,
    extra: Seq<Seq<char>>,
    reqs: Seq<Seq<char>>,
    i: int,
    st: Progress,
) -> (Progress, Option<Fail>)
    decreases reqs.len() - i,
{
    if i < 0 || i >= reqs.len() {
        (st, None)
    } else {
        let o = run_request(c, extra, reqs[i], st);
        if o.1 is Some {
            o
        } else {
            run_requests(c, extra, reqs, i + 1, o.0)
        }
    }
}

/// The plan for the requested names: its steps, and the failure that ends it early, if any.
pub open spec fn plan_spec(c: Ctx, reqs: Seq<Seq<char>>, extra: Seq<Seq<char>>) -> (
    Progress,
    Option<Fail>,
) {
    run_requests(c, extra, reqs, 0, Progress { acts: Seq::empty(), done: Seq::empty() })
}

pub open spec fn acts_view(v: Seq<Action>) -> Seq<Act> {
    Seq::new(v.len(), |i: int| v[i]@)
}

pub open spec fn err_view(e: Option<EvalError>) -> Option<Fail> {
    match e {
        Some(x) => Some(x@),
        None => None,
    }
}

/// A plan: the steps to take in order, and the failure that ends the run after them, if any.
#[derive(Debug)]
pub struct Plan {
    pub actions: Vec<Action>,
    pub error: Option<EvalError>,
}

fn append_chars(out: &mut Vec<char>, s: &[char])
    ensures
        final(out)@ == old(out)@ + s@,
{
    let mut i: usize = 0;
    while i < s.len()
        invariant
            i <= s@.len(),
            out@ == old(out)@ + s@.subrange(0, i as int),
        decreases s@.len() - i,
    {
        out.push(s[i]);
        i = i + 1;
        assert(out@ =~= old(out)@ + s@.subrange(0, i as int));
    }
    assert(s@.subrange(0, s@.len() as int) =~= s@);
}

fn join_extra(extra: &Vec<String>) -> (r: Vec<char>)
    ensures
        r@ == join_spaced(extra.deep_view()),
{
    let ghost xs = extra.deep_view();
    let mut out: Vec<char> = Vec::new();
    let mut i: usize = 0;
    assert(join_spaced(xs.subrange(0, 0)) =~= out@);
    while i < extra.len()
        invariant
            i <= extra@.len(),
            xs == extra.deep_view(),
            out@ == join_spaced(xs.subrange(0, i as int)),
        decreases extra@.len() - i,
    {
        let ghost sub = xs.subrange(0, i + 1);
        assert(sub.drop_last() =~= xs.subrange(0, i as int));
        assert(sub.last() == extra@[i as int]@);
        if i > 0 {
            out.push(' ');
        }
        let w = chars_of(extra[i].as_str());
        append_chars(&mut out, w.as_slice());
        proof {
            if i == 0 {
                assert(sub.len() == 1);
                assert(out@ =~= join_spaced(sub));
            } else {
                assert(out@ =~= join_spaced(sub));
            }
        }
        i = i + 1;
    }
    assert(xs.subrange(0, i as int) =~= xs);
    out
}

/// The finished command line of a task.
pub fn compose_command(ctx: &Context, t: &crate::context::Task, extra: &Vec<String>) -> (r: Result<String, EvalError>)
    ensures
        match command_of(ctx@, t.deep_view(), extra.deep_view()) {
            Ok(c) => r is Ok && r->Ok_0@ == c,
            Err(f) => r is Err && r->Err_0@ == f,
        },
{
    let mut line: Vec<char> = match &t.shell {
        Some(s) => chars_of(s.as_str()),
        None => match &t.cmd {
            Some(tpl) => match &ctx.base_cmd {
                Some(base) => {
                    let mut l = chars_of(base.as_str());
                    l.push(' ');
                    append_chars(&mut l, chars_of(tpl.as_str()).as_slice());
                    l
                },
                None => chars_of(tpl.as_str()),
            },
            None => {
                return Err(EvalError::NoCommand { message: t.name.clone(), line: 0 });
            },
        },
    };
    if extra.len() > 0 {
        line.push(' ');
        let j = join_extra(extra);
        append_chars(&mut line, j.as_slice());
    }
    let env = ctx.defs.overlaid(&t.props);
    let text = string_of(line.as_slice());
    assert(raw_command(ctx@, t.deep_view(), extra.deep_view()) == Some(text@));
    interpolate(text.as_str(), &env, 0)
}

/// Plans the task `name` after its steps, unless it is already planned.
fn execute_task(
    name: &String,
    ctx: &Context,
    extra: &Vec<String>,
    acts: &mut Vec<Action>,
    done: &mut Vec<String>,
    visiting: &mut Vec<String>,
) -> (r: Option<EvalError>)
    requires
        old(visiting)@.len() <= ctx.tasks@.dom().len(),
    ensures
        final(visiting)@ == old(visiting)@,
        (Progress { acts: acts_view(final(acts)@), done: final(done).deep_view() }, err_view(r))
            == run_task(
            ctx@,
            extra.deep_view(),
            name@,
            Progress { acts: acts_view(old(acts)@), done: old(done).deep_view() },
            old(visiting).deep_view(),
            (ctx.tasks@.dom().len() - old(visiting)@.len()) as nat,
        ),
    decreases ctx.tasks@.dom().len() - old(visiting)@.len(),
{
    let ghost c = ctx@;
    let ghost ex = extra.deep_view();
    let ghost fuel = (ctx.tasks@.dom().len() - visiting@.len()) as nat;
    if contains_text(done, name) {
        return None;
    }
    let t = match ctx.tasks.get(name) {
        Some(t) => t,
        None => {
            return Some(EvalError::TaskNotFound { message: name.clone(), line: 0 });
        },
    };
    if contains_text(visiting, name) || visiting.len() >= ctx.tasks.len() {
        return Some(other("Tasks depend on each other in a cycle", 0));
    }
    let ghost tm = t.deep_view();
    let ghost vis2 = visiting.deep_view().push(name@);
    let ghost target = run_steps(
        c,
        ex,
        tm.steps,
        0,
        Progress { acts: acts_view(acts@), done: done.deep_view() },
        vis2,
        (fuel - 1) as nat,
    );
    let ghost vis0 = visiting@;
    let ghost whole = run_task(
        c,
        ex,
        name@,
        Progress { acts: acts_view(acts@), done: done.deep_view() },
        visiting.deep_view(),
        fuel,
    );
    assert(whole == finish_task(c, ex, name@, tm, target));
    visiting.push(name.clone());
    assert(visiting.deep_view() =~= vis2);
    let mut i: usize = 0;
    while i < t.steps.len()
        invariant
            i <= t.steps@.len(),
            tm == t.deep_view(),
            c == ctx@,
            ex == extra.deep_view(),
            visiting@ == vis0.push(visiting@.last()),
            vis0 == old(visiting)@,
            whole == finish_task(c, ex, name@, tm, target),
            whole == run_task(
                c,
                ex,
                name@,
                Progress { acts: acts_view(old(acts)@), done: old(done).deep_view() },
                old(visiting).deep_view(),
                fuel,
            ),
            visiting@.len() == vis0.len() + 1,
            visiting.deep_view() == vis2,
            vis0.len() < ctx.tasks@.dom().len(),
            fuel == (ctx.tasks@.dom().len() - vis0.len()) as nat,
            run_steps(
                c,
                ex,
                tm.steps,
                i as int,
                Progress { acts: acts_view(acts@), done: done.deep_view() },
                vis2,
                (fuel - 1) as nat,
            ) == target,
        decreases t.steps@.len() - i,
    {
        assert(tm.steps[i as int] == t.steps@[i as int]@);
        assert(0 <= ctx.tasks@.dom().len() - visiting@.len() < ctx.tasks@.dom().len() - vis0.len());
        let e = execute_task(&t.steps[i], ctx, extra, acts, done, visiting);
        if e.is_some() {
            visiting.pop();
            assert(visiting@ =~= vis0);
            return e;
        }
        i = i + 1;
    }
    visiting.pop();
    assert(visiting@ =~= vis0);
    match compose_command(ctx, t, extra) {
        Err(e) => Some(e),
        Ok(cmd) => {
            let ghost before_a = acts@;
            let ghost before_d = done.deep_view();
            acts.push(Action::Run { name: name.clone(), command: cmd });
            done.push(name.clone());
            assert(acts_view(acts@) =~= acts_view(before_a).push(acts@.last()@));
            assert(done.deep_view() =~= before_d.push(name@));
            None
        },
    }
}

proof fn lemma_sorted_step(r: Seq<Seq<char>>, b: int)
    requires
        r.no_duplicates(),
        0 <= b < r.len(),
        is_least(r[b], r.to_set()),
    ensures
        sorted_of(r.to_set()) == seq![r[b]] + sorted_of(r.remove(b).to_set()),
        r.remove(b).no_duplicates(),
{
    let s = r.to_set();
    r.unique_seq_to_set();
    assert(s.contains(r[b]));
    let m = choose|m: Seq<char>| is_least(m, s);
    lemma_least_unique(m, r[b], s);
    let t = r.remove(b);
    assert(t.no_duplicates()) by {
        assert forall|i: int, j: int| 0 <= i < t.len() && 0 <= j < t.len() && i != j implies t[i]
            != t[j] by {
            let i2 = if i < b { i } else { i + 1 };
            let j2 = if j < b { j } else { j + 1 };
            assert(t[i] == r[i2] && t[j] == r[j2]);
        }
    }
    assert(s.remove(m) =~= t.to_set()) by {
        assert forall|x: Seq<char>| s.remove(m).contains(x) <==> t.to_set().contains(x) by {
            if s.remove(m).contains(x) {
                let k = choose|k: int| 0 <= k < r.len() && r[k] == x;
                assert(k != b);
                let k2 = if k < b { k } else { k - 1 };
                assert(t[k2] == x);
            }
            if t.to_set().contains(x) {
                let k = choose|k: int| 0 <= k < t.len() && t[k] == x;
                let k2 = if k < b { k } else { k + 1 };
                assert(r[k2] == x);
                assert(k2 != b);
            }
        }
    }
}

proof fn lemma_filter_no_dup(s: Seq<Seq<char>>, pred: spec_fn(Seq<char>) -> bool)
    requires
        s.no_duplicates(),
    ensures
        s.filter(pred).no_duplicates(),
    decreases s.len(),
{
    if s.len() > 0 {
        let d = s.drop_last();
        assert(s =~= d.push(s.last()));
        assert(d.no_duplicates());
        lemma_filter_no_dup(d, pred);
        d.lemma_filter_push(s.last(), pred);
        if pred(s.last()) {
            let f = d.filter(pred);
            assert forall|a: int, b: int| 0 <= a < b < f.push(s.last()).len() implies f.push(
                s.last(),
            )[a] != f.push(s.last())[b] by {
                if b == f.len() {
                    assert(f.contains(f[a]));
                    d.lemma_filter_contains_rev(pred, f[a]);
                    assert(d.contains(f[a]));
                    let k = choose|k: int| 0 <= k < d.len() && d[k] == f[a];
                    assert(s[k] == d[k]);
                }
            }
        }
    } else {
        assert(s.filter(pred) =~= Seq::<Seq<char>>::empty());
    }
}

/// The tasks named `<g>.<...>`, in lexicographic order.
pub fn members_of(ctx: &Context, g: &String) -> (r: Vec<String>)
    ensures
        r.deep_view() == members(ctx@, g@),
{
    let keys = ctx.tasks.keys();
    let ghost ks = keys.deep_view();
    let mut prefix = chars_of(g.as_str());
    prefix.push('.');
    let ghost p = prefix@;
    assert(p =~= g@ + seq!['.']);
    let ghost target = ctx@.tasks.dom().filter(|k: Seq<char>| has_prefix(k, g@ + seq!['.']));
    let ghost pred = |x: Seq<char>| has_prefix(x, p);
    let mut cand: Vec<String> = Vec::new();
    let mut cand_chars: Vec<Vec<char>> = Vec::new();
    let mut i: usize = 0;
    assert(ks.subrange(0, 0).filter(pred) =~= cand.deep_view());
    while i < keys.len()
        invariant
            i <= keys@.len(),
            ks == keys.deep_view(),
            ks.no_duplicates(),
            cand@.len() == cand_chars@.len(),
            forall|j: int| 0 <= j < cand@.len() ==> #[trigger] cand_chars@[j]@ == cand@[j]@,
            cand.deep_view() == ks.subrange(0, i as int).filter(pred),
            pred == (|x: Seq<char>| has_prefix(x, p)),
            p == prefix@,
            p == g@ + seq!['.'],
            ks.to_set() == ctx.tasks@.dom(),
            target == ctx@.tasks.dom().filter(|k: Seq<char>| has_prefix(k, g@ + seq!['.'])),
        decreases keys@.len() - i,
    {
        let kc = chars_of(keys[i].as_str());
        assert(kc@ == ks[i as int]);
        let mut ok = kc.len() >= prefix.len();
        if ok {
            let mut j: usize = 0;
            while j < prefix.len()
                invariant
                    kc@.len() >= prefix@.len(),
                    p == prefix@,
                    j <= prefix@.len(),
                    ok == forall|q: int| 0 <= q < j ==> kc@[q] == prefix@[q],
                decreases prefix@.len() - j,
            {
                if kc[j] != prefix[j] {
                    ok = false;
                }
                j = j + 1;
            }
            proof {
                if ok {
                    assert(kc@.subrange(0, p.len() as int) =~= p);
                } else {
                    let q = choose|q: int| 0 <= q < p.len() && kc@[q] != p[q];
                    assert(kc@.subrange(0, p.len() as int)[q] != p[q]);
                }
            }
        }
        assert(ok == has_prefix(ks[i as int], p));
        proof {
            assert(ks.subrange(0, i + 1) =~= ks.subrange(0, i as int).push(ks[i as int]));
            ks.subrange(0, i as int).lemma_filter_push(ks[i as int], pred);
        }
        let ghost before = cand.deep_view();
        if ok {
            let c = keys[i].clone();
            cand.push(c);
            cand_chars.push(kc);
            assert(cand.deep_view() =~= before.push(ks[i as int]));
        }
        i = i + 1;
    }
    proof {
        assert(ks.subrange(0, i as int) =~= ks);
        lemma_filter_no_dup(ks, pred);
        assert(cand.deep_view().to_set() =~= target) by {
            assert forall|x: Seq<char>| cand.deep_view().to_set().contains(x) <==> target.contains(
                x,
            ) by {
                if target.contains(x) {
                    assert(ks.to_set().contains(x));
                    let k = choose|k: int| 0 <= k < ks.len() && ks[k] == x;
                    ks.lemma_filter_contains(pred, k);
                }
                if cand.deep_view().to_set().contains(x) {
                    let k = choose|k: int| 0 <= k < cand.deep_view().len() && cand.deep_view()[k] == x;
                    ks.lemma_filter_pred(pred, k);
                    ks.lemma_filter_contains_rev(pred, x);
                    assert(ks.to_set().contains(x));
                }
            }
        }
    }
    let mut out: Vec<String> = Vec::new();
    let mut rem = cand;
    let mut rem_chars = cand_chars;
    assert(out.deep_view() =~= Seq::<Seq<char>>::empty());
    while rem.len() > 0
        invariant
            rem@.len() == rem_chars@.len(),
            forall|j: int| 0 <= j < rem@.len() ==> #[trigger] rem_chars@[j]@ == rem@[j]@,
            rem.deep_view().no_duplicates(),
            out.deep_view() + sorted_of(rem.deep_view().to_set()) == sorted_of(target),
        decreases rem@.len(),
    {
        let ghost rv = rem.deep_view();
        let mut b: usize = 0;
        let mut j: usize = 1;
        while j < rem.len()
            invariant
                rem@.len() == rem_chars@.len(),
                forall|q: int| 0 <= q < rem@.len() ==> #[trigger] rem_chars@[q]@ == rem@[q]@,
                rv == rem.deep_view(),
                0 <= b < j <= rem@.len(),
                forall|q: int| 0 <= q < j ==> rv[q] == rv[b as int] || lex_lt(rv[b as int], #[trigger] rv[q]),
            decreases rem@.len() - j,
        {
            assert(rv[j as int] == rem_chars@[j as int]@ && rv[b as int] == rem_chars@[b as int]@);
            if text_lt(&rem_chars[j], &rem_chars[b]) {
                proof {
                    assert forall|q: int| 0 <= q < j + 1 implies rv[q] == rv[j as int] || lex_lt(
                        rv[j as int],
                        #[trigger] rv[q],
                    ) by {
                        if q < j && rv[q] != rv[b as int] {
                            lemma_lex_trans(rv[j as int], rv[b as int], rv[q]);
                        }
                    }
                }
                b = j;
            } else {
                proof {
                    if rv[j as int] != rv[b as int] {
                        lemma_lex_total(rv[j as int], rv[b as int]);
                    }
                }
            }
            j = j + 1;
        }
        proof {
            assert forall|x: Seq<char>| #[trigger] rv.to_set().contains(x) && x != rv[b as int] implies lex_lt(
                rv[b as int],
                x,
            ) by {
                let q = choose|q: int| 0 <= q < rv.len() && rv[q] == x;
                assert(rv[q] == x);
            }
            assert(rv.to_set().contains(rv[b as int]));
            lemma_sorted_step(rv, b as int);
        }
        let m = rem.remove(b);
        let _mc = rem_chars.remove(b);
        let ghost before = out.deep_view();
        out.push(m);
        proof {
            assert(rem.deep_view() =~= rv.remove(b as int));
            assert(out.deep_view() =~= before.push(rv[b as int]));
            assert forall|q: int| 0 <= q < rem@.len() implies #[trigger] rem_chars@[q]@ == rem@[q]@ by {
            }
        }
    }
    proof {
        assert(rem.deep_view().to_set() =~= Set::<Seq<char>>::empty());
        assert(out.deep_view() + sorted_of(Set::<Seq<char>>::empty()) =~= out.deep_view());
    }
    out
}

fn run_names(
    names: &Vec<String>,
    ctx: &Context,
    extra: &Vec<String>,
    acts: &mut Vec<Action>,
    done: &mut Vec<String>,
) -> (r: Option<EvalError>)
    ensures
        (Progress { acts: acts_view(final(acts)@), done: final(done).deep_view() }, err_view(r))
            == run_all(
            ctx@,
            extra.deep_view(),
            names.deep_view(),
            0,
            Progress { acts: acts_view(old(acts)@), done: old(done).deep_view() },
        ),
{
    let ghost target = run_all(
        ctx@,
        extra.deep_view(),
        names.deep_view(),
        0,
        Progress { acts: acts_view(acts@), done: done.deep_view() },
    );
    let mut i: usize = 0;
    while i < names.len()
        invariant
            i <= names@.len(),
            run_all(
                ctx@,
                extra.deep_view(),
                names.deep_view(),
                i as int,
                Progress { acts: acts_view(acts@), done: done.deep_view() },
            ) == target,
            target == run_all(
                ctx@,
                extra.deep_view(),
                names.deep_view(),
                0,
                Progress { acts: acts_view(old(acts)@), done: old(done).deep_view() },
            ),
        decreases names@.len() - i,
    {
        let mut visiting: Vec<String> = Vec::new();
        assert(visiting.deep_view() =~= Seq::<Seq<char>>::empty());
        assert(names.deep_view()[i as int] == names@[i as int]@);
        let e = execute_task(&names[i], ctx, extra, acts, done, &mut visiting);
        if e.is_some() {
            return e;
        }
        i = i + 1;
    }
    None
}

/// Plans the requested task and group names in order, with `extra_args`
/// appended to every command line.
pub fn plan(ctx: &Context, requested: &Vec<String>, extra_args: &Vec<String>) -> (r: Plan)
    ensures
        acts_view(r.actions@) == plan_spec(ctx@, requested.deep_view(), extra_args.deep_view()).0.acts,
        err_view(r.error) == plan_spec(ctx@, requested.deep_view(), extra_args.deep_view()).1,
{
    let mut acts: Vec<Action> = Vec::new();
    let mut done: Vec<String> = Vec::new();
    let ghost c = ctx@;
    let ghost ex = extra_args.deep_view();
    let ghost reqs = requested.deep_view();
    let ghost target = plan_spec(c, reqs, ex);
    assert(acts_view(acts@) =~= Seq::<Act>::empty());
    assert(done.deep_view() =~= Seq::<Seq<char>>::empty());
    let mut i: usize = 0;
    while i < requested.len()
        invariant
            i <= requested@.len(),
            c == ctx@,
            ex == extra_args.deep_view(),
            reqs == requested.deep_view(),
            target == plan_spec(c, reqs, ex),
            run_requests(c, ex, reqs, i as int, Progress { acts: acts_view(acts@), done: done.deep_view() })
                == target,
        decreases requested@.len() - i,
    {
        let req = &requested[i];
        assert(reqs[i as int] == req@);
        let ghost before_a = acts@;
        let e = if ctx.groups.contains_key(req) {
            acts.push(Action::Group(req.clone()));
            assert(acts_view(acts@) =~= acts_view(before_a).push(Act::Group(req@)));
            let ms = members_of(ctx, req);
            run_names(&ms, ctx, extra_args, &mut acts, &mut done)
        } else if ctx.tasks.contains_key(req) {
            let mut visiting: Vec<String> = Vec::new();
            assert(visiting.deep_view() =~= Seq::<Seq<char>>::empty());
            execute_task(req, ctx, extra_args, &mut acts, &mut done, &mut visiting)
        } else {
            let ms = members_of(ctx, req);
            if ms.len() == 0 {
                acts.push(Action::NotFound(req.clone()));
                assert(acts_view(acts@) =~= acts_view(before_a).push(Act::NotFound(req@)));
                None
            } else {
                run_names(&ms, ctx, extra_args, &mut acts, &mut done)
            }
        };
        if e.is_some() {
            return Plan { actions: acts, error: e };
        }
        i = i + 1;
    }
    Plan { actions: acts, error: None }
}

} // verus!
