//! String interpolation: `{name}` placeholders replaced from an environment,
//! pass after pass, at most ten times.

use vstd::prelude::*;
use crate::error::{EvalError, Fail, FailKind, fail};
use crate::table::Table;
use crate::text::{chars_of, string_of, text};

verus! {

/// The number of substitution passes before interpolation gives up.
pub const MAX_PASSES: usize = 10;

/// The first `}` at or after `p`, or the end of `s`.
pub open spec fn first_close(s: Seq<char>, p: int) -> int
    decreases s.len() - p,
{
    if 0 <= p < s.len() && s[p] != '}' {
        first_close(s, p + 1)
    } else {
        p
    }
}

/// The names inside the placeholders of `s` from `p`: the leftmost
/// non-overlapping matches of `\{([^}]+)\}`, each giving its group.
pub open spec fn keys_from(s: Seq<char>, p: int) -> Seq<Seq<char>>
    decreases s.len() - p,
{
    if p < 0 || p >= s.len() {
        Seq::empty()
    } else if s[p] == '{' && p + 1 < first_close(s, p + 1) < s.len() {
        seq![s.subrange(p + 1, first_close(s, p + 1))] + keys_from(s, first_close(s, p + 1) + 1)
    } else {
        keys_from(s, p + 1)
    }
}

pub open spec fn placeholder_keys(s: Seq<char>) -> Seq<Seq<char>> {
    keys_from(s, 0)
}

/// Relies on `regex::Regex::captures_iter` with the pattern `\{([^}]+)\}`: the
/// text of group 1 of each successive non-overlapping leftmost-first match.
/// The pattern is a constant that compiles, so the `unwrap` does not panic, and
/// group 1 takes part in every match, so indexing it does not panic either.
#[verifier::external_body]
fn placeholder_names(s: &str) -> (r: Vec<String>)
    ensures
        r.deep_view() == placeholder_keys(s@),
{
    let re = regex::Regex::new(r"\{([^}]+)\}").unwrap();
    re.captures_iter(s).map(|c| c[1].to_string()).collect()
}

/// `s` with each non-overlapping occurrence of `pat`, from the left, replaced by `rep`.
pub open spec fn replace_all(s: Seq<char>, pat: Seq<char>, rep: Seq<char>) -> Seq<char>
    decreases s.len(),
{
    if pat.len() == 0 || s.len() < pat.len() {
        s
    } else if s.subrange(0, pat.len() as int) == pat {
        rep + replace_all(s.subrange(pat.len() as int, s.len() as int), pat, rep)
    } else {
        seq![s[0]] + replace_all(s.drop_first(), pat, rep)
    }
}

pub open spec fn braced(k: Seq<char>) -> Seq<char> {
    seq!['{'] + k + seq!['}']
}

/// One pass: each key's placeholder replaced, in order, by its value.
pub open spec fn apply_keys(cur: Seq<char>, keys: Seq<Seq<char>>, env: Map<Seq<char>, Seq<char>>) -> Seq<
    char,
>
    decreases keys.len(),
{
    if keys.len() == 0 {
        cur
    } else {
        apply_keys(replace_all(cur, braced(keys[0]), env[keys[0]]), keys.drop_first(), env)
    }
}

/// The first key that `env` lacks.
pub open spec fn first_missing(keys: Seq<Seq<char>>, env: Map<Seq<char>, Seq<char>>) -> Option<
    Seq<char>,
>
    decreases keys.len(),
{
    if keys.len() == 0 {
        None
    } else if !env.contains_key(keys[0]) {
        Some(keys[0])
    } else {
        first_missing(keys.drop_first(), env)
    }
}

pub enum InterpFail {
    Undefined(Seq<char>),
    Depth,
}

/// Interpolation with `fuel` passes left.
pub open spec fn interp(s: Seq<char>, env: Map<Seq<char>, Seq<char>>, fuel: nat) -> Result<
    Seq<char>,
    InterpFail,
>
    decreases fuel,
{
    let keys = placeholder_keys(s);
    if keys.len() == 0 {
        Ok(s)
    } else if fuel == 0 {
        Err(InterpFail::Depth)
    } else if first_missing(keys, env) is Some {
        Err(InterpFail::Undefined(first_missing(keys, env)->0))
    } else {
        interp(apply_keys(s, keys, env), env, (fuel - 1) as nat)
    }
}

pub open spec fn interpolation(s: Seq<char>, env: Map<Seq<char>, Seq<char>>) -> Result<
    Seq<char>,
    InterpFail,
> {
    interp(s, env, MAX_PASSES as nat)
}

/// The failure an interpolation failure becomes at `line`.
pub open spec fn interp_fail(f: InterpFail, line: nat) -> Fail {
    match f {
        InterpFail::Undefined(k) => fail(FailKind::UndefinedVariable(k), line),
        InterpFail::Depth => fail(FailKind::InterpolationDepthExceeded, line),
    }
}

fn starts_with_at(s: &Vec<char>, i: usize, pat: &Vec<char>) -> (r: bool)
    requires
        i <= s@.len(),
    ensures
        r == (pat@.len() <= s@.len() - i && s@.subrange(i as int, i + pat@.len()) == pat@),
{
    let n = s.len();
    if pat.len() > n - i {
        return false;
    }
    let mut j: usize = 0;
    while j < pat.len()
        invariant
            n == s@.len(),
            i <= s@.len(),
            pat@.len() <= s@.len() - i,
            j <= pat@.len(),
            forall|k: int| 0 <= k < j ==> s@[i + k] == pat@[k],
        decreases pat@.len() - j,
    {
        if s[i + j] != pat[j] {
            assert(s@.subrange(i as int, i + pat@.len())[j as int] != pat@[j as int]);
            return false;
        }
        j = j + 1;
    }
    assert(s@.subrange(i as int, i + pat@.len()) =~= pat@);
    true
}

/// Replaces each non-overlapping occurrence of `pat`, from the left, by `rep`.
pub fn replace_chars(s: &Vec<char>, pat: &Vec<char>, rep: &Vec<char>) -> (r: Vec<char>)
    ensures
        r@ == replace_all(s@, pat@, rep@),
{
    if pat.len() == 0 {
        return s.clone();
    }
    let mut out: Vec<char> = Vec::new();
    let mut i: usize = 0;
    assert(s@.subrange(0, s@.len() as int) =~= s@);
    assert(out@ + replace_all(s@, pat@, rep@) =~= replace_all(s@, pat@, rep@));
    while i < s.len()
        invariant
            i <= s@.len(),
            pat@.len() > 0,
            out@ + replace_all(s@.subrange(i as int, s@.len() as int), pat@, rep@) == replace_all(
                s@,
                pat@,
                rep@,
            ),
        decreases s@.len() - i,
    {
        let ghost rest = s@.subrange(i as int, s@.len() as int);
        if starts_with_at(s, i, pat) {
            assert(rest.subrange(0, pat@.len() as int) =~= s@.subrange(i as int, i + pat@.len()));
            assert(rest.subrange(pat@.len() as int, rest.len() as int) =~= s@.subrange(
                i + pat@.len(),
                s@.len() as int,
            ));
            let mut k: usize = 0;
            let ghost before = out@;
            while k < rep.len()
                invariant
                    k <= rep@.len(),
                    out@ == before + rep@.subrange(0, k as int),
                decreases rep@.len() - k,
            {
                out.push(rep[k]);
                k = k + 1;
                assert(out@ =~= before + rep@.subrange(0, k as int));
            }
            assert(rep@.subrange(0, rep@.len() as int) =~= rep@);
            assert(out@ + replace_all(s@.subrange(i + pat@.len(), s@.len() as int), pat@, rep@)
                =~= before + replace_all(rest, pat@, rep@));
            i = i + pat.len();
        } else {
            proof {
                if rest.len() >= pat@.len() {
                    assert(rest.subrange(0, pat@.len() as int) =~= s@.subrange(
                        i as int,
                        i + pat@.len(),
                    ));
                }
            }
            assert(rest.drop_first() =~= s@.subrange(i + 1, s@.len() as int));
            let ghost before = out@;
            out.push(s[i]);
            assert(out@ + replace_all(s@.subrange(i + 1, s@.len() as int), pat@, rep@) =~= before
                + replace_all(rest, pat@, rep@));
            i = i + 1;
        }
    }
    assert(out@ + replace_all(s@.subrange(i as int, s@.len() as int), pat@, rep@) =~= out@);
    out
}

/// `text` with every `{name}` placeholder replaced from `env`, pass after pass:
/// fails on a name that `env` lacks, or when placeholders remain after ten passes.
pub fn interpolate(s: &str, env: &Table<String>, line: usize) -> (r: Result<String, EvalError>)
    ensures
        match interpolation(s@, env@) {
            Ok(t) => r is Ok && r->Ok_0@ == t,
            Err(f) => r is Err && r->Err_0@ == interp_fail(f, line as nat),
        },
{
    let mut cur = chars_of(s);
    let mut pass: usize = 0;
    while pass < MAX_PASSES
        invariant
            pass <= MAX_PASSES,
            interp(cur@, env@, (MAX_PASSES - pass) as nat) == interpolation(s@, env@),
        decreases MAX_PASSES - pass,
    {
        let cur_s = string_of(cur.as_slice());
        let keys = placeholder_names(cur_s.as_str());
        let ghost ks = placeholder_keys(cur@);
        if keys.len() == 0 {
            return Ok(cur_s);
        }
        assert(ks.subrange(0, ks.len() as int) =~= ks);
        let mut i: usize = 0;
        while i < keys.len()
            invariant
                i <= keys@.len(),
                keys.deep_view() == ks,
                ks == placeholder_keys(cur@),
                ks.len() > 0,
                pass < MAX_PASSES,
                interp(cur@, env@, (MAX_PASSES - pass) as nat) == interpolation(s@, env@),
                    first_missing(ks.subrange(i as int, ks.len() as int), env@) == first_missing(ks, env@),
            decreases keys@.len() - i,
        {
            let ghost rest = ks.subrange(i as int, ks.len() as int);
            assert(rest[0] == keys.deep_view()[i as int]);
            assert(keys.deep_view()[i as int] == keys@[i as int]@);
            assert(rest.drop_first() =~= ks.subrange(i + 1, ks.len() as int));
            if !env.contains_key(&keys[i]) {
                assert(first_missing(rest, env@) == Some(rest[0]));
                assert(ks.len() == keys@.len());
                assert(interp(cur@, env@, (MAX_PASSES - pass) as nat) == Err::<Seq<char>, InterpFail>(
                    InterpFail::Undefined(keys@[i as int]@),
                ));
                let name = keys[i].clone();
                return Err(EvalError::UndefinedVariable { message: name, line });
            }
            i = i + 1;
        }
        assert(ks.subrange(ks.len() as int, ks.len() as int) =~= Seq::<Seq<char>>::empty());
        let mut next = cur.clone();
        let mut j: usize = 0;
        assert(ks.subrange(0, ks.len() as int) =~= ks);
        while j < keys.len()
            invariant
                j <= keys@.len(),
                keys.deep_view() == ks,
                ks == placeholder_keys(cur@),
                ks.len() > 0,
                pass < MAX_PASSES,
                interp(cur@, env@, (MAX_PASSES - pass) as nat) == interpolation(s@, env@),
                    first_missing(ks, env@) is None,
                apply_keys(next@, ks.subrange(j as int, ks.len() as int), env@) == apply_keys(
                    cur@,
                    ks,
                    env@,
                ),
            decreases keys@.len() - j,
        {
            let ghost rest = ks.subrange(j as int, ks.len() as int);
            assert(rest[0] == keys.deep_view()[j as int]);
            assert(keys.deep_view()[j as int] == keys@[j as int]@);
            assert(rest.drop_first() =~= ks.subrange(j + 1, ks.len() as int));
            proof {
                lemma_first_missing_none(ks, env@, j as int);
            }
            let key_chars = chars_of(keys[j].as_str());
            let mut pat: Vec<char> = Vec::new();
            pat.push('{');
            let mut k: usize = 0;
            while k < key_chars.len()
                invariant
                    k <= key_chars@.len(),
                    pat@ == seq!['{'] + key_chars@.subrange(0, k as int),
                decreases key_chars@.len() - k,
            {
                pat.push(key_chars[k]);
                k = k + 1;
                assert(pat@ =~= seq!['{'] + key_chars@.subrange(0, k as int));
            }
            pat.push('}');
            assert(key_chars@.subrange(0, key_chars@.len() as int) =~= key_chars@);
            assert(pat@ =~= braced(keys@[j as int]@));
            let val = match env.get(&keys[j]) {
                Some(v) => chars_of(v.as_str()),
                None => {
                    proof {
                        assert(false);
                    }
                    Vec::new()
                },
            };
            next = replace_chars(&next, &pat, &val);
            j = j + 1;
        }
        assert(ks.subrange(ks.len() as int, ks.len() as int) =~= Seq::<Seq<char>>::empty());
        cur = next;
        pass = pass + 1;
    }
    let cur_s = string_of(cur.as_slice());
    let keys = placeholder_names(cur_s.as_str());
    if keys.len() == 0 {
        Ok(cur_s)
    } else {
        Err(EvalError::InterpolationDepthExceeded { message: text("(in interpolation)"), line })
    }
}

proof fn lemma_first_missing_none(ks: Seq<Seq<char>>, env: Map<Seq<char>, Seq<char>>, j: int)
    requires
        first_missing(ks, env) is None,
        0 <= j < ks.len(),
    ensures
        env.contains_key(ks[j]),
    decreases ks.len(),
{
    if j > 0 {
        lemma_first_missing_none(ks.drop_first(), env, j - 1);
    }
}

} // verus!
