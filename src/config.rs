//! The two outside file formats that declarations load: `KEY=VALUE` environment
//! files and JSON configuration documents.

use vstd::prelude::*;
use crate::host::pairs_view;
use crate::parser::line_end;
use crate::table::Table;
use crate::text::{chars_of, string_of, trim, trim_chars};

verus! {

/// The lines of `s` from `p`: the texts between newlines.
pub open spec fn lines_from(s: Seq<char>, p: int) -> Seq<Seq<char>>
    decreases s.len() + 1 - p,
{
    if p < 0 || p > s.len() {
        Seq::empty()
    } else {
        proof {
            crate::parser::lemma_line_end(s, p);
        }
        seq![s.subrange(p, line_end(s, p))] + lines_from(s, line_end(s, p) + 1)
    }
}

/// The first position at or after `i` that holds `c`, or the length of `t`.
pub open spec fn first_index(t: Seq<char>, c: char, i: int) -> int
    decreases t.len() - i,
{
    if 0 <= i < t.len() && t[i] != c {
        first_index(t, c, i + 1)
    } else {
        i
    }
}

/// `v` without one pair of surrounding double quotes.
pub open spec fn unquote(v: Seq<char>) -> Seq<char> {
    if v.len() >= 2 && v[0] == '"' && v.last() == '"' {
        v.subrange(1, v.len() - 1)
    } else {
        v
    }
}

/// The variable that one line of an environment file sets: none for a blank
/// line, a `#` comment or a line without `=`.
pub open spec fn env_line(l: Seq<char>) -> Option<(Seq<char>, Seq<char>)> {
    let t = trim(l);
    let i = first_index(t, '=', 0);
    if t.len() == 0 || t[0] == '#' || i >= t.len() {
        None
    } else {
        Some((trim(t.subrange(0, i)), unquote(trim(t.subrange(i + 1, t.len() as int)))))
    }
}

pub open spec fn env_pairs_of(ls: Seq<Seq<char>>) -> Seq<(Seq<char>, Seq<char>)>
    decreases ls.len(),
{
    if ls.len() == 0 {
        Seq::empty()
    } else {
        env_pairs_of(ls.drop_last()) + match env_line(ls.last()) {
            Some(kv) => seq![kv],
            None => Seq::empty(),
        }
    }
}

/// The variables that an environment file sets, in order.
pub open spec fn env_pairs(s: Seq<char>) -> Seq<(Seq<char>, Seq<char>)> {
    env_pairs_of(lines_from(s, 0))
}

proof fn lemma_lines_from_step(s: Seq<char>, p: int)
    requires
        0 <= p <= s.len(),
    ensures
        lines_from(s, p) == seq![s.subrange(p, line_end(s, p))] + lines_from(s, line_end(s, p) + 1),
{
}

fn slice_of(v: &Vec<char>, a: usize, b: usize) -> (r: Vec<char>)
    requires
        a <= b <= v@.len(),
    ensures
        r@ == v@.subrange(a as int, b as int),
{
    let mut r: Vec<char> = Vec::new();
    let mut i = a;
    while i < b
        invariant
            a <= i <= b <= v@.len(),
            r@ == v@.subrange(a as int, i as int),
        decreases b - i,
    {
        r.push(v[i]);
        i = i + 1;
        assert(r@ =~= v@.subrange(a as int, i as int));
    }
    r
}

fn env_line_of(l: &Vec<char>) -> (r: Option<(String, String)>)
    ensures
        match env_line(l@) {
            Some((k, v)) => match r {
                Some(kv) => kv.0@ == k && kv.1@ == v,
                None => false,
            },
            None => r is None,
        },
{
    let t = trim_chars(l.as_slice());
    if t.len() == 0 || t[0] == '#' {
        return None;
    }
    let mut i: usize = 0;
    while i < t.len() && t[i] != '='
        invariant
            i <= t@.len(),
            first_index(t@, '=', i as int) == first_index(t@, '=', 0),
        decreases t@.len() - i,
    {
        i = i + 1;
    }
    if i >= t.len() {
        return None;
    }
    let key = trim_chars(slice_of(&t, 0, i).as_slice());
    let raw = trim_chars(slice_of(&t, i + 1, t.len()).as_slice());
    let value = if raw.len() >= 2 && raw[0] == '"' && raw[raw.len() - 1] == '"' {
        slice_of(&raw, 1, raw.len() - 1)
    } else {
        raw
    };
    Some((string_of(key.as_slice()), string_of(value.as_slice())))
}

/// The variables that an environment file of `KEY=VALUE` lines sets, in order.
pub fn parse_env_file(content: &String) -> (r: Vec<(String, String)>)
    ensures
        pairs_view(r@) == env_pairs(content@),
{
    let s = chars_of(content.as_str());
    let ghost sv = s@;
    let n = s.len();
    let mut r: Vec<(String, String)> = Vec::new();
    let mut p: usize = 0;
    let ghost done: Seq<Seq<char>> = Seq::empty();
    assert(pairs_view(r@) =~= Seq::<(Seq<char>, Seq<char>)>::empty());
    assert(done + lines_from(sv, 0) =~= lines_from(sv, 0));
    loop
        invariant
            s@ == sv,
            sv == content@,
            n == sv.len(),
            p <= n,
            done + lines_from(sv, p as int) == lines_from(sv, 0),
            pairs_view(r@) == env_pairs_of(done),
        decreases n - p,
    {
        let mut e = p;
        while e < n && s[e] != '\n'
            invariant
                s@ == sv,
                n == sv.len(),
                p <= e <= n,
                line_end(sv, e as int) == line_end(sv, p as int),
            decreases n - e,
        {
            e = e + 1;
        }
        let line = slice_of(&s, p, e);
        proof {
            lemma_lines_from_step(sv, p as int);
        }
        let ghost before = r@;
        match env_line_of(&line) {
            Some(kv) => {
                r.push(kv);
            },
            None => {},
        }
        proof {
            let d2 = done.push(line@);
            assert(d2.drop_last() =~= done);
            assert(pairs_view(r@) =~= env_pairs_of(d2));
            assert(d2 + lines_from(sv, e + 1) =~= done + lines_from(sv, p as int));
            done = d2;
        }
        if e >= n {
            assert(lines_from(sv, e + 1) =~= Seq::<Seq<char>>::empty());
            assert(done =~= lines_from(sv, 0));
            return r;
        }
        p = e + 1;
    }
}

/// The fields of a JSON document: for a top-level object, each key with its
/// text where the value is a JSON string; no fields for any other document;
/// `None` where the text is not JSON.
pub uninterp spec fn json_fields(text: Seq<char>) -> Option<Seq<(Seq<char>, Option<Seq<char>>)>>;

#[verifier::external_type_specification]
#[verifier::external_body]
pub struct ExJsonError(serde_json::Error);

pub open spec fn field_view(v: Seq<(String, Option<String>)>) -> Seq<(Seq<char>, Option<Seq<char>>)> {
    Seq::new(
        v.len(),
        |i: int|
            (
                v[i].0@,
                match v[i].1 {
                    Some(s) => Some(s@),
                    None => None,
                },
            ),
    )
}

/// Relies on `serde_json::from_str::<serde_json::Value>`: the document's
/// top-level fields, each with its text where the value is a JSON string.
#[verifier::external_body]
fn json_document_fields(text: &str) -> (r: Result<Vec<(String, Option<String>)>, serde_json::Error>)
    ensures
        r is Ok <==> json_fields(text@) is Some,
        r is Ok ==> field_view(r->Ok_0@) == json_fields(text@)->0,
{
    match serde_json::from_str::<serde_json::Value>(text) {
        Ok(serde_json::Value::Object(m)) => Ok(
            m.into_iter().map(|(k, v)| (k, match v {
                serde_json::Value::String(s) => Some(s),
                _ => None,
            })).collect(),
        ),
        Ok(_) => Ok(Vec::new()),
        Err(e) => Err(e),
    }
}

/// Relies on `serde_json::Error`'s `Display`: the error's description.
#[verifier::external_body]
fn json_error_text(e: &serde_json::Error) -> (r: String) {
    e.to_string()
}

/// The string fields that `(conf key)` can read.
pub open spec fn fields_map(fs: Seq<(Seq<char>, Option<Seq<char>>)>) -> Map<Seq<char>, Seq<char>>
    decreases fs.len(),
{
    if fs.len() == 0 {
        Map::empty()
    } else {
        match fs.last().1 {
            Some(v) => fields_map(fs.drop_last()).insert(fs.last().0, v),
            None => fields_map(fs.drop_last()),
        }
    }
}

/// The string fields of a JSON configuration document, or the parser's description
/// of why the text is not JSON.
pub fn parse_config(text: &String) -> (r: Result<Table<String>, String>)
    ensures
        r is Ok <==> json_fields(text@) is Some,
        r is Ok ==> r->Ok_0@ == fields_map(json_fields(text@)->0),
{
    match json_document_fields(text.as_str()) {
        Ok(fields) => {
            let ghost fv = field_view(fields@);
            let mut t: Table<String> = Table::new();
            let mut i: usize = 0;
            while i < fields.len()
                invariant
                    i <= fields@.len(),
                    fv == field_view(fields@),
                    t@ == fields_map(fv.subrange(0, i as int)),
                decreases fields@.len() - i,
            {
                let ghost pre = fv.subrange(0, i as int);
                assert(fv.subrange(0, i + 1).drop_last() =~= pre);
                match &fields[i].1 {
                    Some(v) => {
                        t.insert(fields[i].0.clone(), v.clone());
                    },
                    None => {},
                }
                i = i + 1;
            }
            assert(fv.subrange(0, i as int) =~= fv);
            Ok(t)
        },
        Err(e) => Err(json_error_text(&e)),
    }
}

} // verus!
