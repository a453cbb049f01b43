//! Rendering syntax nodes back to text, compactly or indented.

use vstd::prelude::*;
use crate::sexp::{Node, SExp, nodes_of, lemma_nodes_of};
use crate::text::{is_ws, is_whitespace, chars_of, string_of};

verus! {

/// The escape sequence that stands for `c` inside a string literal.
pub open spec fn esc_str_char(c: char) -> Seq<char> {
    if c == '\\' {
        seq!['\\', '\\']
    } else if c == '"' {
        seq!['\\', '"']
    } else if c == '\n' {
        seq!['\\', 'n']
    } else if c == '\r' {
        seq!['\\', 'r']
    } else if c == '\t' {
        seq!['\\', 't']
    } else if c == '\u{8}' {
        seq!['\\', 'b']
    } else if c == '\u{c}' {
        seq!['\\', 'f']
    } else {
        seq![c]
    }
}

pub open spec fn esc_str(t: Seq<char>) -> Seq<char>
    decreases t.len(),
{
    if t.len() == 0 {
        Seq::empty()
    } else {
        esc_str(t.drop_last()) + esc_str_char(t.last())
    }
}

/// The characters that a symbol's text escapes with a backslash.
pub open spec fn sym_special(c: char) -> bool {
    is_ws(c) || c == '(' || c == ')' || c == '[' || c == ']' || c == '"' || c == '\'' || c
        == '`' || c == ',' || c == '?' || c == ';' || c == '#'
}

pub open spec fn esc_sym(t: Seq<char>) -> Seq<char>
    decreases t.len(),
{
    if t.len() == 0 {
        Seq::empty()
    } else {
        esc_sym(t.drop_last()) + if sym_special(t.last()) {
            seq!['\\', t.last()]
        } else {
            seq![t.last()]
        }
    }
}

/// The compact text of a node.
pub open spec fn render(n: Node) -> Seq<char>
    decreases n,
{
    match n {
        Node::Sym(t, _) => esc_sym(t),
        Node::Str(t, _) => seq!['"'] + esc_str(t) + seq!['"'],
        Node::Quote(b, _) => seq!['\''] + render(*b),
        Node::List(items, _) => seq!['('] + render_items(items) + seq![')'],
    }
}

/// The compact texts of `items`, separated by single spaces.
pub open spec fn render_items(items: Seq<Node>) -> Seq<char>
    decreases items,
{
    if items.len() == 0 {
        Seq::empty()
    } else if items.len() == 1 {
        render(items[0])
    } else {
        render_items(items.drop_last()) + seq![' '] + render(items.last())
    }
}

/// `s` repeated `k` times.
pub open spec fn repeat(s: Seq<char>, k: nat) -> Seq<char>
    decreases k,
{
    if k == 0 {
        Seq::empty()
    } else {
        repeat(s, (k - 1) as nat) + s
    }
}

/// The indented text of a node whose line starts with `cur`, one `ind` deeper per level.
pub open spec fn render_pretty(n: Node, ind: Seq<char>, cur: Seq<char>) -> Seq<char>
    decreases n,
{
    match n {
        Node::Quote(b, _) => seq!['\''] + render_pretty(*b, ind, cur),
        Node::List(items, _) => if items.len() == 0 {
            seq!['(', ')']
        } else {
            seq!['(', '\n'] + cur + ind + render_pretty_items(items, ind, cur + ind) + seq!['\n']
                + cur + seq![')']
        },
        _ => render(n),
    }
}

/// The indented texts of `items`, each after the first on a new line that starts with `cur`.
pub open spec fn render_pretty_items(items: Seq<Node>, ind: Seq<char>, cur: Seq<char>) -> Seq<char>
    decreases items,
{
    if items.len() == 0 {
        Seq::empty()
    } else if items.len() == 1 {
        render_pretty(items[0], ind, cur)
    } else {
        render_pretty_items(items.drop_last(), ind, cur) + seq!['\n'] + cur + render_pretty(
            items.last(),
            ind,
            cur,
        )
    }
}

fn push_all(out: &mut Vec<char>, s: &[char])
    ensures
        final(out)@ == old(out)@ + s@,
{
    let mut i: usize = 0;
    while i < s.len()
        invariant
            i <= s@.len(),
            out@ == old(out)@ + s@.subrange(0, i as int),
        decreases s@.len() - i,
    {
        out.push(s[i]);
        i = i + 1;
        assert(out@ =~= old(out)@ + s@.subrange(0, i as int));
    }
    assert(s@.subrange(0, s@.len() as int) =~= s@);
}

fn is_sym_special(c: char) -> (r: bool)
    ensures
        r == sym_special(c),
{
    is_whitespace(c) || c == '(' || c == ')' || c == '[' || c == ']' || c == '"' || c == '\''
        || c == '`' || c == ',' || c == '?' || c == ';' || c == '#'
}

fn write_escaped(t: &[char], is_sym: bool, out: &mut Vec<char>)
    ensures
        final(out)@ == old(out)@ + if is_sym {
            esc_sym(t@)
        } else {
            esc_str(t@)
        },
{
    let mut i: usize = 0;
    while i < t.len()
        invariant
            i <= t@.len(),
            out@ == old(out)@ + if is_sym {
                esc_sym(t@.subrange(0, i as int))
            } else {
                esc_str(t@.subrange(0, i as int))
            },
        decreases t@.len() - i,
    {
        let c = t[i];
        let ghost pre = t@.subrange(0, i as int);
        proof {
            assert(t@.subrange(0, i + 1).drop_last() =~= pre);
        }
        if is_sym {
            if is_sym_special(c) {
                out.push('\\');
            }
            out.push(c);
        } else if c == '\\' {
            out.push('\\');
            out.push('\\');
        } else if c == '"' {
            out.push('\\');
            out.push('"');
        } else if c == '\n' {
            out.push('\\');
            out.push('n');
        } else if c == '\r' {
            out.push('\\');
            out.push('r');
        } else if c == '\t' {
            out.push('\\');
            out.push('t');
        } else if c == '\u{8}' {
            out.push('\\');
            out.push('b');
        } else if c == '\u{c}' {
            out.push('\\');
            out.push('f');
        } else {
            out.push(c);
        }
        i = i + 1;
        proof {
            if is_sym {
                assert(out@ =~= old(out)@ + esc_sym(t@.subrange(0, i as int)));
            } else {
                assert(out@ =~= old(out)@ + esc_str(t@.subrange(0, i as int)));
            }
        }
    }
    assert(t@.subrange(0, t@.len() as int) =~= t@);
}

fn write_compact(e: &SExp, out: &mut Vec<char>)
    ensures
        final(out)@ == old(out)@ + render(e@),
    decreases e,
{
    match e {
        SExp::Symbol(s, _) => {
            let t = chars_of(s.as_str());
            write_escaped(t.as_slice(), true, out);
        },
        SExp::String(s, _) => {
            let t = chars_of(s.as_str());
            out.push('"');
            write_escaped(t.as_slice(), false, out);
            out.push('"');
            assert(final(out)@ =~= old(out)@ + render(e@));
        },
        SExp::Quoted(b, _) => {
            out.push('\'');
            write_compact(b, out);
            assert(final(out)@ =~= old(out)@ + render(e@));
        },
        SExp::List(items, _) => {
            let ghost ns = nodes_of(items@);
            proof {
                lemma_nodes_of(items@);
            }
            out.push('(');
            let ghost start = out@;
            let mut i: usize = 0;
            while i < items.len()
                invariant
                    i <= items@.len(),
                    *e is List,
                    (*e)->List_0 == *items,
                    ns == nodes_of(items@),
                    ns.len() == items@.len(),
                    forall|j: int| 0 <= j < items@.len() ==> #[trigger] ns[j] == node_of_at(items@, j),
                    out@ == start + render_items(ns.subrange(0, i as int)),
                decreases items@.len() - i,
            {
                if i > 0 {
                    out.push(' ');
                }
                proof {
                    assert(decreases_to!(*e => (*e)->List_0));
                    assert((*e)->List_0 == *items);
                    assert(decreases_to!(*items => items@));
                    assert(decreases_to!(items@ => items@[i as int]));
                    assert(decreases_to!(*e => items@[i as int]));
                }
                write_compact(&items[i], out);
                proof {
                    let sub = ns.subrange(0, i + 1);
                    assert(sub.drop_last() =~= ns.subrange(0, i as int));
                    assert(sub.last() == ns[i as int]);
                    if i == 0 {
                        assert(sub[0] == ns[0]);
                    }
                }
                i = i + 1;
                assert(out@ =~= start + render_items(ns.subrange(0, i as int)));
            }
            out.push(')');
            assert(ns.subrange(0, items@.len() as int) =~= ns);
            assert(final(out)@ =~= old(out)@ + render(e@));
        },
    }
}

fn write_pretty(e: &SExp, ind: &[char], cur: &[char], out: &mut Vec<char>)
    ensures
        final(out)@ == old(out)@ + render_pretty(e@, ind@, cur@),
    decreases e,
{
    match e {
        SExp::Quoted(b, _) => {
            out.push('\'');
            write_pretty(b, ind, cur, out);
            assert(final(out)@ =~= old(out)@ + render_pretty(e@, ind@, cur@));
        },
        SExp::List(items, _) => {
            if items.len() == 0 {
                proof {
                    lemma_nodes_of(items@);
                }
                out.push('(');
                out.push(')');
                assert(final(out)@ =~= old(out)@ + render_pretty(e@, ind@, cur@));
                return;
            }
            let ghost ns = nodes_of(items@);
            proof {
                lemma_nodes_of(items@);
            }
            let mut deeper: Vec<char> = Vec::new();
            push_all(&mut deeper, cur);
            push_all(&mut deeper, ind);
            assert(deeper@ =~= cur@ + ind@);
            out.push('(');
            out.push('\n');
            push_all(out, deeper.as_slice());
            let ghost start = out@;
            let mut i: usize = 0;
            while i < items.len()
                invariant
                    i <= items@.len(),
                    *e is List,
                    (*e)->List_0 == *items,
                    deeper@ == cur@ + ind@,
                    ns == nodes_of(items@),
                    ns.len() == items@.len(),
                    forall|j: int| 0 <= j < items@.len() ==> #[trigger] ns[j] == node_of_at(items@, j),
                    out@ == start + render_pretty_items(ns.subrange(0, i as int), ind@, deeper@),
                decreases items@.len() - i,
            {
                if i > 0 {
                    out.push('\n');
                    push_all(out, deeper.as_slice());
                }
                proof {
                    assert(decreases_to!(*e => (*e)->List_0));
                    assert(decreases_to!(*items => items@));
                    assert(decreases_to!(items@ => items@[i as int]));
                }
                write_pretty(&items[i], ind, deeper.as_slice(), out);
                proof {
                    let sub = ns.subrange(0, i + 1);
                    assert(sub.drop_last() =~= ns.subrange(0, i as int));
                    assert(sub.last() == ns[i as int]);
                    if i == 0 {
                        assert(sub[0] == ns[0]);
                    }
                }
                i = i + 1;
                assert(out@ =~= start + render_pretty_items(ns.subrange(0, i as int), ind@, deeper@));
            }
            out.push('\n');
            push_all(out, cur);
            out.push(')');
            assert(ns.subrange(0, items@.len() as int) =~= ns);
            assert(final(out)@ =~= old(out)@ + render_pretty(e@, ind@, cur@));
        },
        _ => {
            write_compact(e, out);
        },
    }
}

/// The text of a node: compact on one line, or indented by two spaces per level.
pub fn dumps(exp: &SExp, pretty: bool) -> (r: String)
    ensures
        r@ == if pretty {
            render_pretty(exp@, seq![' ', ' '], Seq::empty())
        } else {
            render(exp@)
        },
{
    if pretty {
        proof {
            reveal_strlit("  ");
            assert(repeat("  "@, 0) =~= Seq::<char>::empty());
            assert("  "@ =~= seq![' ', ' ']);
        }
        dumps_pretty(exp, "  ", 0)
    } else {
        let mut out: Vec<char> = Vec::new();
        write_compact(exp, &mut out);
        assert(out@ =~= render(exp@));
        string_of(out.as_slice())
    }
}

/// The indented text of a node at nesting `level`, indenting by `indent` per level.
pub fn dumps_pretty(exp: &SExp, indent: &str, level: usize) -> (r: String)
    ensures
        r@ == render_pretty(exp@, indent@, repeat(indent@, level as nat)),
{
    let ind = chars_of(indent);
    let mut cur: Vec<char> = Vec::new();
    let mut k: usize = 0;
    while k < level
        invariant
            k <= level,
            ind@ == indent@,
            cur@ == repeat(indent@, k as nat),
        decreases level - k,
    {
        push_all(&mut cur, ind.as_slice());
        k = k + 1;
    }
    let mut out: Vec<char> = Vec::new();
    write_pretty(exp, ind.as_slice(), cur.as_slice(), &mut out);
    assert(out@ =~= render_pretty(exp@, indent@, repeat(indent@, level as nat)));
    string_of(out.as_slice())
}

spec fn node_of_at(s: Seq<SExp>, j: int) -> Node {
    s[j]@
}

} // verus!
