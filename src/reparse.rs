//! Parsing a rendered tree gives the tree back, up to line numbers.

use vstd::prelude::*;
use crate::number::{all_digits, int_text, is_digit, lemma_parse_int_text, parse_int, unsigned_part};
use crate::parser::{
    atom_node, is_delim, lemma_skip_blank, lemma_skip_blank_stop, lemma_token_end, line_at, p_all,
    p_expr, p_items, p_string, skip_blank, std_syntax, token_end, unescape,
};
use crate::printer::{
    esc_str, esc_str_char, esc_sym, render, render_items, render_pretty, render_pretty_items,
    sym_special,
};
use crate::sexp::Node;
use crate::text::is_ws;

verus! {

/// Two trees that differ at most in their line numbers.
pub open spec fn same(a: Node, b: Node) -> bool
    decreases a,
{
    match (a, b) {
        (Node::Sym(x, _), Node::Sym(y, _)) => x == y,
        (Node::Str(x, _), Node::Str(y, _)) => x == y,
        (Node::Quote(x, _), Node::Quote(y, _)) => same(*x, *y),
        (Node::List(xs, _), Node::List(ys, _)) => xs.len() == ys.len() && forall|i: int|
            0 <= i < xs.len() ==> same(#[trigger] xs[i], ys[i]),
        _ => false,
    }
}

/// A symbol's text of the kind the parser produces, and that the renderer leaves
/// unescaped: not empty, none of the characters the renderer escapes, neither
/// of the tokens `nil` and `t`, and an integer only in canonical form.
pub open spec fn plain_symbol(t: Seq<char>) -> bool {
    &&& t.len() > 0
    &&& forall|i: int| 0 <= i < t.len() ==> !sym_special(#[trigger] t[i])
    &&& t != "nil"@
    &&& t != "t"@
    &&& parse_int(t) is Some ==> int_text(parse_int(t)->0) == t
}

/// A tree whose symbols are all plain.
pub open spec fn plain(n: Node) -> bool
    decreases n,
{
    match n {
        Node::Sym(t, _) => plain_symbol(t),
        Node::Str(_, _) => true,
        Node::Quote(b, _) => plain(*b),
        Node::List(xs, _) => forall|i: int| 0 <= i < xs.len() ==> plain(#[trigger] xs[i]),
    }
}

proof fn lemma_esc_sym_plain(t: Seq<char>)
    requires
        forall|i: int| 0 <= i < t.len() ==> !sym_special(#[trigger] t[i]),
    ensures
        esc_sym(t) == t,
    decreases t.len(),
{
    if t.len() > 0 {
        lemma_esc_sym_plain(t.drop_last());
        assert(t.drop_last().push(t.last()) =~= t);
        assert(!sym_special(t[t.len() - 1]));
    }
}

proof fn lemma_esc_str_front(t: Seq<char>)
    requires
        t.len() > 0,
    ensures
        esc_str(t) == esc_str_char(t[0]) + esc_str(t.drop_first()),
    decreases t.len(),
{
    if t.len() == 1 {
        assert(t.drop_last() =~= Seq::<char>::empty());
        assert(t.drop_first() =~= Seq::<char>::empty());
        assert(esc_str(t) =~= esc_str_char(t[0]) + esc_str(t.drop_first()));
    } else {
        lemma_esc_str_front(t.drop_last());
        assert(t.drop_last().drop_first() =~= t.drop_first().drop_last());
        assert(t.drop_first().last() == t.last());
        assert(esc_str(t) =~= esc_str_char(t[0]) + esc_str(t.drop_first()));
    }
}

proof fn lemma_render_items_front(items: Seq<Node>)
    requires
        items.len() >= 2,
    ensures
        render_items(items) == render(items[0]) + seq![' '] + render_items(items.drop_first()),
    decreases items.len(),
{
    if items.len() == 2 {
        assert(items.drop_last().len() == 1);
        assert(items.drop_first().len() == 1);
        assert(items.drop_last()[0] == items[0]);
        assert(items.drop_first()[0] == items[1]);
        assert(render_items(items.drop_last()) == render(items[0]));
        assert(render_items(items.drop_first()) == render(items[1]));
        assert(render_items(items) =~= render(items[0]) + seq![' '] + render_items(items.drop_first()));
    } else {
        lemma_render_items_front(items.drop_last());
        assert(items.drop_last().drop_first() =~= items.drop_first().drop_last());
        assert(items.drop_first().last() == items.last());
        assert(items.drop_last()[0] == items[0]);
        assert(render_items(items.drop_first()) == render_items(items.drop_first().drop_last()) + seq![
            ' ',
        ] + render(items.drop_first().last()));
        assert(render_items(items) =~= render(items[0]) + seq![' '] + render_items(items.drop_first()));
    }
}

/// The first character of a rendering is neither blank nor a closing parenthesis.
proof fn lemma_render_first(n: Node)
    requires
        plain(n),
    ensures
        render(n).len() > 0,
        !is_ws(render(n)[0]),
        render(n)[0] != ';',
        render(n)[0] != ')',
        n is Sym ==> render(n) == n->Sym_0,
{
    match n {
        Node::Sym(t, _) => {
            lemma_esc_sym_plain(t);
            assert(!sym_special(t[0]));
        },
        Node::Str(t, _) => {},
        Node::Quote(b, _) => {},
        Node::List(xs, _) => {},
    }
}

/// Reading a string literal's escaped body `esc_str(u)` at `q`, then its closing quote.
proof fn lemma_string_body(s: Seq<char>, q: int, u: Seq<char>, acc: Seq<char>)
    requires
        0 <= q,
        q + esc_str(u).len() < s.len(),
        s.subrange(q, q + esc_str(u).len()) == esc_str(u),
        s[q + esc_str(u).len()] == '"',
    ensures
        p_string(s, q, acc) == Ok::<(Seq<char>, int), crate::sexp::ParseFail>(
            (acc + u, q + esc_str(u).len() + 1),
        ),
    decreases u.len(),
{
    if u.len() == 0 {
        assert(acc + u =~= acc);
    } else {
        lemma_esc_str_front(u);
        let c = u[0];
        let e = esc_str_char(c);
        let rest = u.drop_first();
        let q2 = q + e.len();
        assert(s.subrange(q, q + e.len()) =~= e) by {
            assert forall|k: int| 0 <= k < e.len() implies s.subrange(q, q + e.len())[k] == e[k] by {
                assert(s.subrange(q, q + esc_str(u).len())[k] == esc_str(u)[k]);
            }
        }
        assert(s.subrange(q2, q2 + esc_str(rest).len()) =~= esc_str(rest)) by {
            assert forall|k: int| 0 <= k < esc_str(rest).len() implies s.subrange(
                q2,
                q2 + esc_str(rest).len(),
            )[k] == esc_str(rest)[k] by {
                assert(s.subrange(q, q + esc_str(u).len())[e.len() + k] == esc_str(u)[e.len() + k]);
            }
        }
        assert(s[q] == e[0]);
        if e.len() == 2 {
            assert(s[q + 1] == e[1]);
            assert(unescape(e[1]) == c);
        }
        lemma_string_body(s, q2, rest, acc.push(c));
        assert(acc.push(c) + rest =~= acc + u);
    }
}

proof fn lemma_token(s: Seq<char>, p: int, l: int)
    requires
        0 <= p <= p + l <= s.len(),
        forall|k: int| p <= k < p + l ==> !sym_special(#[trigger] s[k]),
        p + l == s.len() || is_ws(s[p + l]) || s[p + l] == ')',
    ensures
        token_end(s, p, ';') == p + l,
    decreases l,
{
    if l > 0 {
        assert(!sym_special(s[p]));
        lemma_token(s, p + 1, l - 1);
    }
}

/// Parsing at `p` a rendering of `n` that ends before a space, a closing
/// parenthesis or the end of the text reads back `n`, up to line numbers.
pub proof fn lemma_parse_render(s: Seq<char>, p: int, n: Node)
    requires
        plain(n),
        0 <= p,
        p + render(n).len() <= s.len(),
        s.subrange(p, p + render(n).len()) == render(n),
        p + render(n).len() == s.len() || is_ws(s[p + render(n).len()]) || s[p + render(
            n,
        ).len()] == ')',
    ensures
        p_expr(s, p, std_syntax()) is Ok,
        p_expr(s, p, std_syntax())->Ok_0.1 == p + render(n).len(),
        same(p_expr(s, p, std_syntax())->Ok_0.0, n),
    decreases n,
{
    let r = render(n);
    let syn = std_syntax();
    lemma_render_first(n);
    assert(s[p] == r[0]) by {
        assert(s.subrange(p, p + r.len())[0] == r[0]);
    }
    assert(skip_blank(s, p, ';') == p);
    match n {
        Node::Sym(t, _) => {
            assert forall|k: int| p <= k < p + r.len() implies !sym_special(#[trigger] s[k]) by {
                assert(s.subrange(p, p + r.len())[k - p] == t[k - p]);
            }
            lemma_token(s, p, r.len() as int);
            assert(s.subrange(p, p + r.len()) == t);
            assert(!sym_special(t[0]));
            reveal_strlit("nil");
            reveal_strlit("t");
            let line = line_at(s, p);
            assert(atom_node(t, syn, line) == Node::Sym(t, line)) by {
                if parse_int(t) is Some {
                    assert(int_text(parse_int(t)->0) == t);
                }
            }
        },
        Node::Str(t, _) => {
            let body = esc_str(t);
            assert(r == seq!['"'] + body + seq!['"']);
            assert(s.subrange(p + 1, p + 1 + body.len()) =~= body) by {
                assert forall|k: int| 0 <= k < body.len() implies s.subrange(p + 1, p + 1 + body.len())[k]
                    == body[k] by {
                    assert(s.subrange(p, p + r.len())[k + 1] == r[k + 1]);
                }
            }
            assert(s[p + 1 + body.len()] == '"') by {
                assert(s.subrange(p, p + r.len())[r.len() - 1] == r[r.len() - 1]);
            }
            lemma_string_body(s, p + 1, t, Seq::empty());
            assert(Seq::<char>::empty() + t =~= t);
        },
        Node::Quote(b, _) => {
            let rb = render(*b);
            assert(r == seq!['\''] + rb);
            assert(s.subrange(p + 1, p + 1 + rb.len()) =~= rb) by {
                assert forall|k: int| 0 <= k < rb.len() implies s.subrange(p + 1, p + 1 + rb.len())[k]
                    == rb[k] by {
                    assert(s.subrange(p, p + r.len())[k + 1] == r[k + 1]);
                }
            }
            lemma_render_first(*b);
            assert(s[p + 1] == rb[0]) by {
                assert(s.subrange(p + 1, p + 1 + rb.len())[0] == rb[0]);
            }
            assert(skip_blank(s, p + 1, ';') == p + 1);
            lemma_parse_render(s, p + 1, *b);
        },
        Node::List(xs, open) => {
            let ri = render_items(xs);
            assert(r == seq!['('] + ri + seq![')']);
            assert(s.subrange(p + 1, p + 1 + ri.len()) =~= ri) by {
                assert forall|k: int| 0 <= k < ri.len() implies s.subrange(p + 1, p + 1 + ri.len())[k]
                    == ri[k] by {
                    assert(s.subrange(p, p + r.len())[k + 1] == r[k + 1]);
                }
            }
            assert(s[p + 1 + ri.len()] == ')') by {
                assert(s.subrange(p, p + r.len())[r.len() - 1] == r[r.len() - 1]);
            }
            lemma_items(s, p + 1, xs, Seq::empty(), line_at(s, p), n);
        },
    }
}

/// Parsing the rendered items `xs` at `q`, up to their closing parenthesis.
proof fn lemma_items(s: Seq<char>, q: int, xs: Seq<Node>, acc: Seq<Node>, open: nat, whole: Node)
    requires
        plain(whole),
        whole is List,
        forall|i: int| 0 <= i < xs.len() ==> plain(#[trigger] xs[i]),
        forall|i: int| 0 <= i < xs.len() ==> #[trigger] xs[i] == whole->List_0[i + acc.len()],
        acc.len() + xs.len() == whole->List_0.len(),
        forall|i: int| 0 <= i < acc.len() ==> same(#[trigger] acc[i], whole->List_0[i]),
        0 <= q,
        q + render_items(xs).len() < s.len(),
        s.subrange(q, q + render_items(xs).len()) == render_items(xs),
        s[q + render_items(xs).len()] == ')',
    ensures
        p_items(s, q, std_syntax(), acc, open) is Ok,
        p_items(s, q, std_syntax(), acc, open)->Ok_0.1 == q + render_items(xs).len() + 1,
        same(p_items(s, q, std_syntax(), acc, open)->Ok_0.0, whole),
        p_items(s, q, std_syntax(), acc, open)->Ok_0.0 is List,
    decreases whole, xs.len(),
{
    let syn = std_syntax();
    if xs.len() == 0 {
        assert(skip_blank(s, q, ';') == q);
    } else {
        let x = xs[0];
        let rx = render(x);
        lemma_render_first(x);
        if xs.len() >= 2 {
            lemma_render_items_front(xs);
        } else {
            assert(render_items(xs) == rx);
        }
        assert(rx.len() <= render_items(xs).len());
        assert(forall|k: int| 0 <= k < rx.len() ==> render_items(xs)[k] == rx[k]);
        assert(s.subrange(q, q + rx.len()) =~= rx) by {
            assert forall|k: int| 0 <= k < rx.len() implies s.subrange(q, q + rx.len())[k] == rx[k] by {
                assert(s.subrange(q, q + render_items(xs).len())[k] == render_items(xs)[k]);
            }
        }
        assert(s[q] == rx[0]) by {
            assert(s.subrange(q, q + rx.len())[0] == rx[0]);
        }
        assert(skip_blank(s, q, ';') == q);
        if xs.len() >= 2 {
            lemma_render_items_front(xs);
            assert(s[q + rx.len()] == ' ') by {
                assert(s.subrange(q, q + render_items(xs).len())[rx.len() as int] == render_items(
                    xs,
                )[rx.len() as int]);
            }
        } else {
            assert(render_items(xs) == rx);
        }
        assert(decreases_to!(whole => whole->List_0));
        assert(x == whole->List_0[acc.len() as int]);
        lemma_parse_render(s, q, x);
        let o = p_expr(s, q, syn);
        let e = q + rx.len();
        let acc2 = acc.push(o->Ok_0.0);
        let rest = xs.drop_first();
        if xs.len() >= 2 {
            let rr = render_items(rest);
            assert(s.subrange(e + 1, e + 1 + rr.len()) =~= rr) by {
                assert forall|k: int| 0 <= k < rr.len() implies s.subrange(e + 1, e + 1 + rr.len())[k]
                    == rr[k] by {
                    assert(s.subrange(q, q + render_items(xs).len())[rx.len() + 1 + k] == render_items(
                        xs,
                    )[rx.len() + 1 + k]);
                }
            }
            assert(s[e + 1 + rr.len()] == ')');
            lemma_render_first(rest[0]);
            if rest.len() >= 2 {
                lemma_render_items_front(rest);
            } else {
                assert(rr == render(rest[0]));
            }
            assert(rr.len() > 0);
            assert(rr[0] == render(rest[0])[0]);
            assert(s[e + 1] == rr[0]) by {
                assert(s.subrange(e + 1, e + 1 + rr.len())[0] == rr[0]);
            }
            assert(skip_blank(s, e + 1, ';') == e + 1);
            assert(skip_blank(s, e, ';') == e + 1);
            lemma_items(s, e + 1, rest, acc2, open, whole);
            assert(p_items(s, e, syn, acc2, open) == p_items(s, e + 1, syn, acc2, open));
        } else {
            assert(skip_blank(s, e, ';') == e);
            assert(acc2.len() == whole->List_0.len());
        }
    }
}

/// Text made of whitespace only.
pub open spec fn blank(t: Seq<char>) -> bool {
    forall|k: int| 0 <= k < t.len() ==> is_ws(#[trigger] t[k])
}

proof fn lemma_ws_run(s: Seq<char>, a: int, b: int)
    requires
        0 <= a <= b < s.len(),
        forall|k: int| a <= k < b ==> is_ws(#[trigger] s[k]),
        !is_ws(s[b]),
        s[b] != ';',
    ensures
        skip_blank(s, a, ';') == b,
    decreases b - a,
{
    if a < b {
        assert(is_ws(s[a]));
        lemma_ws_run(s, a + 1, b);
    }
}

proof fn lemma_pretty_items_front(items: Seq<Node>, ind: Seq<char>, c: Seq<char>)
    requires
        items.len() >= 2,
    ensures
        render_pretty_items(items, ind, c) == render_pretty(items[0], ind, c) + seq!['\n'] + c
            + render_pretty_items(items.drop_first(), ind, c),
    decreases items.len(),
{
    if items.len() == 2 {
        assert(items.drop_last()[0] == items[0]);
        assert(items.drop_first()[0] == items[1]);
        assert(render_pretty_items(items.drop_last(), ind, c) == render_pretty(items[0], ind, c));
        assert(render_pretty_items(items.drop_first(), ind, c) == render_pretty(items[1], ind, c));
        assert(render_pretty_items(items, ind, c) =~= render_pretty(items[0], ind, c) + seq!['\n']
            + c + render_pretty_items(items.drop_first(), ind, c));
    } else {
        lemma_pretty_items_front(items.drop_last(), ind, c);
        assert(items.drop_last().drop_first() =~= items.drop_first().drop_last());
        assert(items.drop_first().last() == items.last());
        assert(items.drop_last()[0] == items[0]);
        assert(render_pretty_items(items.drop_first(), ind, c) == render_pretty_items(
            items.drop_first().drop_last(),
            ind,
            c,
        ) + seq!['\n'] + c + render_pretty(items.drop_first().last(), ind, c));
        assert(render_pretty_items(items, ind, c) =~= render_pretty(items[0], ind, c) + seq!['\n']
            + c + render_pretty_items(items.drop_first(), ind, c));
    }
}

proof fn lemma_pretty_first(n: Node, ind: Seq<char>, cur: Seq<char>)
    requires
        plain(n),
    ensures
        render_pretty(n, ind, cur).len() > 0,
        !is_ws(render_pretty(n, ind, cur)[0]),
        render_pretty(n, ind, cur)[0] != ';',
        render_pretty(n, ind, cur)[0] != ')',
{
    match n {
        Node::Sym(_, _) => {
            lemma_render_first(n);
        },
        Node::Str(_, _) => {
            lemma_render_first(n);
        },
        _ => {},
    }
}

/// The same as `lemma_parse_render`, for the indented rendering of a node whose
/// line starts with the whitespace `cur`, indented by the whitespace `ind`.
pub proof fn lemma_parse_pretty(s: Seq<char>, p: int, n: Node, ind: Seq<char>, cur: Seq<char>)
    requires
        plain(n),
        blank(ind),
        blank(cur),
        0 <= p,
        p + render_pretty(n, ind, cur).len() <= s.len(),
        s.subrange(p, p + render_pretty(n, ind, cur).len()) == render_pretty(n, ind, cur),
        p + render_pretty(n, ind, cur).len() == s.len() || is_ws(
            s[p + render_pretty(n, ind, cur).len()],
        ) || s[p + render_pretty(n, ind, cur).len()] == ')',
    ensures
        p_expr(s, p, std_syntax()) is Ok,
        p_expr(s, p, std_syntax())->Ok_0.1 == p + render_pretty(n, ind, cur).len(),
        same(p_expr(s, p, std_syntax())->Ok_0.0, n),
    decreases n,
{
    let r = render_pretty(n, ind, cur);
    lemma_pretty_first(n, ind, cur);
    assert(s[p] == r[0]) by {
        assert(s.subrange(p, p + r.len())[0] == r[0]);
    }
    match n {
        Node::Quote(b, _) => {
            let rb = render_pretty(*b, ind, cur);
            assert(r == seq!['\''] + rb);
            assert(s.subrange(p + 1, p + 1 + rb.len()) =~= rb) by {
                assert forall|k: int| 0 <= k < rb.len() implies s.subrange(p + 1, p + 1 + rb.len())[k]
                    == rb[k] by {
                    assert(s.subrange(p, p + r.len())[k + 1] == r[k + 1]);
                }
            }
            lemma_pretty_first(*b, ind, cur);
            assert(s[p + 1] == rb[0]) by {
                assert(s.subrange(p + 1, p + 1 + rb.len())[0] == rb[0]);
            }
            assert(skip_blank(s, p, ';') == p);
            assert(skip_blank(s, p + 1, ';') == p + 1);
            lemma_parse_pretty(s, p + 1, *b, ind, cur);
        },
        Node::List(xs, open) => {
            assert(skip_blank(s, p, ';') == p);
            if xs.len() == 0 {
                assert(r == seq!['(', ')']);
                assert(s[p + 1] == ')') by {
                    assert(s.subrange(p, p + r.len())[1] == r[1]);
                }
                assert(skip_blank(s, p + 1, ';') == p + 1);
            } else {
                let c2 = cur + ind;
                let rpi = render_pretty_items(xs, ind, c2);
                let head = seq!['(', '\n'] + c2;
                assert(r =~= head + rpi + seq!['\n'] + cur + seq![')']);
                let q = p + head.len();
                assert(forall|k: int| 0 <= k < r.len() ==> s[p + k] == r[k]) by {
                    assert forall|k: int| 0 <= k < r.len() implies s[p + k] == r[k] by {
                        assert(s.subrange(p, p + r.len())[k] == r[k]);
                    }
                }
                assert(s.subrange(q, q + rpi.len()) =~= rpi) by {
                    assert forall|k: int| 0 <= k < rpi.len() implies s.subrange(q, q + rpi.len())[k]
                        == rpi[k] by {
                        assert(s[p + head.len() + k] == r[(head.len() + k) as int]);
                    }
                }
                assert(s[q + rpi.len()] == '\n') by {
                    assert(s[p + head.len() + rpi.len()] == r[(head.len() + rpi.len()) as int]);
                }
                assert forall|k: int| 0 <= k < cur.len() implies s[q + rpi.len() + 1 + k] == cur[k] by {
                    assert(s[p + head.len() + rpi.len() + 1 + k] == r[(head.len() + rpi.len() + 1 + k) as int]);
                }
                assert(s[q + rpi.len() + 1 + cur.len()] == ')') by {
                    assert(s[p + r.len() - 1] == r[r.len() - 1]);
                }
                lemma_pretty_first(xs[0], ind, c2);
                if xs.len() >= 2 {
                    lemma_pretty_items_front(xs, ind, c2);
                } else {
                    assert(rpi == render_pretty(xs[0], ind, c2));
                }
                assert(s[q] == rpi[0]) by {
                    assert(s.subrange(q, q + rpi.len())[0] == rpi[0]);
                }
                assert forall|k: int| p + 1 <= k < q implies is_ws(#[trigger] s[k]) by {
                    assert(s[p + (k - p)] == r[k - p]);
                    if k - p >= 2 {
                        assert(r[k - p] == c2[k - p - 2]);
                    }
                }
                lemma_ws_run(s, p + 1, q);
                assert(blank(c2));
                lemma_pretty_items(s, q, xs, Seq::empty(), line_at(s, p), n, ind, c2, cur);
                assert(p_items(s, p + 1, std_syntax(), Seq::empty(), line_at(s, p)) == p_items(
                    s,
                    q,
                    std_syntax(),
                    Seq::empty(),
                    line_at(s, p),
                ));
            }
        },
        _ => {
            assert(r == render(n));
            lemma_parse_render(s, p, n);
        },
    }
}

/// Parsing the indented items `xs` at `q`, then the blank line start `cur` and
/// the closing parenthesis.
proof fn lemma_pretty_items(
    s: Seq<char>,
    q: int,
    xs: Seq<Node>,
    acc: Seq<Node>,
    open: nat,
    whole: Node,
    ind: Seq<char>,
    c2: Seq<char>,
    cur: Seq<char>,
)
    requires
        plain(whole),
        whole is List,
        blank(ind),
        blank(c2),
        blank(cur),
        xs.len() >= 1,
        forall|i: int| 0 <= i < xs.len() ==> plain(#[trigger] xs[i]),
        forall|i: int| 0 <= i < xs.len() ==> #[trigger] xs[i] == whole->List_0[i + acc.len()],
        acc.len() + xs.len() == whole->List_0.len(),
        forall|i: int| 0 <= i < acc.len() ==> same(#[trigger] acc[i], whole->List_0[i]),
        0 <= q,
        q + render_pretty_items(xs, ind, c2).len() + 1 + cur.len() < s.len(),
        s.subrange(q, q + render_pretty_items(xs, ind, c2).len()) == render_pretty_items(xs, ind, c2),
        s[q + render_pretty_items(xs, ind, c2).len()] == '\n',
        forall|k: int| 0 <= k < cur.len() ==> s[q + render_pretty_items(xs, ind, c2).len() + 1 + k] == cur[k],
        s[q + render_pretty_items(xs, ind, c2).len() + 1 + cur.len()] == ')',
    ensures
        p_items(s, q, std_syntax(), acc, open) is Ok,
        p_items(s, q, std_syntax(), acc, open)->Ok_0.1 == q + render_pretty_items(xs, ind, c2).len()
            + 1 + cur.len() + 1,
        same(p_items(s, q, std_syntax(), acc, open)->Ok_0.0, whole),
    decreases whole, xs.len(),
{
    let syn = std_syntax();
    let rpi = render_pretty_items(xs, ind, c2);
    let x = xs[0];
    let rx = render_pretty(x, ind, c2);
    lemma_pretty_first(x, ind, c2);
    if xs.len() >= 2 {
        lemma_pretty_items_front(xs, ind, c2);
    } else {
        assert(rpi == rx);
    }
    assert(rx.len() <= rpi.len());
    assert(forall|k: int| 0 <= k < rx.len() ==> rpi[k] == rx[k]);
    assert(s.subrange(q, q + rx.len()) =~= rx) by {
        assert forall|k: int| 0 <= k < rx.len() implies s.subrange(q, q + rx.len())[k] == rx[k] by {
            assert(s.subrange(q, q + rpi.len())[k] == rpi[k]);
        }
    }
    assert(s[q] == rx[0]) by {
        assert(s.subrange(q, q + rx.len())[0] == rx[0]);
    }
    assert(skip_blank(s, q, ';') == q);
    let e = q + rx.len();
    assert(s[e] == '\n') by {
        if xs.len() >= 2 {
            assert(s.subrange(q, q + rpi.len())[rx.len() as int] == rpi[rx.len() as int]);
        }
    }
    assert(decreases_to!(whole => whole->List_0));
    assert(x == whole->List_0[acc.len() as int]);
    lemma_parse_pretty(s, q, x, ind, c2);
    let o = p_expr(s, q, syn);
    let acc2 = acc.push(o->Ok_0.0);
    let rest = xs.drop_first();
    if xs.len() >= 2 {
        let rr = render_pretty_items(rest, ind, c2);
        let q2 = e + 1 + c2.len();
        assert(rpi =~= rx + seq!['\n'] + c2 + rr);
        assert(s.subrange(q2, q2 + rr.len()) =~= rr) by {
            assert forall|k: int| 0 <= k < rr.len() implies s.subrange(q2, q2 + rr.len())[k] == rr[k] by {
                assert(s.subrange(q, q + rpi.len())[(rx.len() + 1 + c2.len() + k) as int] == rpi[(rx.len() + 1 + c2.len() + k) as int]);
            }
        }
        lemma_pretty_first(rest[0], ind, c2);
        if rest.len() >= 2 {
            lemma_pretty_items_front(rest, ind, c2);
        } else {
            assert(rr == render_pretty(rest[0], ind, c2));
        }
        assert(s[q2] == rr[0]) by {
            assert(s.subrange(q2, q2 + rr.len())[0] == rr[0]);
        }
        assert forall|k: int| e <= k < q2 implies is_ws(#[trigger] s[k]) by {
            assert(s.subrange(q, q + rpi.len())[k - q] == rpi[k - q]);
            if k > e {
                assert(rpi[k - q] == c2[k - e - 1]);
            }
        }
        lemma_ws_run(s, e, q2);
        lemma_pretty_items(s, q2, rest, acc2, open, whole, ind, c2, cur);
        assert(p_items(s, e, syn, acc2, open) == p_items(s, q2, syn, acc2, open));
    } else {
        let z = e + 1 + cur.len();
        assert forall|k: int| e <= k < z implies is_ws(#[trigger] s[k]) by {
            if k > e {
                assert(s[e + 1 + (k - e - 1)] == cur[k - e - 1]);
            }
        }
        lemma_ws_run(s, e, z);
        assert(acc2.len() == whole->List_0.len());
    }
}


/// A symbol of the kind the parser produces: not empty, neither of the tokens
/// `nil` and `t`, and an integer only in canonical form.
pub open spec fn parsed_symbol(t: Seq<char>) -> bool {
    &&& t.len() > 0
    &&& t != "nil"@
    &&& t != "t"@
    &&& parse_int(t) is Some ==> int_text(parse_int(t)->0) == t
}

/// A tree whose symbols are all of the kind the parser produces.
pub open spec fn parsed_tree(n: Node) -> bool
    decreases n,
{
    match n {
        Node::Sym(t, _) => parsed_symbol(t),
        Node::Str(_, _) => true,
        Node::Quote(b, _) => parsed_tree(*b),
        Node::List(xs, _) => forall|i: int| 0 <= i < xs.len() ==> parsed_tree(#[trigger] xs[i]),
    }
}

/// A tree none of whose symbols holds a character that the printer escapes.
pub open spec fn unescaped(n: Node) -> bool
    decreases n,
{
    match n {
        Node::Sym(t, _) => forall|i: int| 0 <= i < t.len() ==> !sym_special(#[trigger] t[i]),
        Node::Str(_, _) => true,
        Node::Quote(b, _) => unescaped(*b),
        Node::List(xs, _) => forall|i: int| 0 <= i < xs.len() ==> unescaped(#[trigger] xs[i]),
    }
}

pub proof fn lemma_plain(n: Node)
    requires
        parsed_tree(n),
        unescaped(n),
    ensures
        plain(n),
    decreases n,
{
    match n {
        Node::Quote(b, _) => {
            lemma_plain(*b);
        },
        Node::List(xs, _) => {
            assert forall|i: int| 0 <= i < xs.len() implies plain(#[trigger] xs[i]) by {
                lemma_plain(xs[i]);
            }
        },
        _ => {},
    }
}

proof fn lemma_word_not_int(t: Seq<char>)
    requires
        t.len() > 0,
        !is_digit(t[0]),
        t[0] != '-',
        t[0] != '+',
    ensures
        parse_int(t) is None,
{
    assert(unsigned_part(t) == t);
    assert(!all_digits(t));
}

proof fn lemma_atom_sound(tok: Seq<char>, line: nat)
    requires
        tok.len() > 0,
    ensures
        parsed_tree(atom_node(tok, std_syntax(), line)),
{
    reveal_strlit("nil");
    reveal_strlit("t");
    reveal_strlit("true");
    let syn = std_syntax();
    if tok == syn.nil {
    } else if tok == syn.tru {
        lemma_word_not_int("true"@);
    } else if parse_int(tok) is Some {
        let v = parse_int(tok)->0;
        lemma_parse_int_text(v);
        let t = int_text(v);
        assert(t != "nil"@) by {
            assert("nil"@[0] == 'n');
        }
        assert(t != "t"@) by {
            assert("t"@[0] == 't');
        }
    } else {
    }
}

proof fn lemma_expr_sound(s: Seq<char>, p0: int)
    requires
        0 <= p0,
    ensures
        p_expr(s, p0, std_syntax()) is Ok ==> parsed_tree(p_expr(s, p0, std_syntax())->Ok_0.0),
    decreases s.len() - p0, 0int,
{
    let syn = std_syntax();
    let p = skip_blank(s, p0, ';');
    lemma_skip_blank(s, p0, ';');
    lemma_skip_blank_stop(s, p0, ';');
    if p < 0 || p >= s.len() {
    } else if s[p] == '(' {
        lemma_items_sound(s, p + 1, Seq::empty(), line_at(s, p));
    } else if s[p] == ')' {
    } else if s[p] == '"' {
    } else if s[p] == '\'' {
        lemma_expr_sound(s, p + 1);
    } else {
        let e = token_end(s, p, ';');
        lemma_token_end(s, p + 1, ';');
        assert(!is_delim(s[p], ';'));
        lemma_atom_sound(s.subrange(p, e), line_at(s, p));
    }
}

proof fn lemma_items_sound(s: Seq<char>, p0: int, acc: Seq<Node>, open: nat)
    requires
        0 <= p0,
        forall|i: int| 0 <= i < acc.len() ==> parsed_tree(#[trigger] acc[i]),
    ensures
        p_items(s, p0, std_syntax(), acc, open) is Ok ==> parsed_tree(
            p_items(s, p0, std_syntax(), acc, open)->Ok_0.0,
        ) && p_items(s, p0, std_syntax(), acc, open)->Ok_0.0 is List,
    decreases s.len() - p0, 1int,
{
    let syn = std_syntax();
    let p = skip_blank(s, p0, ';');
    lemma_skip_blank(s, p0, ';');
    if p < 0 || p >= s.len() {
    } else if s[p] == ')' {
    } else {
        lemma_expr_sound(s, p);
        let o = p_expr(s, p, syn);
        if o is Ok {
            let e = o->Ok_0.1;
            if p < e <= s.len() {
                let acc2 = acc.push(o->Ok_0.0);
                assert forall|i: int| 0 <= i < acc2.len() implies parsed_tree(#[trigger] acc2[i]) by {
                    if i < acc.len() {
                        assert(acc2[i] == acc[i]);
                    }
                }
                lemma_items_sound(s, e, acc2, open);
            }
        }
    }
}

/// Every form that parsing a text yields is a list whose symbols are of the kind
/// the parser produces.
pub proof fn lemma_forms_sound(s: Seq<char>, p0: int, acc: Seq<Node>)
    requires
        0 <= p0,
        forall|i: int| 0 <= i < acc.len() ==> parsed_tree(#[trigger] acc[i]) && acc[i] is List,
    ensures
        p_all(s, p0, std_syntax(), acc) is Ok ==> forall|i: int|
            0 <= i < p_all(s, p0, std_syntax(), acc)->Ok_0.len() ==> parsed_tree(
                #[trigger] p_all(s, p0, std_syntax(), acc)->Ok_0[i],
            ) && p_all(s, p0, std_syntax(), acc)->Ok_0[i] is List,
    decreases s.len() - p0,
{
    let syn = std_syntax();
    let p = skip_blank(s, p0, ';');
    lemma_skip_blank(s, p0, ';');
    if p < 0 || p >= s.len() {
    } else if s[p] != '(' {
    } else {
        lemma_expr_sound(s, p);
        let o = p_expr(s, p, syn);
        assert(skip_blank(s, p, ';') == p) by {
            lemma_skip_blank_stop(s, p0, ';');
        }
        lemma_items_sound(s, p + 1, Seq::empty(), line_at(s, p));
        if o is Ok {
            let e = o->Ok_0.1;
            if p < e <= s.len() {
                let acc2 = acc.push(o->Ok_0.0);
                assert forall|i: int| 0 <= i < acc2.len() implies parsed_tree(#[trigger] acc2[i])
                    && acc2[i] is List by {
                    if i < acc.len() {
                        assert(acc2[i] == acc[i]);
                    }
                }
                lemma_forms_sound(s, e, acc2);
            }
        }
    }
}

} // verus!
