//! Lexicographic order on texts, and the sorted sequence of a finite set of texts.

use vstd::prelude::*;

verus! {

/// `a` comes strictly before `b`, comparing characters by code point.
pub open spec fn lex_lt(a: Seq<char>, b: Seq<char>) -> bool
    decreases a.len(),
{
    if a.len() == 0 {
        b.len() > 0
    } else if b.len() == 0 {
        false
    } else if a[0] != b[0] {
        (a[0] as int) < (b[0] as int)
    } else {
        lex_lt(a.drop_first(), b.drop_first())
    }
}

pub proof fn lemma_lex_irrefl(a: Seq<char>)
    ensures
        !lex_lt(a, a),
    decreases a.len(),
{
    if a.len() > 0 {
        lemma_lex_irrefl(a.drop_first());
    }
}

pub proof fn lemma_lex_trans(a: Seq<char>, b: Seq<char>, c: Seq<char>)
    requires
        lex_lt(a, b),
        lex_lt(b, c),
    ensures
        lex_lt(a, c),
    decreases a.len(),
{
    if a.len() > 0 && b.len() > 0 && c.len() > 0 {
        if a[0] == b[0] && b[0] == c[0] {
            lemma_lex_trans(a.drop_first(), b.drop_first(), c.drop_first());
        }
    }
}

pub proof fn lemma_lex_total(a: Seq<char>, b: Seq<char>)
    requires
        a != b,
    ensures
        lex_lt(a, b) || lex_lt(b, a),
    decreases a.len(),
{
    if a.len() > 0 && b.len() > 0 {
        if a[0] == b[0] {
            if a.drop_first() == b.drop_first() {
                assert(a =~= seq![a[0]] + a.drop_first());
                assert(b =~= seq![b[0]] + b.drop_first());
            }
            lemma_lex_total(a.drop_first(), b.drop_first());
        } else {
            assert((a[0] as int) != (b[0] as int));
        }
    } else if a.len() == 0 && b.len() == 0 {
        assert(a =~= b);
    }
}

pub proof fn lemma_lex_asym(a: Seq<char>, b: Seq<char>)
    requires
        lex_lt(a, b),
    ensures
        !lex_lt(b, a),
{
    if lex_lt(b, a) {
        lemma_lex_trans(a, b, a);
        lemma_lex_irrefl(a);
    }
}

/// `m` is the least element of `s`.
pub open spec fn is_least(m: Seq<char>, s: Set<Seq<char>>) -> bool {
    s.contains(m) && forall|x: Seq<char>| #[trigger] s.contains(x) && x != m ==> lex_lt(m, x)
}

/// The elements of a finite set of texts, in increasing order.
pub open spec fn sorted_of(s: Set<Seq<char>>) -> Seq<Seq<char>>
    decreases s.len(),
{
    if !s.finite() || s.len() == 0 {
        Seq::empty()
    } else {
        let m = choose|m: Seq<char>| is_least(m, s);
        if s.contains(m) {
            seq![m] + sorted_of(s.remove(m))
        } else {
            Seq::empty()
        }
    }
}

/// The least element is the only one.
pub proof fn lemma_least_unique(m: Seq<char>, n: Seq<char>, s: Set<Seq<char>>)
    requires
        is_least(m, s),
        is_least(n, s),
    ensures
        m == n,
{
    if m != n {
        lemma_lex_asym(m, n);
    }
}

/// A texts' comparison that decides `lex_lt`.
pub fn text_lt(a: &Vec<char>, b: &Vec<char>) -> (r: bool)
    ensures
        r == lex_lt(a@, b@),
{
    let mut i: usize = 0;
    proof {
        lemma_init_subrange(a@);
        lemma_init_subrange(b@);
    }
    while i < a.len() && i < b.len() && a[i] == b[i]
        invariant
            i <= a@.len(),
            i <= b@.len(),
            lex_lt(a@.subrange(i as int, a@.len() as int), b@.subrange(i as int, b@.len() as int))
                == lex_lt(a@, b@),
        decreases a@.len() - i,
    {
        let ghost sa = a@.subrange(i as int, a@.len() as int);
        let ghost sb = b@.subrange(i as int, b@.len() as int);
        assert(sa.drop_first() =~= a@.subrange(i + 1, a@.len() as int));
        assert(sb.drop_first() =~= b@.subrange(i + 1, b@.len() as int));
        i = i + 1;
    }
    let ghost sa = a@.subrange(i as int, a@.len() as int);
    let ghost sb = b@.subrange(i as int, b@.len() as int);
    if i == a.len() {
        i < b.len()
    } else if i == b.len() {
        false
    } else {
        assert(sa[0] == a@[i as int] && sb[0] == b@[i as int]);
        a[i] < b[i]
    }
}

proof fn lemma_init_subrange(a: Seq<char>)
    ensures
        a.subrange(0, a.len() as int) == a,
{
    assert(a.subrange(0, a.len() as int) =~= a);
}


/// A finite nonempty set of texts has a least element.
pub proof fn lemma_least_exists(s: Set<Seq<char>>)
    requires
        s.finite(),
        s.len() > 0,
    ensures
        exists|m: Seq<char>| is_least(m, s),
    decreases s.len(),
{
    let x = s.choose();
    assert(s.contains(x));
    if s.len() == 1 {
        assert forall|y: Seq<char>| #[trigger] s.contains(y) && y != x implies lex_lt(x, y) by {
            assert(s.remove(x).len() == 0);
            assert(s.remove(x).contains(y));
        }
        assert(is_least(x, s));
    } else {
        let t = s.remove(x);
        lemma_least_exists(t);
        let m = choose|m: Seq<char>| is_least(m, t);
        if lex_lt(x, m) {
            assert forall|y: Seq<char>| #[trigger] s.contains(y) && y != x implies lex_lt(x, y) by {
                if y != m {
                    assert(t.contains(y));
                    lemma_lex_trans(x, m, y);
                }
            }
            assert(is_least(x, s));
        } else {
            assert(m != x);
            lemma_lex_total(m, x);
            assert forall|y: Seq<char>| #[trigger] s.contains(y) && y != m implies lex_lt(m, y) by {
                if y != x {
                    assert(t.contains(y));
                }
            }
            assert(is_least(m, s));
        }
    }
}

/// `sorted_of` lists each element of a finite set once, in strictly increasing order.
pub proof fn lemma_sorted_of(s: Set<Seq<char>>)
    requires
        s.finite(),
    ensures
        sorted_of(s).to_set() == s,
        sorted_of(s).len() == s.len(),
        forall|i: int, j: int|
            0 <= i < j < sorted_of(s).len() ==> lex_lt(#[trigger] sorted_of(s)[i], #[trigger] sorted_of(s)[j]),
    decreases s.len(),
{
    if s.len() == 0 {
        assert(s =~= Set::<Seq<char>>::empty());
        assert(sorted_of(s).to_set() =~= s);
    } else {
        lemma_least_exists(s);
        let m = choose|m: Seq<char>| is_least(m, s);
        let t = s.remove(m);
        lemma_sorted_of(t);
        let r = sorted_of(s);
        assert(r == seq![m] + sorted_of(t));
        assert(r.to_set() =~= s) by {
            assert forall|x: Seq<char>| r.to_set().contains(x) <==> s.contains(x) by {
                if s.contains(x) && x != m {
                    assert(sorted_of(t).to_set().contains(x));
                    let k = choose|k: int| 0 <= k < sorted_of(t).len() && sorted_of(t)[k] == x;
                    assert(r[k + 1] == x);
                }
                if s.contains(x) && x == m {
                    assert(r[0] == x);
                }
                if r.to_set().contains(x) {
                    let k = choose|k: int| 0 <= k < r.len() && r[k] == x;
                    if k > 0 {
                        assert(sorted_of(t)[k - 1] == x);
                        assert(sorted_of(t).to_set().contains(x));
                    }
                }
            }
        }
        assert forall|i: int, j: int| 0 <= i < j < r.len() implies lex_lt(
            #[trigger] r[i],
            #[trigger] r[j],
        ) by {
            if i == 0 {
                assert(r[j] == sorted_of(t)[j - 1]);
                assert(sorted_of(t).to_set().contains(r[j]));
                assert(t.contains(r[j]));
            } else {
                assert(r[i] == sorted_of(t)[i - 1]);
                assert(r[j] == sorted_of(t)[j - 1]);
            }
        }
    }
}

} // verus!
