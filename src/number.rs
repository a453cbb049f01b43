//! Integer tokens: reading them as `i64` and writing them back in canonical form.

use vstd::prelude::*;

verus! {

pub open spec fn is_digit(c: char) -> bool {
    '0' <= c && c <= '9'
}

pub open spec fn digit_value(c: char) -> int {
    c as int - '0' as int
}

/// The value of a run of decimal digits.
pub open spec fn digits_value(t: Seq<char>) -> int
    decreases t.len(),
{
    if t.len() == 0 {
        0
    } else {
        digits_value(t.drop_last()) * 10 + digit_value(t.last())
    }
}

pub open spec fn all_digits(t: Seq<char>) -> bool {
    forall|i: int| 0 <= i < t.len() ==> is_digit(#[trigger] t[i])
}

/// The token without its leading sign, if any.
pub open spec fn unsigned_part(t: Seq<char>) -> Seq<char> {
    if t.len() > 0 && (t[0] == '-' || t[0] == '+') {
        t.drop_first()
    } else {
        t
    }
}

/// The value of a token as `i64` reads it: an optional sign, then one or more
/// decimal digits, the whole within the range of `i64`.
pub open spec fn parse_int(t: Seq<char>) -> Option<int> {
    let neg = t.len() > 0 && t[0] == '-';
    let d = unsigned_part(t);
    if d.len() == 0 || !all_digits(d) {
        None
    } else {
        let v = if neg {
            -digits_value(d)
        } else {
            digits_value(d)
        };
        if i64::MIN <= v && v <= i64::MAX {
            Some(v)
        } else {
            None
        }
    }
}

pub open spec fn digit_char(d: int) -> char {
    if d == 0 {
        '0'
    } else if d == 1 {
        '1'
    } else if d == 2 {
        '2'
    } else if d == 3 {
        '3'
    } else if d == 4 {
        '4'
    } else if d == 5 {
        '5'
    } else if d == 6 {
        '6'
    } else if d == 7 {
        '7'
    } else if d == 8 {
        '8'
    } else {
        '9'
    }
}

/// The decimal text of a natural number, without leading zeros.
pub open spec fn nat_text(n: nat) -> Seq<char>
    decreases n,
{
    if n < 10 {
        seq![digit_char(n as int)]
    } else {
        nat_text(n / 10).push(digit_char((n % 10) as int))
    }
}

/// The canonical decimal text of an integer.
pub open spec fn int_text(n: int) -> Seq<char> {
    if n < 0 {
        seq!['-'] + nat_text((-n) as nat)
    } else {
        nat_text(n as nat)
    }
}

proof fn lemma_digits_value_nonneg(t: Seq<char>)
    requires
        all_digits(t),
    ensures
        digits_value(t) >= 0,
    decreases t.len(),
{
    if t.len() > 0 {
        assert(is_digit(t[t.len() - 1]));
        lemma_digits_value_nonneg(t.drop_last());
    }
}

fn digit_to_char(d: u64) -> (c: char)
    requires
        d < 10,
    ensures
        c == digit_char(d as int),
{
    if d == 0 {
        '0'
    } else if d == 1 {
        '1'
    } else if d == 2 {
        '2'
    } else if d == 3 {
        '3'
    } else if d == 4 {
        '4'
    } else if d == 5 {
        '5'
    } else if d == 6 {
        '6'
    } else if d == 7 {
        '7'
    } else if d == 8 {
        '8'
    } else {
        '9'
    }
}

/// Appends the decimal digits of `m`.
pub fn push_nat_text(m: u64, out: &mut Vec<char>)
    ensures
        final(out)@ == old(out)@ + nat_text(m as nat),
    decreases m,
{
    if m >= 10 {
        push_nat_text(m / 10, out);
    }
    let c = digit_to_char(m % 10);
    out.push(c);
    proof {
        if m >= 10 {
            assert(final(out)@ =~= old(out)@ + nat_text(m as nat));
        } else {
            assert(final(out)@ =~= old(out)@ + nat_text(m as nat));
        }
    }
}

/// The canonical decimal text of `n`.
pub fn int_to_text(n: i64) -> (r: Vec<char>)
    ensures
        r@ == int_text(n as int),
{
    let mut out: Vec<char> = Vec::new();
    if n < 0 {
        out.push('-');
        let m: u64 = if n == i64::MIN {
            9223372036854775808u64
        } else {
            (-n) as u64
        };
        push_nat_text(m, &mut out);
    } else {
        push_nat_text(n as u64, &mut out);
    }
    assert(out@ =~= int_text(n as int));
    out
}

/// Reads a token as `i64`: an optional sign and decimal digits.
pub fn parse_i64(t: &[char]) -> (r: Option<i64>)
    ensures
        r is Some <==> parse_int(t@) is Some,
        r is Some ==> r->0 as int == parse_int(t@)->0,
{
    let neg = t.len() > 0 && t[0] == '-';
    let start: usize = if t.len() > 0 && (t[0] == '-' || t[0] == '+') {
        1
    } else {
        0
    };
    let ghost d = unsigned_part(t@);
    assert(d =~= t@.subrange(start as int, t@.len() as int));
    if start == t.len() {
        return None;
    }
    let limit: u64 = 9223372036854775808u64;
    let mut acc: u64 = 0;
    let mut big = false;
    let mut i: usize = start;
    while i < t.len()
        invariant
            start <= i <= t@.len(),
            d =~= t@.subrange(start as int, t@.len() as int),
            d == unsigned_part(t@),
            all_digits(t@.subrange(start as int, i as int)),
            !big ==> acc as int == digits_value(t@.subrange(start as int, i as int)) && acc
                <= limit,
            big ==> digits_value(t@.subrange(start as int, i as int)) > limit,
            limit == 9223372036854775808u64,
        decreases t@.len() - i,
    {
        let c = t[i];
        if !('0' <= c && c <= '9') {
            proof {
                assert(0 <= i - start < d.len());
                assert(d[i - start] == c);
                assert(!is_digit(d[i - start]));
                assert(!all_digits(d));

            }
            return None;
        }
        let dv: u64 = (c as u32 - '0' as u32) as u64;
        let ghost pre = t@.subrange(start as int, i as int);
        let ghost nxt = t@.subrange(start as int, i + 1);
        proof {
            assert(nxt.drop_last() =~= pre);
            assert(nxt.last() == c);
            assert(all_digits(nxt));
            lemma_digits_value_nonneg(pre);
        }
        if !big {
            if acc > (limit - dv) / 10 {
                big = true;
                assert(acc * 10 + dv > limit) by (nonlinear_arith)
                    requires
                        acc > (limit - dv) / 10,
                        dv < 10,
                        limit >= 10,
                ;
            } else {
                assert(acc * 10 + dv <= limit) by (nonlinear_arith)
                    requires
                        acc <= (limit - dv) / 10,
                        dv < 10,
                        limit >= 10,
                ;
                acc = acc * 10 + dv;
            }
        }
        i = i + 1;
    }
    assert(t@.subrange(start as int, i as int) =~= d);
    if neg {
        if big {
            None
        } else if acc == limit {
            Some(i64::MIN)
        } else {
            Some(-(acc as i64))
        }
    } else {
        if big || acc == limit {
            None
        } else {
            Some(acc as i64)
        }
    }
}


proof fn lemma_nat_text(m: nat)
    ensures
        nat_text(m).len() > 0,
        all_digits(nat_text(m)),
        digits_value(nat_text(m)) == m,
    decreases m,
{
    let d = digit_char((m % 10) as int);
    assert(digit_value(d) == m % 10);
    if m >= 10 {
        lemma_nat_text(m / 10);
        let x = nat_text(m / 10);
        assert(nat_text(m) == x.push(d));
        assert(x.push(d).drop_last() =~= x);
        assert(digits_value(x.push(d)) == digits_value(x) * 10 + digit_value(d));
        assert((m / 10) * 10 + m % 10 == m) by (nonlinear_arith);
        assert(all_digits(x.push(d))) by {
            assert forall|i: int| 0 <= i < x.push(d).len() implies is_digit(#[trigger] x.push(d)[i]) by {
                if i < x.len() {
                    assert(x.push(d)[i] == x[i]);
                }
            }
        }
    } else {
        assert(nat_text(m) == seq![d]);
        assert(seq![d].drop_last() =~= Seq::<char>::empty());
        assert(seq![d].last() == d);
        assert(digits_value(seq![d]) == digits_value(Seq::<char>::empty()) * 10 + digit_value(d));
        assert(m % 10 == m);
    }
}

/// Reading the canonical text of an `i64` value gives the value back.
pub proof fn lemma_parse_int_text(v: int)
    requires
        i64::MIN <= v <= i64::MAX,
    ensures
        parse_int(int_text(v)) == Some(v),
        int_text(v).len() > 0,
        is_digit(int_text(v)[0]) || int_text(v)[0] == '-',
{
    if v < 0 {
        lemma_nat_text((-v) as nat);
        let t = int_text(v);
        assert(t.drop_first() =~= nat_text((-v) as nat));
    } else {
        lemma_nat_text(v as nat);
        assert(is_digit(int_text(v)[0]));
    }
}

} // verus!
