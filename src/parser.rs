//! A recursive-descent parser for S-expressions that records the line of each node.
//!
//! The grammar is stated by the spec functions below over the text's characters;
//! each parsing function is proved to compute exactly what they describe.

use vstd::prelude::*;
use crate::number::{int_text, nat_text, parse_int, int_to_text, parse_i64, push_nat_text};
use crate::sexp::{Node, ParseError, ParseFail, SExp, nodes_of, lemma_nodes_of_push};
use crate::text::{is_ws, is_whitespace, chars_of, string_of, text, same_chars};

verus! {

/// The configurable tokens of the syntax.
pub struct Syntax {
    pub nil: Seq<char>,
    pub tru: Seq<char>,
    pub fls: Option<Seq<char>>,
    pub comment: char,
}

/// The syntax of the task language: `nil`, `t`, no false token, `;` comments.
pub open spec fn std_syntax() -> Syntax {
    Syntax { nil: "nil"@, tru: "t"@, fls: None, comment: ';' }
}

/// The 1-based line of position `p`: one more than the newlines before it.
pub open spec fn line_at(s: Seq<char>, p: int) -> nat
    decreases p,
{
    if p <= 0 {
        1
    } else {
        line_at(s, p - 1) + if p - 1 < s.len() && s[p - 1] == '\n' {
            1nat
        } else {
            0nat
        }
    }
}

/// The position of the first newline at or after `p`, or the end of the text.
pub open spec fn line_end(s: Seq<char>, p: int) -> int
    decreases s.len() - p,
{
    if 0 <= p < s.len() && s[p] != '\n' {
        line_end(s, p + 1)
    } else {
        p
    }
}

/// The first position at or after `p` that is neither whitespace nor in a comment.
pub open spec fn skip_blank(s: Seq<char>, p: int, cc: char) -> int
    decreases s.len() - p,
{
    if 0 <= p < s.len() && is_ws(s[p]) {
        skip_blank(s, p + 1, cc)
    } else if 0 <= p < s.len() && s[p] == cc {
        proof {
            lemma_line_end(s, p + 1);
        }
        skip_blank(s, line_end(s, p + 1), cc)
    } else {
        p
    }
}

/// Characters that end an atom.
pub open spec fn is_delim(c: char, cc: char) -> bool {
    is_ws(c) || c == '(' || c == ')' || c == cc
}

/// The end of the atom that starts at `p`.
pub open spec fn token_end(s: Seq<char>, p: int, cc: char) -> int
    decreases s.len() - p,
{
    if 0 <= p < s.len() && !is_delim(s[p], cc) {
        token_end(s, p + 1, cc)
    } else {
        p
    }
}

/// The character that an escape `\c` inside a string literal stands for.
pub open spec fn unescape(c: char) -> char {
    if c == 'n' {
        '\n'
    } else if c == 'r' {
        '\r'
    } else if c == 't' {
        '\t'
    } else if c == 'b' {
        '\u{8}'
    } else if c == 'f' {
        '\u{c}'
    } else {
        c
    }
}

/// The body of a string literal from `p` (just after the opening quote):
/// its text, appended to `acc`, and the position after the closing quote.
pub open spec fn p_string(s: Seq<char>, p: int, acc: Seq<char>) -> Result<
    (Seq<char>, int),
    ParseFail,
>
    decreases s.len() - p,
{
    if p < 0 || p >= s.len() {
        Err(ParseFail::Unterminated(line_at(s, s.len() as int)))
    } else if s[p] == '"' {
        Ok((acc, p + 1))
    } else if s[p] == '\\' {
        if p + 1 >= s.len() {
            Err(ParseFail::Unterminated(line_at(s, s.len() as int)))
        } else {
            p_string(s, p + 2, acc.push(unescape(s[p + 1])))
        }
    } else {
        p_string(s, p + 1, acc.push(s[p]))
    }
}

/// The node an atom token stands for.
pub open spec fn atom_node(tok: Seq<char>, syn: Syntax, line: nat) -> Node {
    if tok == syn.nil {
        Node::List(Seq::empty(), line)
    } else if tok == syn.tru {
        Node::Sym("true"@, line)
    } else if syn.fls == Some(tok) {
        Node::Sym("false"@, line)
    } else if parse_int(tok) is Some {
        Node::Sym(int_text(parse_int(tok)->0), line)
    } else {
        Node::Sym(tok, line)
    }
}

/// One expression from `p`: the node and the position after it.
pub open spec fn p_expr(s: Seq<char>, p0: int, syn: Syntax) -> Result<(Node, int), ParseFail>
    decreases s.len() - p0, 0nat,
{
    let p = skip_blank(s, p0, syn.comment);
    let line = line_at(s, p);
    proof {
        lemma_skip_blank(s, p0, syn.comment);
    }
    if p < 0 || p >= s.len() {
        Err(ParseFail::Eof(line))
    } else if s[p] == '(' {
        p_items(s, p + 1, syn, Seq::empty(), line)
    } else if s[p] == ')' {
        Err(ParseFail::CloseParen(line))
    } else if s[p] == '"' {
        match p_string(s, p + 1, Seq::empty()) {
            Ok((t, e)) => Ok((Node::Str(t, line), e)),
            Err(f) => Err(f),
        }
    } else if s[p] == '\'' {
        let q = skip_blank(s, p + 1, syn.comment);
        if q >= s.len() || s[q] == ')' {
            Err(ParseFail::EmptyQuote(line))
        } else {
            match p_expr(s, p + 1, syn) {
                Ok((n, e)) => Ok((Node::Quote(Box::new(n), line), e)),
                Err(f) => Err(f),
            }
        }
    } else {
        let e = token_end(s, p, syn.comment);
        Ok((atom_node(s.subrange(p, e), syn, line), e))
    }
}

/// The rest of a list from `p0`, whose items so far are `acc` and whose
/// opening parenthesis stood on line `open`.
pub open spec fn p_items(s: Seq<char>, p0: int, syn: Syntax, acc: Seq<Node>, open: nat) -> Result<
    (Node, int),
    ParseFail,
>
    decreases s.len() - p0, 1nat,
{
    let p = skip_blank(s, p0, syn.comment);
    proof {
        lemma_skip_blank(s, p0, syn.comment);
    }
    if p < 0 || p >= s.len() {
        Err(ParseFail::Unclosed(line_at(s, p)))
    } else if s[p] == ')' {
        Ok((Node::List(acc, open), p + 1))
    } else {
        match p_expr(s, p, syn) {
            Ok((n, e)) => if p < e <= s.len() {
                p_items(s, e, syn, acc.push(n), open)
            } else {
                Err(ParseFail::Eof(0))
            },
            Err(f) => Err(f),
        }
    }
}

/// The message of an `UnexpectedContent` failure at position `p`.
pub open spec fn content_message(p: nat) -> Seq<char> {
    "Expected '(' at position "@ + nat_text(p)
}

/// The top-level forms from `p0`, appended to `acc`.
pub open spec fn p_all(s: Seq<char>, p0: int, syn: Syntax, acc: Seq<Node>) -> Result<
    Seq<Node>,
    ParseFail,
>
    decreases s.len() - p0,
{
    let p = skip_blank(s, p0, syn.comment);
    proof {
        lemma_skip_blank(s, p0, syn.comment);
    }
    if p < 0 || p >= s.len() {
        Ok(acc)
    } else if s[p] != '(' {
        Err(ParseFail::Content(content_message(p as nat), line_at(s, p)))
    } else {
        match p_expr(s, p, syn) {
            Ok((n, e)) => if p < e <= s.len() {
                p_all(s, e, syn, acc.push(n))
            } else {
                Err(ParseFail::Eof(0))
            },
            Err(f) => Err(f),
        }
    }
}

/// All top-level forms of a text in the task language's syntax.
pub open spec fn parse_text(s: Seq<char>) -> Result<Seq<Node>, ParseFail> {
    p_all(s, 0, std_syntax(), Seq::empty())
}

pub proof fn lemma_line_end(s: Seq<char>, p: int)
    ensures
        line_end(s, p) >= p,
        0 <= p <= s.len() ==> line_end(s, p) <= s.len(),
    decreases s.len() - p,
{
    if 0 <= p < s.len() && s[p] != '\n' {
        lemma_line_end(s, p + 1);
    }
}

pub proof fn lemma_skip_blank(s: Seq<char>, p: int, cc: char)
    ensures
        skip_blank(s, p, cc) >= p,
        0 <= p <= s.len() ==> skip_blank(s, p, cc) <= s.len(),
    decreases s.len() - p,
{
    if 0 <= p < s.len() && is_ws(s[p]) {
        lemma_skip_blank(s, p + 1, cc);
    } else if 0 <= p < s.len() && s[p] == cc {
        lemma_line_end(s, p + 1);
        lemma_skip_blank(s, line_end(s, p + 1), cc);
    }
}

pub proof fn lemma_skip_blank_stop(s: Seq<char>, p: int, cc: char)
    requires
        0 <= p,
    ensures
        0 <= skip_blank(s, p, cc) < s.len() ==> !is_ws(s[skip_blank(s, p, cc)]) && s[skip_blank(
            s,
            p,
            cc,
        )] != cc,
    decreases s.len() - p,
{
    if 0 <= p < s.len() && is_ws(s[p]) {
        lemma_skip_blank_stop(s, p + 1, cc);
    } else if 0 <= p < s.len() && s[p] == cc {
        lemma_line_end(s, p + 1);
        lemma_skip_blank_stop(s, line_end(s, p + 1), cc);
    }
}

proof fn lemma_p_string_bounds(s: Seq<char>, p: int, acc: Seq<char>)
    requires
        0 <= p,
    ensures
        p_string(s, p, acc) is Ok ==> p < p_string(s, p, acc)->Ok_0.1 <= s.len(),
    decreases s.len() - p,
{
    if p < 0 || p >= s.len() {
    } else if s[p] == '"' {
    } else if s[p] == '\\' {
        if p + 1 < s.len() {
            lemma_p_string_bounds(s, p + 2, acc.push(unescape(s[p + 1])));
        }
    } else {
        lemma_p_string_bounds(s, p + 1, acc.push(s[p]));
    }
}

proof fn lemma_line_at_bound(s: Seq<char>, p: int)
    requires
        p >= 0,
    ensures
        line_at(s, p) <= p + 1,
    decreases p,
{
    if p > 0 {
        lemma_line_at_bound(s, p - 1);
    }
}

pub proof fn lemma_token_end(s: Seq<char>, p: int, cc: char)
    requires
        0 <= p <= s.len(),
    ensures
        p <= token_end(s, p, cc) <= s.len(),
    decreases s.len() - p,
{
    if p < s.len() && !is_delim(s[p], cc) {
        lemma_token_end(s, p + 1, cc);
    }
}

/// Whether a string-literal result agrees with its specification.
pub open spec fn string_matches(
    r: Result<(String, usize), ParseError>,
    spec: Result<(Seq<char>, int), ParseFail>,
) -> bool {
    match spec {
        Ok((t, e)) => r is Ok && r->Ok_0.0@ == t && r->Ok_0.1 as int == e,
        Err(f) => r is Err && r->Err_0@ == f,
    }
}

/// Whether an expression result agrees with its specification.
pub open spec fn expr_matches(
    r: Result<(SExp, usize), ParseError>,
    spec: Result<(Node, int), ParseFail>,
) -> bool {
    match spec {
        Ok((n, e)) => r is Ok && r->Ok_0.0@ == n && r->Ok_0.1 as int == e,
        Err(f) => r is Err && r->Err_0@ == f,
    }
}

fn unescape_char(c: char) -> (r: char)
    ensures
        r == unescape(c),
{
    if c == 'n' {
        '\n'
    } else if c == 'r' {
        '\r'
    } else if c == 't' {
        '\t'
    } else if c == 'b' {
        '\u{8}'
    } else if c == 'f' {
        '\u{c}'
    } else {
        c
    }
}

/// A parser over one source text, with its configurable tokens.
pub struct Parser<'a> {
    text: &'a str,
    chars: Vec<char>,
    pos: usize,
    nil: &'a str,
    true_val: &'a str,
    false_val: Option<&'a str>,
    line_comment: char,
    nil_chars: Vec<char>,
    true_chars: Vec<char>,
    false_chars: Option<Vec<char>>,
}

impl<'a> Parser<'a> {
    /// The text being parsed.
    pub closed spec fn source(&self) -> Seq<char> {
        self.chars@
    }

    /// The position reached, as an index into the source's characters.
    pub closed spec fn position(&self) -> nat {
        self.pos as nat
    }

    /// The configured tokens.
    pub closed spec fn syntax(&self) -> Syntax {
        Syntax {
            nil: self.nil@,
            tru: self.true_val@,
            fls: match self.false_val {
                Some(f) => Some(f@),
                None => None,
            },
            comment: self.line_comment,
        }
    }

    pub closed spec fn wf(&self) -> bool {
        &&& self.chars@ == self.text@
        &&& self.pos <= self.chars@.len()
        &&& self.chars@.len() < usize::MAX
        &&& self.nil_chars@ == self.nil@
        &&& self.true_chars@ == self.true_val@
        &&& match self.false_val {
            Some(f) => self.false_chars is Some && self.false_chars->0@ == f@,
            None => self.false_chars is None,
        }
    }

    pub fn new(
        text: &'a str,
        nil: &'a str,
        true_val: &'a str,
        false_val: Option<&'a str>,
        line_comment: char,
    ) -> (r: Self)
        requires
            text@.len() < usize::MAX,
        ensures
            r.wf(),
            r.source() == text@,
            r.position() == 0,
            r.syntax() == (Syntax {
                nil: nil@,
                tru: true_val@,
                fls: match false_val {
                    Some(f) => Some(f@),
                    None => None,
                },
                comment: line_comment,
            }),
    {
        let false_chars = match false_val {
            Some(f) => Some(chars_of(f)),
            None => None,
        };
        Parser {
            text,
            chars: chars_of(text),
            pos: 0,
            nil,
            true_val,
            false_val,
            line_comment,
            nil_chars: chars_of(nil),
            true_chars: chars_of(true_val),
            false_chars,
        }
    }

    /// The line of the position reached (starting at 1).
    pub fn current_line(&self) -> (r: usize)
        requires
            self.wf(),
        ensures
            r as nat == line_at(self.source(), self.position() as int),
    {
        self.line_of(self.pos)
    }

    fn line_of(&self, p: usize) -> (r: usize)
        requires
            self.wf(),
            p <= self.chars@.len(),
        ensures
            r as nat == line_at(self.chars@, p as int),
    {
        let mut n: usize = 1;
        let mut i: usize = 0;
        while i < p
            invariant
                self.wf(),
                p <= self.chars@.len(),
                i <= p,
                n as nat == line_at(self.chars@, i as int),
            decreases p - i,
        {
            proof {
                lemma_line_at_bound(self.chars@, i as int);
            }
            if self.chars[i] == '\n' {
                n = n + 1;
            }
            i = i + 1;
        }
        n
    }

    /// The position after the comment that starts at `p`: its end of line.
    fn skip_comment(&self, p: usize) -> (r: usize)
        requires
            self.wf(),
            p <= self.chars@.len(),
        ensures
            r as int == line_end(self.chars@, p as int),
    {
        let mut i = p;
        while i < self.chars.len() && self.chars[i] != '\n'
            invariant
                self.wf(),
                p <= i <= self.chars@.len(),
                line_end(self.chars@, i as int) == line_end(self.chars@, p as int),
            decreases self.chars@.len() - i,
        {
            i = i + 1;
        }
        i
    }

    /// The position after whitespace and comments from `p`.
    fn skip_blank(&self, p: usize) -> (r: usize)
        requires
            self.wf(),
            p <= self.chars@.len(),
        ensures
            r as int == skip_blank(self.chars@, p as int, self.line_comment),
            p <= r <= self.chars@.len(),
    {
        let mut i = p;
        while i < self.chars.len()
            invariant
                self.wf(),
                p <= i <= self.chars@.len(),
                skip_blank(self.chars@, i as int, self.line_comment) == skip_blank(
                    self.chars@,
                    p as int,
                    self.line_comment,
                ),
            ensures
                p <= i <= self.chars@.len(),
                skip_blank(self.chars@, p as int, self.line_comment) == i as int,
            decreases self.chars@.len() - i,
        {
            let c = self.chars[i];
            if is_whitespace(c) {
                i = i + 1;
            } else if c == self.line_comment {
                proof {
                    lemma_line_end(self.chars@, i + 1);
                }
                i = self.skip_comment(i + 1);
            } else {
                assert(skip_blank(self.chars@, i as int, self.line_comment) == i as int);
                break;
            }
        }
        i
    }

    /// Reads the string literal whose opening quote is at `p`: its text and the
    /// position after the closing quote.
    fn parse_string(&self, p: usize) -> (r: Result<(String, usize), ParseError>)
        requires
            self.wf(),
            p < self.chars@.len(),
            self.chars@[p as int] == '"',
        ensures
            string_matches(r, p_string(self.chars@, p + 1, Seq::empty())),
    {
        let ghost s = self.chars@;
        let len = self.chars.len();
        let mut i = p + 1;
        let mut acc: Vec<char> = Vec::new();
        while i < len
            invariant
                self.wf(),
                s == self.chars@,
                len == s.len(),
                p + 1 <= i <= len + 1,
                p_string(s, i as int, acc@) == p_string(s, p + 1, Seq::empty()),
            decreases len + 1 - i,
        {
            let c = self.chars[i];
            if c == '"' {
                return Ok((string_of(acc.as_slice()), i + 1));
            } else if c == '\\' {
                if i + 1 >= len {
                    return Err(ParseError::UnterminatedString(self.line_of(len)));
                }
                acc.push(unescape_char(self.chars[i + 1]));
                i = i + 2;
            } else {
                acc.push(c);
                i = i + 1;
            }
        }
        Err(ParseError::UnterminatedString(self.line_of(len)))
    }

    /// Reads the atom that starts at `p`: the node it stands for and the position after it.
    fn parse_atom(&self, p: usize) -> (r: (SExp, usize))
        requires
            self.wf(),
            p < self.chars@.len(),
        ensures
            r.1 as int == token_end(self.chars@, p as int, self.line_comment),
            r.0@ == atom_node(
                self.chars@.subrange(p as int, r.1 as int),
                self.syntax(),
                line_at(self.chars@, p as int),
            ),
    {
        let mut e = p;
        while e < self.chars.len() && !(is_whitespace(self.chars[e]) || self.chars[e] == '('
            || self.chars[e] == ')' || self.chars[e] == self.line_comment)
            invariant
                self.wf(),
                p <= e <= self.chars@.len(),
                token_end(self.chars@, e as int, self.line_comment) == token_end(
                    self.chars@,
                    p as int,
                    self.line_comment,
                ),
            decreases self.chars@.len() - e,
        {
            e = e + 1;
        }
        let mut tok: Vec<char> = Vec::new();
        let mut j = p;
        while j < e
            invariant
                self.wf(),
                p <= j <= e <= self.chars@.len(),
                tok@ == self.chars@.subrange(p as int, j as int),
            decreases e - j,
        {
            tok.push(self.chars[j]);
            j = j + 1;
            assert(tok@ =~= self.chars@.subrange(p as int, j as int));
        }
        let line = self.line_of(p);
        let is_false = match &self.false_chars {
            Some(f) => same_chars(tok.as_slice(), f.as_slice()),
            None => false,
        };
        let node = if same_chars(tok.as_slice(), self.nil_chars.as_slice()) {
            let items: Vec<SExp> = Vec::new();
            proof {
                assert(nodes_of(items@) =~= Seq::<Node>::empty());
            }
            SExp::List(items, line)
        } else if same_chars(tok.as_slice(), self.true_chars.as_slice()) {
            SExp::Symbol(text("true"), line)
        } else if is_false {
            SExp::Symbol(text("false"), line)
        } else {
            match parse_i64(tok.as_slice()) {
                Some(v) => SExp::Symbol(string_of(int_to_text(v).as_slice()), line),
                None => SExp::Symbol(string_of(tok.as_slice()), line),
            }
        };
        (node, e)
    }

    /// Reads one expression from `p0`: the node and the position after it.
    fn parse_expr(&self, p0: usize) -> (r: Result<(SExp, usize), ParseError>)
        requires
            self.wf(),
            p0 <= self.chars@.len(),
        ensures
            expr_matches(r, p_expr(self.chars@, p0 as int, self.syntax())),
            r is Ok ==> p0 < r->Ok_0.1 <= self.chars@.len(),
        decreases self.chars@.len() - p0,
    {
        let ghost s = self.chars@;
        let ghost syn = self.syntax();
        let len = self.chars.len();
        let p = self.skip_blank(p0);
        proof {
            lemma_line_at_bound(s, p as int);
            lemma_skip_blank_stop(s, p0 as int, self.line_comment);
        }
        if p >= len {
            return Err(ParseError::UnexpectedEOF(self.line_of(p)));
        }
        let c = self.chars[p];
        if c == '(' {
            let line = self.line_of(p);
            let mut items: Vec<SExp> = Vec::new();
            let mut i = p + 1;
            proof {
                assert(nodes_of(items@) =~= Seq::<Node>::empty());
            }
            while i <= len
                invariant
                    self.wf(),
                    s == self.chars@,
                    syn == self.syntax(),
                    len == s.len(),
                    p0 <= p < i <= len,
                    line as nat == line_at(s, p as int),
                    p_items(s, i as int, syn, nodes_of(items@), line as nat) == p_expr(
                        s,
                        p0 as int,
                        syn,
                    ),
                decreases len - i,
            {
                let q = self.skip_blank(i);
                if q >= len {
                    proof {
                        lemma_line_at_bound(s, q as int);
                    }
                    return Err(ParseError::UnclosedParen(self.line_of(q)));
                }
                if self.chars[q] == ')' {
                    return Ok((SExp::List(items, line), q + 1));
                }
                match self.parse_expr(q) {
                    Ok((e, end)) => {
                        proof {
                            lemma_nodes_of_push(items@, e);
                        }
                        items.push(e);
                        i = end;
                    },
                    Err(f) => {
                        return Err(f);
                    },
                }
            }
            proof {
                assert(false);
            }
            Err(ParseError::UnclosedParen(0))
        } else if c == ')' {
            Err(ParseError::UnexpectedCloseParen(self.line_of(p)))
        } else if c == '"' {
            let line = self.line_of(p);
            proof {
                lemma_p_string_bounds(s, p + 1, Seq::empty());
            }
            match self.parse_string(p) {
                Ok((t, e)) => Ok((SExp::String(t, line), e)),
                Err(f) => Err(f),
            }
        } else if c == '\'' {
            let line = self.line_of(p);
            let q = self.skip_blank(p + 1);
            if q >= len || self.chars[q] == ')' {
                return Err(ParseError::EmptyQuoted(line));
            }
            match self.parse_expr(p + 1) {
                Ok((e, end)) => Ok((SExp::Quoted(Box::new(e), line), end)),
                Err(f) => Err(f),
            }
        } else {
            proof {
                lemma_token_end(s, p + 1, self.line_comment);
                assert(!is_delim(s[p as int], self.line_comment));
            }
            let (node, e) = self.parse_atom(p);
            Ok((node, e))
        }
    }

    /// Reads the next expression at the position reached and moves past it.
    pub fn parse_sexp(&mut self) -> (r: Result<SExp, ParseError>)
        requires
            old(self).wf(),
        ensures
            final(self).wf(),
            final(self).source() == old(self).source(),
            final(self).syntax() == old(self).syntax(),
            match p_expr(old(self).source(), old(self).position() as int, old(self).syntax()) {
                Ok((n, e)) => r is Ok && r->Ok_0@ == n && final(self).position() == e,
                Err(f) => r is Err && r->Err_0@ == f,
            },
    {
        match self.parse_expr(self.pos) {
            Ok((e, end)) => {
                self.pos = end;
                Ok(e)
            },
            Err(f) => Err(f),
        }
    }
}

/// Parses all top-level forms of `s`, each of which must be a list.
pub fn loads_all(s: &str) -> (r: Result<Vec<SExp>, ParseError>)
    requires
        s@.len() < usize::MAX,
    ensures
        match parse_text(s@) {
            Ok(ns) => r is Ok && nodes_of(r->Ok_0@) == ns,
            Err(f) => r is Err && r->Err_0@ == f,
        },
{
    let mut forms: Vec<SExp> = Vec::new();
    let mut parser = Parser::new(s, "nil", "t", None, ';');
    proof {
        reveal_strlit("nil");
        reveal_strlit("t");
        assert(parser.syntax() == std_syntax());
        assert(nodes_of(forms@) =~= Seq::<Node>::empty());
    }
    let len = parser.chars.len();
    while parser.pos < len
        invariant
            parser.wf(),
            parser.chars@ == s@,
            len == s@.len(),
            parser.syntax() == std_syntax(),
            p_all(s@, parser.pos as int, std_syntax(), nodes_of(forms@)) == parse_text(s@),
        ensures
            parse_text(s@) == Ok::<Seq<Node>, ParseFail>(nodes_of(forms@)),
        decreases len - parser.pos,
    {
        let p = parser.skip_blank(parser.pos);
        if p >= len {
            break;
        }
        if parser.chars[p] != '(' {
            let mut msg = chars_of("Expected '(' at position ");
            push_nat_text(p as u64, &mut msg);
            proof {
                lemma_line_at_bound(s@, p as int);
            }
            return Err(ParseError::UnexpectedContent(string_of(msg.as_slice()), parser.line_of(p)));
        }
        match parser.parse_expr(p) {
            Ok((e, end)) => {
                proof {
                    lemma_nodes_of_push(forms@, e);
                }
                forms.push(e);
                parser.pos = end;
            },
            Err(f) => {
                return Err(f);
            },
        }
    }
    Ok(forms)
}

} // verus!
