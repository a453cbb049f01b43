//! The syntax tree and its mathematical model.

use vstd::prelude::*;

verus! {

/// A node of the syntax tree, with the 1-based line where it began.
#[derive(Debug)]
pub enum SExp {
    Symbol(String, usize),
    String(String, usize),
    List(Vec<SExp>, usize),
    Quoted(Box<SExp>, usize),
}

/// The model of a syntax node: texts as character sequences, lines as naturals.
pub enum Node {
    Sym(Seq<char>, nat),
    Str(Seq<char>, nat),
    List(Seq<Node>, nat),
    Quote(Box<Node>, nat),
}

impl Node {
    pub open spec fn line(self) -> nat {
        match self {
            Node::Sym(_, l) => l,
            Node::Str(_, l) => l,
            Node::List(_, l) => l,
            Node::Quote(_, l) => l,
        }
    }
}

pub open spec fn node_of(e: SExp) -> Node
    decreases e,
{
    match e {
        SExp::Symbol(s, l) => Node::Sym(s@, l as nat),
        SExp::String(s, l) => Node::Str(s@, l as nat),
        SExp::List(v, l) => Node::List(nodes_of(v@), l as nat),
        SExp::Quoted(b, l) => Node::Quote(Box::new(node_of(*b)), l as nat),
    }
}

pub open spec fn nodes_of(s: Seq<SExp>) -> Seq<Node>
    decreases s,
{
    if s.len() == 0 {
        Seq::empty()
    } else {
        nodes_of(s.drop_last()).push(node_of(s.last()))
    }
}

pub proof fn lemma_nodes_of(s: Seq<SExp>)
    ensures
        nodes_of(s).len() == s.len(),
        forall|i: int| 0 <= i < s.len() ==> #[trigger] nodes_of(s)[i] == node_of(s[i]),
    decreases s.len(),
{
    if s.len() > 0 {
        lemma_nodes_of(s.drop_last());
    }
}

pub proof fn lemma_nodes_of_push(s: Seq<SExp>, e: SExp)
    ensures
        nodes_of(s.push(e)) == nodes_of(s).push(node_of(e)),
{
    assert(s.push(e).drop_last() =~= s);
}

impl View for SExp {
    type V = Node;

    open spec fn view(&self) -> Node {
        node_of(*self)
    }
}

impl SExp {
    /// The line where this node began.
    pub fn line(&self) -> (r: usize)
        ensures
            r as nat == self@.line(),
    {
        match self {
            SExp::Symbol(_, line) => *line,
            SExp::String(_, line) => *line,
            SExp::List(_, line) => *line,
            SExp::Quoted(_, line) => *line,
        }
    }
}

/// Why a source text could not be parsed; each carries the line of the failure.
#[derive(Debug)]
pub enum ParseError {
    UnexpectedEOF(usize),
    UnterminatedString(usize),
    UnclosedParen(usize),
    UnexpectedCloseParen(usize),
    EmptyQuoted(usize),
    UnexpectedContent(String, usize),
}

/// The model of a parse failure.
pub enum ParseFail {
    Eof(nat),
    Unterminated(nat),
    Unclosed(nat),
    CloseParen(nat),
    EmptyQuote(nat),
    Content(Seq<char>, nat),
}

impl View for ParseError {
    type V = ParseFail;

    open spec fn view(&self) -> ParseFail {
        match self {
            ParseError::UnexpectedEOF(l) => ParseFail::Eof(*l as nat),
            ParseError::UnterminatedString(l) => ParseFail::Unterminated(*l as nat),
            ParseError::UnclosedParen(l) => ParseFail::Unclosed(*l as nat),
            ParseError::UnexpectedCloseParen(l) => ParseFail::CloseParen(*l as nat),
            ParseError::EmptyQuoted(l) => ParseFail::EmptyQuote(*l as nat),
            ParseError::UnexpectedContent(m, l) => ParseFail::Content(m@, *l as nat),
        }
    }
}

} // verus!
