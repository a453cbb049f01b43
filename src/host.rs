//! What evaluation asks of the world outside the library, and the answers it is given.
//!
//! Evaluation is a pure function of the syntax, the context and a transcript of
//! earlier answers. When it needs an answer the transcript does not yet hold, it
//! stops with the request; the caller performs it, appends the reply, and
//! evaluates again. Each request is performed once, and the answers are
//! consumed in the order the requests arose.

use vstd::prelude::*;
use crate::error::{EvalError, Fail};

verus! {

/// A request for outside work.
#[derive(Debug)]
pub enum Request {
    /// The value of a process environment variable.
    EnvVar(String),
    /// The top directory of the enclosing version-controlled repository.
    GitRoot,
    /// The current instant in RFC 3339 form.
    Timestamp,
    /// The standard output of a command run by the command interpreter.
    Shell(String),
    /// The contents of a file.
    ReadFile(String),
    /// Setting these process environment variables, in order.
    SetVars(Vec<(String, String)>),
}

/// The answer to a request.
#[derive(Debug)]
pub enum Reply {
    /// The text asked for.
    Text(String),
    /// What was asked for does not exist (an unset variable).
    Missing,
    /// The work could not be done, with the reason.
    Failed(String),
    /// The work was done and has no result.
    Done,
}

pub enum Ask {
    EnvVar(Seq<char>),
    GitRoot,
    Timestamp,
    Shell(Seq<char>),
    ReadFile(Seq<char>),
    SetVars(Seq<(Seq<char>, Seq<char>)>),
}

pub enum Answer {
    Text(Seq<char>),
    Missing,
    Failed(Seq<char>),
    Done,
}

pub open spec fn pairs_view(v: Seq<(String, String)>) -> Seq<(Seq<char>, Seq<char>)> {
    Seq::new(v.len(), |i: int| (v[i].0@, v[i].1@))
}

impl View for Request {
    type V = Ask;

    open spec fn view(&self) -> Ask {
        match self {
            Request::EnvVar(s) => Ask::EnvVar(s@),
            Request::GitRoot => Ask::GitRoot,
            Request::Timestamp => Ask::Timestamp,
            Request::Shell(s) => Ask::Shell(s@),
            Request::ReadFile(s) => Ask::ReadFile(s@),
            Request::SetVars(v) => Ask::SetVars(pairs_view(v@)),
        }
    }
}

impl View for Reply {
    type V = Answer;

    open spec fn view(&self) -> Answer {
        match self {
            Reply::Text(s) => Answer::Text(s@),
            Reply::Missing => Answer::Missing,
            Reply::Failed(s) => Answer::Failed(s@),
            Reply::Done => Answer::Done,
        }
    }
}

/// Why evaluation stopped: a failure, or a request whose answer is not yet known.
#[derive(Debug)]
pub enum Halt {
    Failed(EvalError),
    Needs(Request),
}

pub enum Stop {
    Fail(Fail),
    Need(Ask),
}

impl View for Halt {
    type V = Stop;

    open spec fn view(&self) -> Stop {
        match self {
            Halt::Failed(e) => Stop::Fail(e@),
            Halt::Needs(r) => Stop::Need(r@),
        }
    }
}

/// The answers given so far, and how many of them this evaluation has used.
pub struct Host {
    pub replies: Vec<Reply>,
    pub next: usize,
}

pub open spec fn replies_view(v: Seq<Reply>) -> Seq<Answer> {
    Seq::new(v.len(), |i: int| v[i]@)
}

impl Host {
    pub open spec fn answers(&self) -> Seq<Answer> {
        replies_view(self.replies@)
    }

    /// A transcript with the given answers, none used yet.
    pub fn new(replies: Vec<Reply>) -> (r: Host)
        ensures
            r.replies@ == replies@,
            r.next == 0,
    {
        Host { replies, next: 0 }
    }

    /// The next answer, or the request itself when no answer is left.
    pub fn take(&mut self, ask: Request) -> (r: Result<&Reply, Halt>)
        requires
            old(self).next <= old(self).replies@.len(),
        ensures
            final(self).replies == old(self).replies,
            final(self).next <= final(self).replies@.len(),
            (match r {
                Ok(a) => Ok::<Answer, Stop>(a@),
                Err(h) => Err(h@),
            }, final(self).next as nat) == take_answer(
                old(self).answers(),
                old(self).next as nat,
                ask@,
            ),
    {
        if self.next < self.replies.len() {
            let i = self.next;
            self.next = self.next + 1;
            Ok(&self.replies[i])
        } else {
            Err(Halt::Needs(ask))
        }
    }
}

/// Taking the answer at `next`, or stopping with `ask` when there is none.
pub open spec fn take_answer(replies: Seq<Answer>, next: nat, ask: Ask) -> (Result<Answer, Stop>, nat) {
    if next < replies.len() {
        (Ok(replies[next as int]), next + 1)
    } else {
        (Err(Stop::Need(ask)), next)
    }
}


/// Relies on `chrono::Utc::now` and `DateTime::to_rfc3339`: the current
/// instant as RFC 3339 text. Nothing is promised of its value.
#[verifier::external_body]
fn now_rfc3339() -> (r: String) {
    chrono::Utc::now().to_rfc3339()
}

/// The answer to a `Timestamp` request: the current instant, as text.
pub fn timestamp_reply() -> (r: Reply)
    ensures
        r is Text,
{
    Reply::Text(now_rfc3339())
}

} // verus!
