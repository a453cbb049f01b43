//! The evaluation context that declarations build: base command, configuration,
//! types, variables, tasks and groups.

use vstd::prelude::*;
use crate::table::Table;

verus! {

/// A task, or a group's record, as declared.
#[derive(Debug)]
pub struct Task {
    /// The fully qualified name (`group.task` for a task declared in a group).
    pub name: String,
    pub title: String,
    pub desc: Option<String>,
    pub meta: Table<String>,
    pub cmd: Option<String>,
    pub shell: Option<String>,
    pub params: Option<String>,
    pub steps: Vec<String>,
    pub props: Table<String>,
}

pub struct TaskM {
    pub name: Seq<char>,
    pub title: Seq<char>,
    pub desc: Option<Seq<char>>,
    pub meta: Map<Seq<char>, Seq<char>>,
    pub cmd: Option<Seq<char>>,
    pub shell: Option<Seq<char>>,
    pub params: Option<Seq<char>>,
    pub steps: Seq<Seq<char>>,
    pub props: Map<Seq<char>, Seq<char>>,
}

pub open spec fn opt_text(o: Option<String>) -> Option<Seq<char>> {
    match o {
        Some(s) => Some(s@),
        None => None,
    }
}

impl DeepView for Task {
    type V = TaskM;

    open spec fn deep_view(&self) -> TaskM {
        TaskM {
            name: self.name@,
            title: self.title@,
            desc: opt_text(self.desc),
            meta: self.meta@,
            cmd: opt_text(self.cmd),
            shell: opt_text(self.shell),
            params: opt_text(self.params),
            steps: self.steps.deep_view(),
            props: self.props@,
        }
    }
}

/// Global state built by the declarations, read by task execution.
#[derive(Debug)]
pub struct Context {
    pub base_cmd: Option<String>,
    /// The string-valued top-level fields of the loaded configuration document.
    pub config: Option<Table<String>>,
    pub types: Table<Vec<String>>,
    pub defs: Table<String>,
    pub tasks: Table<Task>,
    pub groups: Table<Task>,
}

pub struct Ctx {
    pub base_cmd: Option<Seq<char>>,
    pub config: Option<Map<Seq<char>, Seq<char>>>,
    pub types: Map<Seq<char>, Seq<Seq<char>>>,
    pub defs: Map<Seq<char>, Seq<char>>,
    pub tasks: Map<Seq<char>, TaskM>,
    pub groups: Map<Seq<char>, TaskM>,
}

pub open spec fn opt_table(o: Option<Table<String>>) -> Option<Map<Seq<char>, Seq<char>>> {
    match o {
        Some(t) => Some(t@),
        None => None,
    }
}

impl View for Context {
    type V = Ctx;

    open spec fn view(&self) -> Ctx {
        Ctx {
            base_cmd: opt_text(self.base_cmd),
            config: opt_table(self.config),
            types: self.types@,
            defs: self.defs@,
            tasks: self.tasks@,
            groups: self.groups@,
        }
    }
}

/// The context before any declaration.
pub open spec fn empty_ctx() -> Ctx {
    Ctx {
        base_cmd: None,
        config: None,
        types: Map::empty(),
        defs: Map::empty(),
        tasks: Map::empty(),
        groups: Map::empty(),
    }
}

impl Context {
    pub fn new() -> (r: Self)
        ensures
            r@ == empty_ctx(),
    {
        Context {
            base_cmd: None,
            config: None,
            types: Table::new(),
            defs: Table::new(),
            tasks: Table::new(),
            groups: Table::new(),
        }
    }
}

} // verus!
