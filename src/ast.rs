use vstd::prelude::*;
use crate::registry::Mark;

verus! {

/// An identifier: its text, and the context tag that resolution gives it
/// (empty until then, and empty for a free reference).
#[derive(Debug)]
pub struct Ident {
    pub name: String,
    pub tag: Vec<Mark>,
}

/// Expressions of the supported subset.
#[derive(Debug)]
pub enum Expr {
    /// A reference to a name.
    Ref(Ident),
    Number(u64),
    Str(String),
    /// `(params) => { body }`; `scope` is the mark of its region once resolved.
    Arrow { params: Vec<Ident>, body: Vec<Stmt>, scope: Option<Mark> },
    /// `callee(args)`.
    Call { callee: Box<Expr>, args: Vec<Expr> },
    /// `object.property`; the property is a name, not a reference.
    Member { object: Box<Expr>, property: String },
    /// `left op right`, the operator as written.
    Binary { op: String, left: Box<Expr>, right: Box<Expr> },
}

/// Statements of the supported subset.
#[derive(Debug)]
pub enum Stmt {
    /// `import {a, b} from 'source';`
    Import { specifiers: Vec<Ident>, source: String },
    /// `const name = init;`
    Const { name: Ident, init: Expr },
    /// `expr;`
    Expr(Expr),
    /// `{ body }`; `scope` is the mark of its region once resolved.
    Block { body: Vec<Stmt>, scope: Option<Mark> },
}

/// The root of a tree, one source unit; `scope` is the mark of the module region once resolved.
#[derive(Debug)]
pub struct SourceUnit {
    pub body: Vec<Stmt>,
    pub scope: Option<Mark>,
}

impl Ident {
    /// An identifier that carries no tag yet.
    pub fn new(name: &str) -> (r: Ident)
        ensures
            r.name@ == name@,
            r.tag@.len() == 0,
    {
        Ident { name: name.to_owned(), tag: Vec::new() }
    }
}

} // verus!
