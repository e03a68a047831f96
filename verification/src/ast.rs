//! The program: statements over the three variables.
use vstd::prelude::*;

verus! {

/// One of the three variables.
#[derive(Debug, Clone, Copy, PartialEq, Eq, Structural)]
pub enum Var {
    A,
    B,
    C,
}

/// The condition under which a loop runs another iteration.
#[derive(Debug, Clone, Copy, PartialEq, Eq, Structural)]
pub enum LoopCond {
    NotEqual(Var, Var),
    Greater(Var, Var),
    Less(Var, Var),
}

/// A statement.
#[derive(Debug)]
pub enum Stmt {
    IncBy1(Var),
    DecBy1(Var),
    IncByVar(Var, Var),
    DecByVar(Var, Var),
    Assign { dst: Var, src: Var },
    PrintInt(Var),
    PrintChar(Var),
    Loop { cond: LoopCond, body: Vec<Stmt>, line: usize },
}

/// `a` and `b` are the same statement: equal, or loops with the same
/// condition and line whose bodies hold the same statements one for one.
pub open spec fn same_stmt(a: Stmt, b: Stmt) -> bool
    decreases a,
{
    match a {
        Stmt::Loop { cond, body, line } => match b {
            Stmt::Loop { cond: c2, body: b2, line: l2 } => {
                &&& cond == c2
                &&& line == l2
                &&& body@.len() == b2@.len()
                &&& forall|i: int|
                    #![trigger body@[i]]
                    0 <= i < body@.len() ==> {
                        proof {
                            assert(decreases_to!(a => body@[i]));
                        }
                        same_stmt(body@[i], b2@[i])
                    }
            },
            _ => false,
        },
        _ => a == b,
    }
}

impl Clone for Stmt {
    /// A copy of the statement, loop bodies included.
    fn clone(&self) -> (r: Self)
        ensures
            same_stmt(*self, r),
        decreases self,
    {
        match self {
            Stmt::IncBy1(v) => Stmt::IncBy1(*v),
            Stmt::DecBy1(v) => Stmt::DecBy1(*v),
            Stmt::IncByVar(d, s) => Stmt::IncByVar(*d, *s),
            Stmt::DecByVar(d, s) => Stmt::DecByVar(*d, *s),
            Stmt::Assign { dst, src } => Stmt::Assign { dst: *dst, src: *src },
            Stmt::PrintInt(v) => Stmt::PrintInt(*v),
            Stmt::PrintChar(v) => Stmt::PrintChar(*v),
            Stmt::Loop { cond, body, line } => {
                let mut copy: Vec<Stmt> = Vec::new();
                let mut i: usize = 0;
                while i < body.len()
                    invariant
                        0 <= i <= body@.len(),
                        copy@.len() == i,
                        forall|j: int| 0 <= j < i ==> same_stmt(body@[j], #[trigger] copy@[j]),
                        *self is Loop && (*self)->body == *body,
                    decreases body@.len() - i,
                {
                    proof {
                        assert(decreases_to!(*self => body@[i as int]));
                    }
                    let s = body[i].clone();
                    copy.push(s);
                    i = i + 1;
                }
                Stmt::Loop { cond: *cond, body: copy, line: *line }
            },
        }
    }
}

/// The statement is not a loop.
pub open spec fn is_simple(s: Stmt) -> bool {
    !(s is Loop)
}

/// No statement of the sequence is a loop.
pub open spec fn all_simple(stmts: Seq<Stmt>) -> bool {
    forall|i: int| 0 <= i < stmts.len() ==> is_simple(#[trigger] stmts[i])
}

/// Loops occur at the top level only: the body of every loop holds no loop.
pub open spec fn one_loop_level(stmts: Seq<Stmt>) -> bool {
    forall|i: int|
        0 <= i < stmts.len() ==> match #[trigger] stmts[i] {
            Stmt::Loop { body, .. } => all_simple(body@),
            _ => true,
        }
}

} // verus!
