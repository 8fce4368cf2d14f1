//! Untransformed expression nodes, held in an append-only pool.
//!
//! The parser (an external collaborator) hands the compiler a pool of
//! expression nodes and the id of a root node.  Composite nodes refer to
//! their children by id; a well-formed pool is built bottom-up, so every
//! child id is smaller than the id of the node that holds it.  The
//! transform stage borrows the pool and never mutates it.

use vstd::prelude::*;
use crate::value::ExpressionValue;

verus! {

/// A binary arithmetic operator; division and remainder truncate
/// toward zero, as the base dialect's integer rule does.
pub enum BinOp {
    Add,
    Sub,
    Mul,
    Div,
    Mod,
}

/// String value or variable reference
pub enum StringBox {
    Value(String),
    Var(String),
}

/// One untransformed expression node.  Composite variants hold the pool
/// ids of their children.
pub enum Expression {
    /// A literal value, taken verbatim.
    Lit(ExpressionValue),
    /// A reference to a variable of any type.
    Var(String),
    /// A string-typed slot: a string literal or a string variable.
    StrExpr(StringBox),
    /// An arithmetic operation over two number-typed operands.
    BinaryOp(BinOp, usize, usize),
    /// An ordered sequence of child statements.
    Block(Vec<usize>),
    /// An invocation of a named mixin with argument expressions.
    MixinCall(String, Vec<usize>),
    /// A variable definition: binds the identifier in the active frame.
    VarDef(String, usize),
    /// A mixin definition: name, formal parameters, body statements.
    MixinDef(String, Vec<String>, Vec<usize>),
}

/// Every child id of `e` lies below `bound`.
pub open spec fn expr_wf(e: Expression, bound: int) -> bool {
    match e {
        Expression::Lit(_) => true,
        Expression::Var(_) => true,
        Expression::StrExpr(_) => true,
        Expression::BinaryOp(_, l, r) => l < bound && r < bound,
        Expression::Block(cs) => forall|k: int|
            0 <= k < cs@.len() ==> (#[trigger] cs@[k]) < bound,
        Expression::MixinCall(_, args) => forall|k: int|
            0 <= k < args@.len() ==> (#[trigger] args@[k]) < bound,
        Expression::VarDef(_, v) => v < bound,
        Expression::MixinDef(_, _, body) => forall|k: int|
            0 <= k < body@.len() ==> (#[trigger] body@[k]) < bound,
    }
}

/// A pool is well-formed when every node only refers to earlier nodes.
pub open spec fn pool_wf(pool: Seq<Expression>) -> bool {
    forall|i: int| 0 <= i < pool.len() ==> expr_wf(#[trigger] pool[i], i)
}

/// The append-only pool that owns one parse's expression nodes.
pub struct ExprArena {
    nodes: Vec<Expression>,
}

impl View for ExprArena {
    type V = Seq<Expression>;

    closed spec fn view(&self) -> Seq<Expression> {
        self.nodes@
    }
}

impl ExprArena {
    /// An empty pool.
    pub fn new() -> (r: ExprArena)
        ensures
            r@ == Seq::<Expression>::empty(),
            r.wf(),
    {
        let r = ExprArena { nodes: Vec::new() };
        proof {
            assert(r@ =~= Seq::<Expression>::empty());
        }
        r
    }

    pub open spec fn wf(&self) -> bool {
        pool_wf(self@) && self@.len() <= usize::MAX
    }

    /// Number of nodes in the pool.
    pub fn len(&self) -> (r: usize)
        ensures
            r == self@.len(),
    {
        self.nodes.len()
    }

    /// Borrow the node with the given id.
    pub fn get(&self, id: usize) -> (r: &Expression)
        requires
            id < self@.len(),
        ensures
            *r == self@[id as int],
    {
        &self.nodes[id]
    }

    /// Append a node whose children are already in the pool.
    pub fn push(&mut self, e: Expression) -> (id: usize)
        requires
            old(self).wf(),
            expr_wf(e, old(self)@.len() as int),
        ensures
            id == old(self)@.len(),
            final(self)@ == old(self)@.push(e),
            final(self).wf(),
    {
        let id = self.nodes.len();
        self.nodes.push(e);
        proof {
            assert(vstd::std_specs::vec::spec_vec_len(&self.nodes) == self.nodes@.len());
        }
        id
    }

    /// Append a node after checking that its children are in the pool;
    /// `None` if some child id is out of range.
    pub fn try_push(&mut self, e: Expression) -> (r: Option<usize>)
        requires
            old(self).wf(),
        ensures
            match r {
                Some(id) => {
                    &&& expr_wf(e, old(self)@.len() as int)
                    &&& id == old(self)@.len()
                    &&& final(self)@ == old(self)@.push(e)
                },
                None => {
                    &&& !expr_wf(e, old(self)@.len() as int)
                    &&& final(self)@ == old(self)@
                },
            },
            final(self).wf(),
    {
        let ok = expr_wf_check(&e, self.nodes.len());
        if ok {
            Some(self.push(e))
        } else {
            None
        }
    }
}

/// Runtime check of `expr_wf`, for callers outside verified code.
pub fn expr_wf_check(e: &Expression, bound: usize) -> (b: bool)
    ensures
        b == expr_wf(*e, bound as int),
{
    match e {
        Expression::Lit(_) => true,
        Expression::Var(_) => true,
        Expression::StrExpr(_) => true,
        Expression::BinaryOp(_, l, r) => *l < bound && *r < bound,
        Expression::Block(cs) => ids_below(cs, bound),
        Expression::MixinCall(_, args) => ids_below(args, bound),
        Expression::VarDef(_, v) => *v < bound,
        Expression::MixinDef(_, _, body) => ids_below(body, bound),
    }
}

/// Whether every id in the list lies below `bound`.
fn ids_below(ids: &Vec<usize>, bound: usize) -> (b: bool)
    ensures
        b == forall|k: int| 0 <= k < ids@.len() ==> (#[trigger] ids@[k]) < bound,
{
    let mut k: usize = 0;
    while k < ids.len()
        invariant
            k <= ids@.len(),
            forall|j: int| 0 <= j < k ==> (#[trigger] ids@[j]) < bound,
        decreases ids@.len() - k,
    {
        if ids[k] >= bound {
            return false;
        }
        k = k + 1;
    }
    true
}

} // verus!
