//! The expression transform: scope resolution, strict type checking,
//! arithmetic evaluation and mixin expansion.
//!
//! `transform` walks an expression bottom-up against a chain of scope
//! frames, allocating every resolved node into the transformed-tree
//! arena, and fails fast on the first error.  A mixin invocation is
//! expanded at compile time: its arguments are resolved at the call
//! site, a fresh child frame of the call-site scope binds the formal
//! parameters (call-site scoping, so a free variable in a mixin body
//! sees the bindings active where the mixin is invoked), and the body
//! is spliced in place of the invocation.  Expansion depth is bounded;
//! exceeding the bound is an error rather than a stack overflow.
//!
//! The whole pass is given a functional specification,
//! `spec_transform`; the executable code is proved to return exactly
//! what the specification says, state changes included.

use vstd::prelude::*;
use crate::value::{spec_kind_name, ExpressionValue, ValueM};
use crate::scope::{
    spec_lookup, spec_lookup_mixin, FrameM, MixinEntry, MixinM, ScopeArena,
};
use crate::expr::{expr_wf, BinOp, ExprArena, Expression, StringBox};
use crate::arena::{node_wf, NodeM, TransformedArena, TransformedNode};
use crate::render::{render, spec_render, RenderConfig};

verus! {

/// The kind of a defined-invalid arithmetic operation.
#[derive(Clone, Copy, Debug)]
pub enum ArithKind {
    DivByZero,
    ModByZero,
    Overflow,
}

/// An error raised by the transform stage; the first one aborts the
/// whole compile.
#[derive(Debug)]
pub enum TransformErr {
    /// A variable was used but never defined in any enclosing scope.
    MissingVarRef(String),
    /// Expected type name, actual type name, and the identifier at
    /// fault (empty when the offending operand was not a reference).
    TypeMismatch(&'static str, &'static str, String),
    /// Division or remainder by zero, or an out-of-range result.
    ArithmeticError(ArithKind),
    /// An invocation of an undeclared mixin name.
    UnknownMixin(String),
    /// Mixin name, declared parameter count, supplied argument count.
    ArityMismatch(String, usize, usize),
    /// Mixin expansion exceeded the recursion-depth bound.
    MixinRecursionLimit,
}

/// Mathematical model of a transform error.
pub enum ErrM {
    MissingVarRefM(Seq<char>),
    TypeMismatchM(Seq<char>, Seq<char>, Seq<char>),
    ArithmeticErrorM(ArithKind),
    UnknownMixinM(Seq<char>),
    ArityMismatchM(Seq<char>, int, int),
    MixinRecursionLimitM,
}

impl View for TransformErr {
    type V = ErrM;

    open spec fn view(&self) -> ErrM {
        match self {
            TransformErr::MissingVarRef(n) => ErrM::MissingVarRefM(n@),
            TransformErr::TypeMismatch(e, a, n) => ErrM::TypeMismatchM(e@, a@, n@),
            TransformErr::ArithmeticError(k) => ErrM::ArithmeticErrorM(*k),
            TransformErr::UnknownMixin(n) => ErrM::UnknownMixinM(n@),
            TransformErr::ArityMismatch(n, e, g) => ErrM::ArityMismatchM(n@, *e as int, *g as int),
            TransformErr::MixinRecursionLimit => ErrM::MixinRecursionLimitM,
        }
    }
}

/// State and result of transforming one expression.
#[verifier::ext_equal]
pub struct StepRes {
    pub frames: Seq<FrameM>,
    pub arena: Seq<NodeM>,
    /// `Ok(Some(h))`: the resolved node's handle.  `Ok(None)`: the
    /// expression was a definition and produced no node.
    pub res: Result<Option<int>, ErrM>,
}

/// State and result of transforming a list of statements.
#[verifier::ext_equal]
pub struct ListRes {
    pub frames: Seq<FrameM>,
    pub arena: Seq<NodeM>,
    /// The handles of the produced nodes, in order; definitions
    /// contribute none.
    pub res: Result<Seq<int>, ErrM>,
}

/// State and result of resolving mixin arguments to values.
#[verifier::ext_equal]
pub struct ArgsRes {
    pub frames: Seq<FrameM>,
    pub arena: Seq<NodeM>,
    pub res: Result<Seq<ValueM>, ErrM>,
}

/// Result of transforming a string-typed slot.
#[verifier::ext_equal]
pub struct StrRes {
    pub arena: Seq<NodeM>,
    pub res: Result<int, ErrM>,
}

/// The model of an executable transform result.
pub open spec fn res_model(r: Result<Option<usize>, TransformErr>) -> Result<Option<int>, ErrM> {
    match r {
        Ok(Some(n)) => Ok(Some(n as int)),
        Ok(None) => Ok(None),
        Err(e) => Err(e@),
    }
}

/// The value carried by an optional arena node, if it is a value node.
pub open spec fn value_of(arena: Seq<NodeM>, o: Option<int>) -> Option<ValueM> {
    match o {
        Some(id) => if 0 <= id < arena.len() {
            match arena[id] {
                NodeM::ValueN(v) => Some(v),
                NodeM::BlockN(_) => None,
            }
        } else {
            None
        },
        None => None,
    }
}

/// The type name an optional result carries into a diagnostic.
pub open spec fn result_kind(arena: Seq<NodeM>, o: Option<int>) -> Seq<char> {
    match o {
        Some(id) => if 0 <= id < arena.len() {
            match arena[id] {
                NodeM::ValueN(v) => spec_kind_name(v),
                NodeM::BlockN(_) => "Block"@,
            }
        } else {
            "Nothing"@
        },
        None => "Nothing"@,
    }
}

/// The identifier a diagnostic points at when the expression `id` is a
/// variable reference; empty otherwise.
pub open spec fn origin_name(pool: Seq<Expression>, id: int) -> Seq<char> {
    if 0 <= id < pool.len() {
        match pool[id] {
            Expression::Var(n) => n@,
            Expression::StrExpr(StringBox::Var(n)) => n@,
            _ => Seq::empty(),
        }
    } else {
        Seq::empty()
    }
}

/// Truncating division, the base dialect's integer rule.
pub open spec fn trunc_div(x: int, d: int) -> int {
    if x == 0 {
        0
    } else if x > 0 && d > 0 {
        x / d
    } else if x < 0 && d < 0 {
        (x * -1) / (d * -1)
    } else if x < 0 {
        ((x * -1) / d) * -1
    } else {
        (x / (d * -1)) * -1
    }
}

/// Truncating remainder: the sign follows the dividend.
pub open spec fn trunc_rem(x: int, d: int) -> int {
    if x == 0 {
        0
    } else if x > 0 && d > 0 {
        x % d
    } else if x < 0 && d < 0 {
        ((x * -1) % (d * -1)) * -1
    } else if x < 0 {
        ((x * -1) % d) * -1
    } else {
        x % (d * -1)
    }
}

/// The outcome of one arithmetic operation on two numbers, with
/// division and remainder by zero and out-of-range results as errors.
pub open spec fn spec_arith(op: BinOp, a: int, b: int) -> Result<int, ErrM> {
    match op {
        BinOp::Add => if a + b > i64::MAX || a + b < i64::MIN {
            Err(ErrM::ArithmeticErrorM(ArithKind::Overflow))
        } else {
            Ok(a + b)
        },
        BinOp::Sub => if a - b > i64::MAX || a - b < i64::MIN {
            Err(ErrM::ArithmeticErrorM(ArithKind::Overflow))
        } else {
            Ok(a - b)
        },
        BinOp::Mul => if a * b > i64::MAX || a * b < i64::MIN {
            Err(ErrM::ArithmeticErrorM(ArithKind::Overflow))
        } else {
            Ok(a * b)
        },
        BinOp::Div => if b == 0 {
            Err(ErrM::ArithmeticErrorM(ArithKind::DivByZero))
        } else if trunc_div(a, b) > i64::MAX || trunc_div(a, b) < i64::MIN {
            Err(ErrM::ArithmeticErrorM(ArithKind::Overflow))
        } else {
            Ok(trunc_div(a, b))
        },
        BinOp::Mod => if b == 0 {
            Err(ErrM::ArithmeticErrorM(ArithKind::ModByZero))
        } else if a == i64::MIN && b == -1 {
            Err(ErrM::ArithmeticErrorM(ArithKind::Overflow))
        } else {
            Ok(trunc_rem(a, b))
        },
    }
}

/// The formal parameters bound to the argument values, in order; a
/// repeated parameter name keeps its right-most argument.
pub open spec fn bind_params(params: Seq<Seq<char>>, vals: Seq<ValueM>) -> Map<Seq<char>, ValueM>
    decreases params.len(),
{
    if params.len() == 0 || vals.len() == 0 {
        Map::empty()
    } else {
        bind_params(params.drop_last(), vals.drop_last()).insert(params.last(), vals.last())
    }
}

/// All ids lie within `[0, plen)`.
pub open spec fn ids_in_range(ids: Seq<int>, plen: int) -> bool {
    forall|k: int| 0 <= k < ids.len() ==> 0 <= #[trigger] ids[k] < plen
}

/// Every mixin template recorded in any frame has its body statements
/// inside the expression pool.
pub open spec fn bodies_wf(frames: Seq<FrameM>, plen: int) -> bool {
    forall|i: int, name: Seq<char>|
        0 <= i < frames.len() && #[trigger] frames[i].mixins.contains_key(name)
            ==> ids_in_range(frames[i].mixins[name].body, plen)
}

/// A mixin found by lookup has its body inside the pool.
pub proof fn lemma_lookup_mixin_bodies(
    frames: Seq<FrameM>,
    i: int,
    name: Seq<char>,
    plen: int,
    m: MixinM,
)
    requires
        bodies_wf(frames, plen),
        spec_lookup_mixin(frames, i, name) == Some(m),
    ensures
        ids_in_range(m.body, plen),
    decreases i,
{
    if 0 <= i < frames.len() {
        if frames[i].mixins.contains_key(name) {
        } else {
            match frames[i].parent {
                Some(p) => {
                    if 0 <= p < i {
                        lemma_lookup_mixin_bodies(frames, p, name, plen, m);
                    }
                },
                None => {},
            }
        }
    }
}

/// The walk measure of one expression: composites weigh one more than
/// their child list.
pub open spec fn tmeasure(pool: Seq<Expression>, id: int) -> int {
    if 0 <= id < pool.len() {
        match pool[id] {
            Expression::Block(cs) => cs@.len() + 1int,
            Expression::MixinCall(_, args) => args@.len() + 1int,
            _ => 1int,
        }
    } else {
        0int
    }
}

/// What transforming a string-typed slot produces: a string literal is
/// taken verbatim; a variable must resolve to a string value.
pub open spec fn spec_str_transform(
    sb: StringBox,
    frames: Seq<FrameM>,
    cur: int,
    arena: Seq<NodeM>,
) -> StrRes {
    match sb {
        StringBox::Value(s) => StrRes {
            arena: arena.push(NodeM::ValueN(ValueM::StrV(s@))),
            res: Ok(arena.len() as int),
        },
        StringBox::Var(idf) => match spec_lookup(frames, cur, idf@) {
            Some(ValueM::StrV(t)) => StrRes {
                arena: arena.push(NodeM::ValueN(ValueM::StrV(t))),
                res: Ok(arena.len() as int),
            },
            Some(v) => StrRes {
                arena,
                res: Err(ErrM::TypeMismatchM("String"@, spec_kind_name(v), idf@)),
            },
            None => StrRes { arena, res: Err(ErrM::MissingVarRefM(idf@)) },
        },
    }
}

/// What transforming the expression `id` against frame `cur` produces:
/// the updated frames, the grown arena, and the result.
pub open spec fn spec_transform(
    pool: Seq<Expression>,
    id: int,
    frames: Seq<FrameM>,
    cur: int,
    arena: Seq<NodeM>,
    fuel: nat,
) -> StepRes
    decreases fuel, id, tmeasure(pool, id),
{
    if !(0 <= id < pool.len() && 0 <= cur < frames.len()) {
        StepRes { frames, arena, res: Ok(None) }
    } else {
        match pool[id] {
            Expression::Lit(v) => StepRes {
                frames,
                arena: arena.push(NodeM::ValueN(v@)),
                res: Ok(Some(arena.len() as int)),
            },
            Expression::Var(name) => match spec_lookup(frames, cur, name@) {
                Some(v) => StepRes {
                    frames,
                    arena: arena.push(NodeM::ValueN(v)),
                    res: Ok(Some(arena.len() as int)),
                },
                None => StepRes { frames, arena, res: Err(ErrM::MissingVarRefM(name@)) },
            },
            Expression::StrExpr(sb) => {
                let sr = spec_str_transform(sb, frames, cur, arena);
                StepRes {
                    frames,
                    arena: sr.arena,
                    res: match sr.res {
                        Ok(n) => Ok(Some(n)),
                        Err(e) => Err(e),
                    },
                }
            },
            Expression::BinaryOp(op, l, r) => {
                if !(l < id && r < id) {
                    StepRes { frames, arena, res: Ok(None) }
                } else {
                    let sl = spec_transform(pool, l as int, frames, cur, arena, fuel);
                    match sl.res {
                        Err(_) => sl,
                        Ok(ol) => match value_of(sl.arena, ol) {
                            Some(ValueM::NumV(a)) => {
                                let sr = spec_transform(pool, r as int, sl.frames, cur, sl.arena,
                                    fuel);
                                match sr.res {
                                    Err(_) => sr,
                                    Ok(or) => match value_of(sr.arena, or) {
                                        Some(ValueM::NumV(b)) => match spec_arith(op, a, b) {
                                            Ok(n) => StepRes {
                                                frames: sr.frames,
                                                arena: sr.arena.push(
                                                    NodeM::ValueN(ValueM::NumV(n)),
                                                ),
                                                res: Ok(Some(sr.arena.len() as int)),
                                            },
                                            Err(e) => StepRes {
                                                frames: sr.frames,
                                                arena: sr.arena,
                                                res: Err(e),
                                            },
                                        },
                                        _ => StepRes {
                                            frames: sr.frames,
                                            arena: sr.arena,
                                            res: Err(ErrM::TypeMismatchM(
                                                "Number"@,
                                                result_kind(sr.arena, or),
                                                origin_name(pool, r as int),
                                            )),
                                        },
                                    },
                                }
                            },
                            _ => StepRes {
                                frames: sl.frames,
                                arena: sl.arena,
                                res: Err(ErrM::TypeMismatchM(
                                    "Number"@,
                                    result_kind(sl.arena, ol),
                                    origin_name(pool, l as int),
                                )),
                            },
                        },
                    }
                }
            },
            Expression::Block(cs) => {
                let sl = spec_transform_list(pool, cs@.map_values(|c: usize| c as int), id,
                    frames, cur, arena, fuel);
                match sl.res {
                    Ok(ids) => StepRes {
                        frames: sl.frames,
                        arena: sl.arena.push(NodeM::BlockN(ids)),
                        res: Ok(Some(sl.arena.len() as int)),
                    },
                    Err(e) => StepRes { frames: sl.frames, arena: sl.arena, res: Err(e) },
                }
            },
            Expression::MixinCall(name, args) => {
                if fuel == 0 {
                    StepRes { frames, arena, res: Err(ErrM::MixinRecursionLimitM) }
                } else {
                    match spec_lookup_mixin(frames, cur, name@) {
                        None => StepRes { frames, arena, res: Err(ErrM::UnknownMixinM(name@)) },
                        Some(m) => if m.params.len() != args@.len() {
                            StepRes {
                                frames,
                                arena,
                                res: Err(ErrM::ArityMismatchM(
                                    name@,
                                    m.params.len() as int,
                                    args@.len() as int,
                                )),
                            }
                        } else {
                            let sa = spec_transform_args(pool,
                                args@.map_values(|c: usize| c as int), id, frames, cur, arena,
                                fuel, name@);
                            match sa.res {
                                Err(e) => StepRes {
                                    frames: sa.frames,
                                    arena: sa.arena,
                                    res: Err(e),
                                },
                                Ok(vals) => {
                                    let child = sa.frames.len() as int;
                                    let frames2 = sa.frames.push(
                                        FrameM {
                                            vars: bind_params(m.params, vals),
                                            mixins: Map::empty(),
                                            parent: Some(cur),
                                        },
                                    );
                                    let sb = spec_transform_list(pool, m.body,
                                        pool.len() as int, frames2, child, sa.arena,
                                        (fuel - 1) as nat);
                                    match sb.res {
                                        Ok(ids) => StepRes {
                                            frames: sb.frames,
                                            arena: sb.arena.push(NodeM::BlockN(ids)),
                                            res: Ok(Some(sb.arena.len() as int)),
                                        },
                                        Err(e) => StepRes {
                                            frames: sb.frames,
                                            arena: sb.arena,
                                            res: Err(e),
                                        },
                                    }
                                },
                            }
                        },
                    }
                }
            },
            Expression::VarDef(name, vid) => {
                if !(vid < id) {
                    StepRes { frames, arena, res: Ok(None) }
                } else {
                    let sv = spec_transform(pool, vid as int, frames, cur, arena, fuel);
                    match sv.res {
                        Err(_) => sv,
                        Ok(o) => match value_of(sv.arena, o) {
                            Some(v) => StepRes {
                                frames: sv.frames.update(cur,
                                    FrameM {
                                        vars: sv.frames[cur].vars.insert(name@, v),
                                        ..sv.frames[cur]
                                    },
                                ),
                                arena: sv.arena,
                                res: Ok(None),
                            },
                            None => StepRes {
                                frames: sv.frames,
                                arena: sv.arena,
                                res: Err(ErrM::TypeMismatchM(
                                    "Value"@,
                                    result_kind(sv.arena, o),
                                    name@,
                                )),
                            },
                        },
                    }
                }
            },
            Expression::MixinDef(name, params, body) => StepRes {
                frames: frames.update(cur,
                    FrameM {
                        mixins: frames[cur].mixins.insert(name@,
                            MixinM {
                                params: params@.map_values(|p: String| p@),
                                body: body@.map_values(|b: usize| b as int),
                            },
                        ),
                        ..frames[cur]
                    },
                ),
                arena,
                res: Ok(None),
            },
        }
    }
}

/// What transforming a list of statements in order produces: the
/// handles of the produced nodes, failing fast on the first error.
pub open spec fn spec_transform_list(
    pool: Seq<Expression>,
    ids: Seq<int>,
    bound: int,
    frames: Seq<FrameM>,
    cur: int,
    arena: Seq<NodeM>,
    fuel: nat,
) -> ListRes
    decreases fuel, bound, ids.len(),
{
    if ids.len() == 0 {
        ListRes { frames, arena, res: Ok(Seq::empty()) }
    } else {
        let s0 = if 0 <= ids[0] < bound && bound <= pool.len() {
            spec_transform(pool, ids[0], frames, cur, arena, fuel)
        } else {
            StepRes { frames, arena, res: Ok(None) }
        };
        match s0.res {
            Err(e) => ListRes { frames: s0.frames, arena: s0.arena, res: Err(e) },
            Ok(o) => {
                let rest = spec_transform_list(pool, ids.drop_first(), bound, s0.frames, cur,
                    s0.arena, fuel);
                match rest.res {
                    Err(_) => rest,
                    Ok(tail) => ListRes {
                        frames: rest.frames,
                        arena: rest.arena,
                        res: Ok(
                            match o {
                                Some(n) => seq![n] + tail,
                                None => tail,
                            },
                        ),
                    },
                }
            },
        }
    }
}

/// What resolving mixin arguments produces: each argument must resolve
/// to a value; `mname` is the mixin name carried into diagnostics.
pub open spec fn spec_transform_args(
    pool: Seq<Expression>,
    ids: Seq<int>,
    bound: int,
    frames: Seq<FrameM>,
    cur: int,
    arena: Seq<NodeM>,
    fuel: nat,
    mname: Seq<char>,
) -> ArgsRes
    decreases fuel, bound, ids.len(),
{
    if ids.len() == 0 {
        ArgsRes { frames, arena, res: Ok(Seq::empty()) }
    } else {
        let s0 = if 0 <= ids[0] < bound && bound <= pool.len() {
            spec_transform(pool, ids[0], frames, cur, arena, fuel)
        } else {
            StepRes { frames, arena, res: Ok(None) }
        };
        match s0.res {
            Err(e) => ArgsRes { frames: s0.frames, arena: s0.arena, res: Err(e) },
            Ok(o) => match value_of(s0.arena, o) {
                Some(v) => {
                    let rest = spec_transform_args(pool, ids.drop_first(), bound, s0.frames,
                        cur, s0.arena, fuel, mname);
                    match rest.res {
                        Err(_) => rest,
                        Ok(tail) => ArgsRes {
                            frames: rest.frames,
                            arena: rest.arena,
                            res: Ok(seq![v] + tail),
                        },
                    }
                },
                None => ArgsRes {
                    frames: s0.frames,
                    arena: s0.arena,
                    res: Err(ErrM::TypeMismatchM("Value"@, result_kind(s0.arena, o), mname)),
                },
            },
        }
    }
}

/// Pushing a frame with no mixins preserves body well-formedness.
proof fn lemma_bodies_wf_push(frames: Seq<FrameM>, f: FrameM, plen: int)
    requires
        bodies_wf(frames, plen),
        f.mixins == Map::<Seq<char>, MixinM>::empty(),
    ensures
        bodies_wf(frames.push(f), plen),
{
    assert forall|i: int, name: Seq<char>|
        0 <= i < frames.push(f).len() && #[trigger] frames.push(f)[i].mixins.contains_key(name)
            implies ids_in_range(frames.push(f)[i].mixins[name].body, plen) by {
        if i < frames.len() {
            assert(frames.push(f)[i] == frames[i]);
        } else {
            assert(frames.push(f)[i] == f);
        }
    }
}

/// Changing only a frame's variables preserves body well-formedness.
proof fn lemma_bodies_wf_vars(frames: Seq<FrameM>, cur: int, f: FrameM, plen: int)
    requires
        bodies_wf(frames, plen),
        0 <= cur < frames.len(),
        f.mixins == frames[cur].mixins,
    ensures
        bodies_wf(frames.update(cur, f), plen),
{
    assert forall|i: int, name: Seq<char>|
        0 <= i < frames.update(cur, f).len()
            && #[trigger] frames.update(cur, f)[i].mixins.contains_key(name)
            implies ids_in_range(frames.update(cur, f)[i].mixins[name].body, plen) by {
        if i != cur {
            assert(frames.update(cur, f)[i] == frames[i]);
        } else {
            assert(frames.update(cur, f)[i].mixins == frames[cur].mixins);
            assert(frames[cur].mixins.contains_key(name));
        }
    }
}

/// Recording one more in-range template preserves body well-formedness.
proof fn lemma_bodies_wf_mixin(frames: Seq<FrameM>, cur: int, f: FrameM, mname: Seq<char>, m: MixinM, plen: int)
    requires
        bodies_wf(frames, plen),
        0 <= cur < frames.len(),
        f.mixins == frames[cur].mixins.insert(mname, m),
        ids_in_range(m.body, plen),
    ensures
        bodies_wf(frames.update(cur, f), plen),
{
    assert forall|i: int, name: Seq<char>|
        0 <= i < frames.update(cur, f).len()
            && #[trigger] frames.update(cur, f)[i].mixins.contains_key(name)
            implies ids_in_range(frames.update(cur, f)[i].mixins[name].body, plen) by {
        if i != cur {
            assert(frames.update(cur, f)[i] == frames[i]);
        } else {
            if name == mname {
                assert(frames.update(cur, f)[i].mixins[name] == m);
            } else {
                assert(frames.update(cur, f)[i].mixins[name] == frames[cur].mixins[name]);
                assert(frames[cur].mixins.contains_key(name));
            }
        }
    }
}

/// The identifier a diagnostic points at for the operand `cid`.
fn origin_of(pool: &ExprArena, cid: usize) -> (r: String)
    requires
        cid < pool@.len(),
    ensures
        r@ == origin_name(pool@, cid as int),
{
    match pool.get(cid) {
        Expression::Var(n) => n.clone(),
        Expression::StrExpr(StringBox::Var(n)) => n.clone(),
        _ => String::new(),
    }
}

/// One arithmetic operation on two numbers, by checked machine
/// arithmetic; exactly what `spec_arith` says.
fn eval_arith(op: &BinOp, a: i64, b: i64) -> (r: Result<i64, TransformErr>)
    ensures
        (match r {
            Ok(n) => spec_arith(*op, a as int, b as int) == Ok::<int, ErrM>(n as int),
            Err(e) => spec_arith(*op, a as int, b as int) == Err::<int, ErrM>(e@),
        }),
{
    match op {
        BinOp::Add => match a.checked_add(b) {
            Some(n) => Ok(n),
            None => Err(TransformErr::ArithmeticError(ArithKind::Overflow)),
        },
        BinOp::Sub => match a.checked_sub(b) {
            Some(n) => Ok(n),
            None => Err(TransformErr::ArithmeticError(ArithKind::Overflow)),
        },
        BinOp::Mul => match a.checked_mul(b) {
            Some(n) => Ok(n),
            None => Err(TransformErr::ArithmeticError(ArithKind::Overflow)),
        },
        BinOp::Div => {
            if b == 0 {
                Err(TransformErr::ArithmeticError(ArithKind::DivByZero))
            } else {
                match a.checked_div(b) {
                    Some(n) => Ok(n),
                    None => Err(TransformErr::ArithmeticError(ArithKind::Overflow)),
                }
            }
        },
        BinOp::Mod => {
            if b == 0 {
                Err(TransformErr::ArithmeticError(ArithKind::ModByZero))
            } else {
                match a.checked_rem(b) {
                    Some(n) => Ok(n),
                    None => {
                        proof {
                            assert(a == i64::MIN && b == -1) by {
                                let x = a as int;
                                let d = b as int;
                                if !(a == i64::MIN && b == -1) {
                                    assert(trunc_rem(x, d) <= i64::MAX
                                        && trunc_rem(x, d) >= i64::MIN) by (nonlinear_arith)
                                        requires d != 0, i64::MIN <= x <= i64::MAX,
                                            i64::MIN <= d <= i64::MAX;
                                }
                            }
                        }
                        Err(TransformErr::ArithmeticError(ArithKind::Overflow))
                    },
                }
            }
        },
    }
}

impl StringBox {
    /// Resolve this string-typed slot against the scope chain and
    /// allocate the resulting string value into the arena; a variable
    /// of any other type is a strict type error.
    pub fn transform(&self, scopes: &ScopeArena, cur: usize, arena: &mut TransformedArena) -> (r:
        Result<usize, TransformErr>)
        requires
            scopes.wf(),
            cur < scopes@.len(),
            old(arena).wf(),
        ensures
            final(arena).wf(),
            final(arena)@.len() >= old(arena)@.len(),
            ({
                let sr = spec_str_transform(*self, scopes@, cur as int, old(arena)@);
                &&& final(arena)@ == sr.arena
                &&& (match r {
                    Ok(n) => sr.res == Ok::<int, ErrM>(n as int) && n < final(arena)@.len(),
                    Err(e) => sr.res == Err::<int, ErrM>(e@),
                })
            }),
    {
        match self {
            StringBox::Var(identifier) => {
                if let Some(value) = scopes.var(cur, identifier) {
                    match value {
                        ExpressionValue::Str(s) => Ok(arena.append(
                            TransformedNode::Value(ExpressionValue::Str(s)),
                        )),
                        val => Err(TransformErr::TypeMismatch("String", val.kind_name(),
                            identifier.clone())),
                    }
                } else {
                    Err(TransformErr::MissingVarRef(identifier.clone()))
                }
            },
            StringBox::Value(val) => Ok(arena.append(
                TransformedNode::Value(ExpressionValue::Str(val.clone())),
            )),
        }
    }
}

/// Transform the expression `id` against frame `cur`, allocating the
/// resolved result into the arena.  Returns the new node's handle,
/// `None` for a definition, or the first error.  The outcome is
/// exactly `spec_transform` of the starting state.
pub fn transform(
    pool: &ExprArena,
    id: usize,
    scopes: &mut ScopeArena,
    cur: usize,
    arena: &mut TransformedArena,
    fuel: u64,
) -> (r: Result<Option<usize>, TransformErr>)
    requires
        pool.wf(),
        id < pool@.len(),
        old(scopes).wf(),
        cur < old(scopes)@.len(),
        old(arena).wf(),
        bodies_wf(old(scopes)@, pool@.len() as int),
    ensures
        final(scopes).wf(),
        final(arena).wf(),
        final(scopes)@.len() >= old(scopes)@.len(),
        final(arena)@.len() >= old(arena)@.len(),
        bodies_wf(final(scopes)@, pool@.len() as int),
        (match r {
            Ok(Some(nid)) => nid < final(arena)@.len(),
            _ => true,
        }),
        ({
            let step = spec_transform(pool@, id as int, old(scopes)@, cur as int, old(arena)@,
                fuel as nat);
            &&& final(scopes)@ == step.frames
            &&& final(arena)@ == step.arena
            &&& res_model(r) == step.res
        }),
    decreases fuel, id, tmeasure(pool@, id as int),
{
    proof {
        assert(expr_wf(pool@[id as int], id as int));
    }
    let node = pool.get(id);
    match node {
        Expression::Lit(v) => {
            let nid = arena.append(TransformedNode::Value(v.duplicate()));
            Ok(Some(nid))
        },
        Expression::Var(name) => {
            match scopes.var(cur, name) {
                Some(v) => {
                    let nid = arena.append(TransformedNode::Value(v));
                    Ok(Some(nid))
                },
                None => Err(TransformErr::MissingVarRef(name.clone())),
            }
        },
        Expression::StrExpr(sb) => {
            match sb.transform(scopes, cur, arena) {
                Ok(nid) => Ok(Some(nid)),
                Err(e) => Err(e),
            }
        },
        Expression::BinaryOp(op, l, r) => {
            let lr = transform(pool, *l, scopes, cur, arena, fuel);
            let a: i64 = match lr {
                Err(e) => {
                    return Err(e);
                },
                Ok(None) => {
                    return Err(TransformErr::TypeMismatch("Number", "Nothing",
                        origin_of(pool, *l)));
                },
                Ok(Some(nid)) => {
                    match arena.get(nid) {
                        TransformedNode::Value(v) => match v {
                            ExpressionValue::Num(n) => *n,
                            other => {
                                return Err(TransformErr::TypeMismatch("Number",
                                    other.kind_name(), origin_of(pool, *l)));
                            },
                        },
                        TransformedNode::Block(_) => {
                            return Err(TransformErr::TypeMismatch("Number", "Block",
                                origin_of(pool, *l)));
                        },
                    }
                },
            };
            let rr = transform(pool, *r, scopes, cur, arena, fuel);
            let b: i64 = match rr {
                Err(e) => {
                    return Err(e);
                },
                Ok(None) => {
                    return Err(TransformErr::TypeMismatch("Number", "Nothing",
                        origin_of(pool, *r)));
                },
                Ok(Some(nid)) => {
                    match arena.get(nid) {
                        TransformedNode::Value(v) => match v {
                            ExpressionValue::Num(n) => *n,
                            other => {
                                return Err(TransformErr::TypeMismatch("Number",
                                    other.kind_name(), origin_of(pool, *r)));
                            },
                        },
                        TransformedNode::Block(_) => {
                            return Err(TransformErr::TypeMismatch("Number", "Block",
                                origin_of(pool, *r)));
                        },
                    }
                },
            };
            match eval_arith(op, a, b) {
                Ok(n) => {
                    let nid = arena.append(TransformedNode::Value(ExpressionValue::Num(n)));
                    Ok(Some(nid))
                },
                Err(e) => Err(e),
            }
        },
        Expression::Block(cs) => {
            match transform_list(pool, cs, scopes, cur, arena, fuel, Ghost(id as int)) {
                Ok(v) => {
                    proof {
                        assert(node_wf(TransformedNode::Block(v)@, arena@.len() as int));
                    }
                    let nid = arena.append(TransformedNode::Block(v));
                    Ok(Some(nid))
                },
                Err(e) => Err(e),
            }
        },
        Expression::MixinCall(name, args) => {
            if fuel == 0 {
                return Err(TransformErr::MixinRecursionLimit);
            }
            let md = match scopes.mixin(cur, name) {
                Some(m) => m.duplicate(),
                None => {
                    return Err(TransformErr::UnknownMixin(name.clone()));
                },
            };
            let ghost m = spec_lookup_mixin(old(scopes)@, cur as int, name@)->Some_0;
            proof {
                assert(md@ == m);
                lemma_lookup_mixin_bodies(old(scopes)@, cur as int, name@, pool@.len() as int, m);
            }
            if md.params.len() != args.len() {
                return Err(TransformErr::ArityMismatch(name.clone(), md.params.len(),
                    args.len()));
            }
            let vals = match transform_args(pool, args, scopes, cur, arena, fuel,
                Ghost(id as int), name) {
                Ok(v) => v,
                Err(e) => {
                    return Err(e);
                },
            };
            let ghost sa_frames = scopes@;
            let ghost valsm = vals@.map_values(|x: ExpressionValue| x@);
            let child = scopes.new_child(cur);
            proof {
                lemma_bodies_wf_push(sa_frames,
                    (FrameM { vars: Map::empty(), mixins: Map::empty(), parent: Some(cur as int) }),
                    pool@.len() as int);
                assert(bind_params(m.params.subrange(0, 0), valsm.subrange(0, 0))
                    =~= Map::<Seq<char>, ValueM>::empty());
                assert(scopes@ =~= sa_frames.push(
                    (FrameM {
                        vars: bind_params(m.params.subrange(0, 0), valsm.subrange(0, 0)),
                        mixins: Map::empty(),
                        parent: Some(cur as int),
                    }),
                ));
            }
            let mut i: usize = 0;
            while i < md.params.len()
                invariant
                    scopes.wf(),
                    bodies_wf(scopes@, pool@.len() as int),
                    i <= md.params@.len(),
                    child == sa_frames.len(),
                    child < scopes@.len(),
                    scopes@.len() == sa_frames.len() + 1,
                    md@ == m,
                    m.params.len() == md.params@.len(),
                    valsm.len() == md.params@.len(),
                    scopes@ =~= sa_frames.push(
                        (FrameM {
                            vars: bind_params(m.params.subrange(0, i as int),
                                valsm.subrange(0, i as int)),
                            mixins: Map::empty(),
                            parent: Some(cur as int),
                        }),
                    ),
                    vals@.map_values(|x: ExpressionValue| x@) == valsm,
                    vals@.len() == valsm.len(),
                decreases md.params@.len() - i,
            {
                let ghost pre = scopes@;
                scopes.define(child, md.params[i].clone(), vals[i].duplicate());
                proof {
                    assert(m.params.subrange(0, i + 1 as int).drop_last()
                        =~= m.params.subrange(0, i as int));
                    assert(valsm.subrange(0, i + 1 as int).drop_last()
                        =~= valsm.subrange(0, i as int));
                    assert(m.params.subrange(0, i + 1 as int).last() == m.params[i as int]);
                    assert(valsm.subrange(0, i + 1 as int).last() == valsm[i as int]);
                    assert(md.params@[i as int]@ == m.params[i as int]);
                    assert(vals@[i as int]@ == valsm[i as int]);
                    lemma_bodies_wf_vars(pre, child as int,
                        (FrameM {
                            vars: pre[child as int].vars.insert(md.params@[i as int]@,
                                vals@[i as int]@),
                            ..pre[child as int]
                        }), pool@.len() as int);
                    assert(scopes@ =~= sa_frames.push(
                        (FrameM {
                            vars: bind_params(m.params.subrange(0, i + 1 as int),
                                valsm.subrange(0, i + 1 as int)),
                            mixins: Map::empty(),
                            parent: Some(cur as int),
                        }),
                    ));
                }
                i = i + 1;
            }
            proof {
                assert(m.params.subrange(0, m.params.len() as int) =~= m.params);
                assert(valsm.subrange(0, valsm.len() as int) =~= valsm);
                assert forall|k2: int| 0 <= k2 < md.body@.len()
                    implies (#[trigger] md.body@[k2]) < pool@.len() as int by {
                    assert(m.body[k2] == md.body@[k2] as int);
                    assert(0 <= m.body[k2] < pool@.len() as int);
                }
            }
            let rids = match transform_list(pool, &md.body, scopes, child, arena, fuel - 1,
                Ghost(pool@.len() as int)) {
                Ok(v) => v,
                Err(e) => {
                    return Err(e);
                },
            };
            proof {
                assert(node_wf(TransformedNode::Block(rids)@, arena@.len() as int));
            }
            let nid = arena.append(TransformedNode::Block(rids));
            Ok(Some(nid))
        },
        Expression::VarDef(name, vid) => {
            match transform(pool, *vid, scopes, cur, arena, fuel) {
                Err(e) => Err(e),
                Ok(None) => Err(TransformErr::TypeMismatch("Value", "Nothing", name.clone())),
                Ok(Some(nid)) => {
                    match arena.get(nid) {
                        TransformedNode::Value(v) => {
                            let vv = v.duplicate();
                            let ghost pre = scopes@;
                            scopes.define(cur, name.clone(), vv);
                            proof {
                                lemma_bodies_wf_vars(pre, cur as int,
                                    (FrameM {
                                        vars: pre[cur as int].vars.insert(name@, vv@),
                                        ..pre[cur as int]
                                    }), pool@.len() as int);
                            }
                            Ok(None)
                        },
                        TransformedNode::Block(_) => Err(TransformErr::TypeMismatch("Value",
                            "Block", name.clone())),
                    }
                },
            }
        },
        Expression::MixinDef(name, params, body) => {
            let entry = MixinEntry {
                name: name.clone(),
                params: crate::scope::dup_strings(params),
                body: crate::scope::dup_ids(body),
            };
            let ghost pre = scopes@;
            let ghost entrym = entry@;
            scopes.define_mixin(cur, entry);
            proof {
                assert(ids_in_range(entrym.body, pool@.len() as int));
                lemma_bodies_wf_mixin(pre, cur as int,
                    (FrameM {
                        mixins: pre[cur as int].mixins.insert(name@, entrym),
                        ..pre[cur as int]
                    }), name@, entrym, pool@.len() as int);
            }
            Ok(None)
        },
    }
}

/// Transform a list of statements in order against frame `cur`,
/// collecting the handles of the produced nodes and failing fast.
fn transform_list(
    pool: &ExprArena,
    ids: &Vec<usize>,
    scopes: &mut ScopeArena,
    cur: usize,
    arena: &mut TransformedArena,
    fuel: u64,
    Ghost(bound): Ghost<int>,
) -> (r: Result<Vec<usize>, TransformErr>)
    requires
        pool.wf(),
        old(scopes).wf(),
        cur < old(scopes)@.len(),
        old(arena).wf(),
        bodies_wf(old(scopes)@, pool@.len() as int),
        0 <= bound <= pool@.len(),
        forall|k: int| 0 <= k < ids@.len() ==> (#[trigger] ids@[k]) < bound,
    ensures
        final(scopes).wf(),
        final(arena).wf(),
        final(scopes)@.len() >= old(scopes)@.len(),
        final(arena)@.len() >= old(arena)@.len(),
        bodies_wf(final(scopes)@, pool@.len() as int),
        ({
            let full = spec_transform_list(pool@, ids@.map_values(|u: usize| u as int), bound,
                old(scopes)@, cur as int, old(arena)@, fuel as nat);
            &&& final(scopes)@ == full.frames
            &&& final(arena)@ == full.arena
            &&& (match r {
                Ok(v) => full.res == Ok::<Seq<int>, ErrM>(v@.map_values(|u: usize| u as int))
                    && (forall|k: int| 0 <= k < v@.len()
                        ==> (#[trigger] v@[k]) < final(arena)@.len()),
                Err(e) => full.res == Err::<Seq<int>, ErrM>(e@),
            })
        }),
    decreases fuel, bound, ids@.len(),
{
    let ghost idsm = ids@.map_values(|u: usize| u as int);
    let ghost full = spec_transform_list(pool@, idsm, bound, old(scopes)@, cur as int,
        old(arena)@, fuel as nat);
    let mut acc: Vec<usize> = Vec::new();
    let mut k: usize = 0;
    proof {
        assert(idsm.skip(0) =~= idsm);
        assert(acc@.map_values(|u: usize| u as int) =~= Seq::<int>::empty());
        assert(Seq::<int>::empty() + idsm =~= idsm);
    }
    while k < ids.len()
        invariant
            pool.wf(),
            scopes.wf(),
            arena.wf(),
            cur < scopes@.len(),
            scopes@.len() >= old(scopes)@.len(),
            arena@.len() >= old(arena)@.len(),
            bodies_wf(scopes@, pool@.len() as int),
            0 <= bound <= pool@.len(),
            forall|j: int| 0 <= j < ids@.len() ==> (#[trigger] ids@[j]) < bound,
            k <= ids@.len(),
            idsm == ids@.map_values(|u: usize| u as int),
            idsm.len() == ids@.len(),
            full == spec_transform_list(pool@, idsm, bound, old(scopes)@, cur as int,
                old(arena)@, fuel as nat),
            forall|j: int| 0 <= j < acc@.len() ==> (#[trigger] acc@[j]) < arena@.len(),
            ({
                let rest = spec_transform_list(pool@, idsm.skip(k as int), bound, scopes@,
                    cur as int, arena@, fuel as nat);
                &&& full.frames == rest.frames
                &&& full.arena == rest.arena
                &&& full.res == (match rest.res {
                    Ok(tail) => Ok::<Seq<int>, ErrM>(
                        acc@.map_values(|u: usize| u as int) + tail,
                    ),
                    Err(e) => Err::<Seq<int>, ErrM>(e),
                })
            }),
        decreases ids@.len() - k,
    {
        let ghost rest = spec_transform_list(pool@, idsm.skip(k as int), bound, scopes@,
            cur as int, arena@, fuel as nat);
        let c = ids[k];
        proof {
            assert(idsm.skip(k as int)[0] == idsm[k as int]);
            assert(idsm[k as int] == c as int);
            assert(idsm.skip(k as int).drop_first() =~= idsm.skip(k + 1 as int));
        }
        match transform(pool, c, scopes, cur, arena, fuel) {
            Ok(o) => {
                proof {
                    assert(full.frames == spec_transform_list(pool@, idsm.skip(k + 1 as int),
                        bound, scopes@, cur as int, arena@, fuel as nat).frames);
                }
                match o {
                    Some(nid) => {
                        let ghost accm = acc@.map_values(|u: usize| u as int);
                        acc.push(nid);
                        proof {
                            assert(acc@.map_values(|u: usize| u as int)
                                =~= accm.push(nid as int));
                            let rest2 = spec_transform_list(pool@, idsm.skip(k + 1 as int),
                                bound, scopes@, cur as int, arena@, fuel as nat);
                            if rest2.res is Ok {
                                let tail2 = rest2.res->Ok_0;
                                assert(accm + (seq![nid as int] + tail2)
                                    =~= accm.push(nid as int) + tail2);
                            }
                        }
                    },
                    None => {},
                }
            },
            Err(e) => {
                return Err(e);
            },
        }
        k = k + 1;
    }
    proof {
        assert(idsm.skip(idsm.len() as int) =~= Seq::<int>::empty());
        assert(acc@.map_values(|u: usize| u as int) + Seq::<int>::empty()
            =~= acc@.map_values(|u: usize| u as int));
    }
    Ok(acc)
}

/// Resolve mixin arguments in order to values, failing fast; `mname`
/// is the mixin name carried into diagnostics.
fn transform_args(
    pool: &ExprArena,
    ids: &Vec<usize>,
    scopes: &mut ScopeArena,
    cur: usize,
    arena: &mut TransformedArena,
    fuel: u64,
    Ghost(bound): Ghost<int>,
    mname: &String,
) -> (r: Result<Vec<ExpressionValue>, TransformErr>)
    requires
        pool.wf(),
        old(scopes).wf(),
        cur < old(scopes)@.len(),
        old(arena).wf(),
        bodies_wf(old(scopes)@, pool@.len() as int),
        0 <= bound <= pool@.len(),
        forall|k: int| 0 <= k < ids@.len() ==> (#[trigger] ids@[k]) < bound,
    ensures
        final(scopes).wf(),
        final(arena).wf(),
        final(scopes)@.len() >= old(scopes)@.len(),
        final(arena)@.len() >= old(arena)@.len(),
        bodies_wf(final(scopes)@, pool@.len() as int),
        ({
            let full = spec_transform_args(pool@, ids@.map_values(|u: usize| u as int), bound,
                old(scopes)@, cur as int, old(arena)@, fuel as nat, mname@);
            &&& final(scopes)@ == full.frames
            &&& final(arena)@ == full.arena
            &&& (match r {
                Ok(v) => full.res == Ok::<Seq<ValueM>, ErrM>(
                    v@.map_values(|x: ExpressionValue| x@),
                ) && v@.len() == ids@.len(),
                Err(e) => full.res == Err::<Seq<ValueM>, ErrM>(e@),
            })
        }),
    decreases fuel, bound, ids@.len(),
{
    let ghost idsm = ids@.map_values(|u: usize| u as int);
    let ghost full = spec_transform_args(pool@, idsm, bound, old(scopes)@, cur as int,
        old(arena)@, fuel as nat, mname@);
    let mut acc: Vec<ExpressionValue> = Vec::new();
    let mut k: usize = 0;
    proof {
        assert(idsm.skip(0) =~= idsm);
        assert(acc@.map_values(|x: ExpressionValue| x@) =~= Seq::<ValueM>::empty());
    }
    while k < ids.len()
        invariant
            pool.wf(),
            scopes.wf(),
            arena.wf(),
            cur < scopes@.len(),
            scopes@.len() >= old(scopes)@.len(),
            arena@.len() >= old(arena)@.len(),
            bodies_wf(scopes@, pool@.len() as int),
            0 <= bound <= pool@.len(),
            forall|j: int| 0 <= j < ids@.len() ==> (#[trigger] ids@[j]) < bound,
            k <= ids@.len(),
            acc@.len() == k,
            idsm == ids@.map_values(|u: usize| u as int),
            idsm.len() == ids@.len(),
            full == spec_transform_args(pool@, idsm, bound, old(scopes)@, cur as int,
                old(arena)@, fuel as nat, mname@),
            ({
                let rest = spec_transform_args(pool@, idsm.skip(k as int), bound, scopes@,
                    cur as int, arena@, fuel as nat, mname@);
                &&& full.frames == rest.frames
                &&& full.arena == rest.arena
                &&& full.res == (match rest.res {
                    Ok(tail) => Ok::<Seq<ValueM>, ErrM>(
                        acc@.map_values(|x: ExpressionValue| x@) + tail,
                    ),
                    Err(e) => Err::<Seq<ValueM>, ErrM>(e),
                })
            }),
        decreases ids@.len() - k,
    {
        let c = ids[k];
        proof {
            assert(idsm.skip(k as int)[0] == idsm[k as int]);
            assert(idsm[k as int] == c as int);
            assert(idsm.skip(k as int).drop_first() =~= idsm.skip(k + 1 as int));
        }
        match transform(pool, c, scopes, cur, arena, fuel) {
            Err(e) => {
                return Err(e);
            },
            Ok(None) => {
                return Err(TransformErr::TypeMismatch("Value", "Nothing", mname.clone()));
            },
            Ok(Some(nid)) => {
                match arena.get(nid) {
                    TransformedNode::Value(v) => {
                        let ghost accm = acc@.map_values(|x: ExpressionValue| x@);
                        let vv = v.duplicate();
                        acc.push(vv);
                        proof {
                            assert(acc@.map_values(|x: ExpressionValue| x@)
                                =~= accm.push(vv@));
                            let rest2 = spec_transform_args(pool@, idsm.skip(k + 1 as int),
                                bound, scopes@, cur as int, arena@, fuel as nat, mname@);
                            if rest2.res is Ok {
                                let tail2 = rest2.res->Ok_0;
                                assert(accm + (seq![vv@] + tail2) =~= accm.push(vv@) + tail2);
                            }
                        }
                    },
                    TransformedNode::Block(_) => {
                        return Err(TransformErr::TypeMismatch("Value", "Block",
                            mname.clone()));
                    },
                }
            },
        }
        k = k + 1;
    }
    proof {
        assert(idsm.skip(idsm.len() as int) =~= Seq::<int>::empty());
        assert(acc@.map_values(|x: ExpressionValue| x@) + Seq::<ValueM>::empty()
            =~= acc@.map_values(|x: ExpressionValue| x@));
    }
    Ok(acc)
}



/// Bound on nested mixin expansion; exceeding it is an error rather
/// than a stack overflow.
pub const MIXIN_RECURSION_LIMIT: u64 = 64;

/// The scope chain a compilation starts from: one root frame with no
/// bindings.
pub open spec fn root_frames() -> Seq<FrameM> {
    seq![(FrameM { vars: Map::empty(), mixins: Map::empty(), parent: None })]
}

/// Drive one compilation of an already-parsed tree: build the root
/// scope, transform the root expression into a fresh arena, and render
/// the resolved tree under the configuration.  Fail-fast: the first
/// transform error is returned and nothing is rendered.
pub fn compile_tree(pool: &ExprArena, root: usize, config: &RenderConfig) -> (r: Result<
    String,
    TransformErr,
>)
    requires
        pool.wf(),
        root < pool@.len(),
    ensures
        ({
            let step = spec_transform(pool@, root as int, root_frames(), 0, Seq::<NodeM>::empty(),
                MIXIN_RECURSION_LIMIT as nat);
            match r {
                Ok(text) => step.res is Ok && text@ == (match step.res {
                    Ok(Some(nid)) => spec_render(step.arena, nid, config@),
                    _ => Seq::<char>::empty(),
                }),
                Err(e) => step.res == Err::<Option<int>, ErrM>(e@),
            }
        }),
{
    let mut scopes = ScopeArena::new();
    let rootscope = scopes.new_root();
    proof {
        assert(scopes@ =~= root_frames());
    }
    let mut arena = TransformedArena::new();
    match transform(pool, root, &mut scopes, rootscope, &mut arena, MIXIN_RECURSION_LIMIT) {
        Ok(Some(nid)) => Ok(render(&arena, nid, config)),
        Ok(None) => Ok(String::new()),
        Err(e) => Err(e),
    }
}

/// Referencing an identifier that no enclosing scope defines always
/// fails with `MissingVarRef` carrying that identifier's exact name.
pub proof fn lemma_missing_var_ref(
    pool: Seq<Expression>,
    id: int,
    frames: Seq<FrameM>,
    cur: int,
    arena: Seq<NodeM>,
    fuel: nat,
    name: Seq<char>,
)
    requires
        0 <= id < pool.len(),
        0 <= cur < frames.len(),
        pool[id] is Var,
        pool[id]->Var_0@ == name,
        spec_lookup(frames, cur, name) is None,
    ensures
        spec_transform(pool, id, frames, cur, arena, fuel).res
            == Err::<Option<int>, ErrM>(ErrM::MissingVarRefM(name)),
        spec_transform(pool, id, frames, cur, arena, fuel).frames == frames,
        spec_transform(pool, id, frames, cur, arena, fuel).arena == arena,
{
}

/// Using a string-typed variable where a number is required fails with
/// `TypeMismatch("Number", "String", identifier)`, expected before
/// actual, carrying the identifier's exact name.
pub proof fn lemma_number_type_mismatch(
    pool: Seq<Expression>,
    id: int,
    frames: Seq<FrameM>,
    cur: int,
    arena: Seq<NodeM>,
    fuel: nat,
    op: BinOp,
    l: usize,
    r: usize,
    name: Seq<char>,
    text: Seq<char>,
)
    requires
        0 <= id < pool.len(),
        0 <= cur < frames.len(),
        pool[id] == Expression::BinaryOp(op, l, r),
        l < id && r < id,
        pool[l as int] is Var,
        pool[l as int]->Var_0@ == name,
        spec_lookup(frames, cur, name) == Some(ValueM::StrV(text)),
    ensures
        spec_transform(pool, id, frames, cur, arena, fuel).res
            == Err::<Option<int>, ErrM>(ErrM::TypeMismatchM("Number"@, "String"@, name)),
{
    let sl = spec_transform(pool, l as int, frames, cur, arena, fuel);
    assert(sl.arena == arena.push(NodeM::ValueN(ValueM::StrV(text))));
    assert(value_of(sl.arena, Some(arena.len() as int)) == Some(ValueM::StrV(text)));
}

/// Invoking an undeclared mixin name fails with `UnknownMixin`, and a
/// wrong argument count fails with `ArityMismatch` carrying the
/// declared and the supplied counts.
pub proof fn lemma_mixin_invocation_errors(
    pool: Seq<Expression>,
    id: int,
    frames: Seq<FrameM>,
    cur: int,
    arena: Seq<NodeM>,
    fuel: nat,
    name: Seq<char>,
    args: Seq<usize>,
)
    requires
        0 <= id < pool.len(),
        0 <= cur < frames.len(),
        fuel > 0,
        pool[id] is MixinCall,
        pool[id]->MixinCall_0@ == name,
        pool[id]->MixinCall_1@ == args,
    ensures
        spec_lookup_mixin(frames, cur, name) is None
            ==> spec_transform(pool, id, frames, cur, arena, fuel).res
                == Err::<Option<int>, ErrM>(ErrM::UnknownMixinM(name)),
        (spec_lookup_mixin(frames, cur, name) matches Some(m)
            && m.params.len() != args.len())
            ==> spec_transform(pool, id, frames, cur, arena, fuel).res
                == Err::<Option<int>, ErrM>(ErrM::ArityMismatchM(
                    name,
                    spec_lookup_mixin(frames, cur, name)->Some_0.params.len() as int,
                    args.len() as int,
                )),
{
}

/// Division by a zero denominator in an arithmetic expression fails
/// with `ArithmeticError`; no out-of-range or undefined number is ever
/// produced.
pub proof fn lemma_division_by_zero(
    pool: Seq<Expression>,
    id: int,
    frames: Seq<FrameM>,
    cur: int,
    arena: Seq<NodeM>,
    fuel: nat,
    l: usize,
    r: usize,
    a: int,
)
    requires
        0 <= id < pool.len(),
        0 <= cur < frames.len(),
        pool[id] == Expression::BinaryOp(BinOp::Div, l, r),
        l < id && r < id,
        pool[l as int] is Lit,
        pool[l as int]->Lit_0@ == ValueM::NumV(a),
        pool[r as int] is Lit,
        pool[r as int]->Lit_0@ == ValueM::NumV(0),
    ensures
        spec_transform(pool, id, frames, cur, arena, fuel).res
            == Err::<Option<int>, ErrM>(ErrM::ArithmeticErrorM(ArithKind::DivByZero)),
{
    let sl = spec_transform(pool, l as int, frames, cur, arena, fuel);
    assert(sl.arena == arena.push(NodeM::ValueN(ValueM::NumV(a))));
    let sr = spec_transform(pool, r as int, sl.frames, cur, sl.arena, fuel);
    assert(sr.arena == sl.arena.push(NodeM::ValueN(ValueM::NumV(0))));
    assert(spec_arith(BinOp::Div, a, 0)
        == Err::<int, ErrM>(ErrM::ArithmeticErrorM(ArithKind::DivByZero)));
}


} // verus!
