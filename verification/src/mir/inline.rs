//! Inlining constants: every access to a constant becomes the constant's
//! value.

use super::expr::{call_size, expr_size, exprs_size, inner_size, lemma_exprs_size_elems};
use super::type_check::{copy_args, copy_ty, find_const, first_index_of, names_of, typed_consts};
use super::view::{
    exprs_view, lemma_exprs_view_push, lemma_stmts_size_elems, lemma_stmts_view_index,
    lemma_stmts_view_push, stmt_size, stmts_size, stmts_view, CallV, ExprV, InnerV, SourceV, StmtV,
};
use super::{
    MIRConstant, MIRExpression, MIRExpressionInner, MIRFnCall, MIRFnSource, MIRFunction, MIRMarker,
    MIRProgram, MIRStatement, MIRType,
};
use vstd::prelude::*;
use vstd::seq::axiom_seq_len_decreases;

verus! {

/// A constant as a name and the model of its value.
pub type ConstV = (Seq<char>, ExprV);

/// The constants of a program, as names and values.
pub open spec fn const_table(s: Seq<MIRConstant>) -> Seq<ConstV> {
    s.map_values(|c: MIRConstant| (c.name@, c.value@))
}

/// The value of the (first) constant named `n`.
pub open spec fn const_value(cs: Seq<ConstV>, n: Seq<char>) -> Option<ExprV> {
    match first_index_of(cs.map_values(|c: ConstV| c.0), n) {
        Some(i) => Some(cs[i].1),
        None => None,
    }
}

// ---------------------------------------------------------------------------
// Expressions
// ---------------------------------------------------------------------------

/// An expression with every access to a constant (by a name of `cs`)
/// replaced by the constant's value, subexpressions first.
pub open spec fn inl_expr(cs: Seq<ConstV>, e: ExprV) -> ExprV
    decreases e, 1nat,
{
    match e.inner {
        InnerV::Variable(n, _) => match const_value(cs, n) {
            Some(v) => v,
            None => e,
        },
        _ => ExprV { inner: inl_inner(cs, e.inner), ..e },
    }
}

/// [`inl_expr`] on the inner part of an expression.
pub open spec fn inl_inner(cs: Seq<ConstV>, i: InnerV) -> InnerV
    decreases i, 0nat,
{
    match i {
        InnerV::Add(l, r) => InnerV::Add(Box::new(inl_expr(cs, *l)), Box::new(inl_expr(cs, *r))),
        InnerV::Sub(l, r) => InnerV::Sub(Box::new(inl_expr(cs, *l)), Box::new(inl_expr(cs, *r))),
        InnerV::Mul(l, r) => InnerV::Mul(Box::new(inl_expr(cs, *l)), Box::new(inl_expr(cs, *r))),
        InnerV::Div(l, r) => InnerV::Div(Box::new(inl_expr(cs, *l)), Box::new(inl_expr(cs, *r))),
        InnerV::Equal(l, r) => InnerV::Equal(Box::new(inl_expr(cs, *l)), Box::new(inl_expr(cs, *r))),
        InnerV::NotEqual(l, r) => InnerV::NotEqual(Box::new(inl_expr(cs, *l)), Box::new(inl_expr(cs, *r))),
        InnerV::Less(l, r) => InnerV::Less(Box::new(inl_expr(cs, *l)), Box::new(inl_expr(cs, *r))),
        InnerV::Greater(l, r) => InnerV::Greater(Box::new(inl_expr(cs, *l)), Box::new(inl_expr(cs, *r))),
        InnerV::LessEq(l, r) => InnerV::LessEq(Box::new(inl_expr(cs, *l)), Box::new(inl_expr(cs, *r))),
        InnerV::GreaterEq(l, r) => InnerV::GreaterEq(Box::new(inl_expr(cs, *l)), Box::new(inl_expr(cs, *r))),
        InnerV::BoolAnd(l, r) => InnerV::BoolAnd(Box::new(inl_expr(cs, *l)), Box::new(inl_expr(cs, *r))),
        InnerV::BoolOr(l, r) => InnerV::BoolOr(Box::new(inl_expr(cs, *l)), Box::new(inl_expr(cs, *r))),
        InnerV::Index(l, r) => InnerV::Index(Box::new(inl_expr(cs, *l)), Box::new(inl_expr(cs, *r))),
        InnerV::Ref(x) => InnerV::Ref(Box::new(inl_expr(cs, *x))),
        InnerV::Deref(x) => InnerV::Deref(Box::new(inl_expr(cs, *x))),
        InnerV::Neg(x) => InnerV::Neg(Box::new(inl_expr(cs, *x))),
        InnerV::Not(x) => InnerV::Not(Box::new(inl_expr(cs, *x))),
        InnerV::Member(x, f) => InnerV::Member(Box::new(inl_expr(cs, *x)), f),
        InnerV::Binding(l, x, r) => InnerV::Binding(l, Box::new(inl_expr(cs, *x)), r),
        InnerV::Ternary(c, t, f) => InnerV::Ternary(
            Box::new(inl_expr(cs, *c)),
            Box::new(inl_expr(cs, *t)),
            Box::new(inl_expr(cs, *f)),
        ),
        InnerV::Array(s) => InnerV::Array(inl_exprs(cs, s)),
        InnerV::FunctionCall(c) => InnerV::FunctionCall(Box::new(inl_call(cs, *c))),
        _ => i,
    }
}

/// [`inl_expr`] on each expression of a list.
pub open spec fn inl_exprs(cs: Seq<ConstV>, s: Seq<ExprV>) -> Seq<ExprV>
    decreases s, s.len(),
{
    if s.len() == 0 {
        s
    } else {
        proof {
            axiom_seq_len_decreases(s, s.drop_last());
        }
        inl_exprs(cs, s.drop_last()).push(inl_expr(cs, s.last()))
    }
}

/// [`inl_expr`] on the callee (when it is an expression) and the arguments
/// of a call.
pub open spec fn inl_call(cs: Seq<ConstV>, c: CallV) -> CallV
    decreases c, 0nat,
{
    CallV {
        source: match c.source {
            SourceV::Indirect(e) => SourceV::Indirect(inl_expr(cs, e)),
            SourceV::Direct(_, _) => c.source,
        },
        args: inl_exprs(cs, c.args),
        ..c
    }
}

/// Computes [`inl_expr`], consuming the expression.
fn inl_owned(cs: &Vec<MIRConstant>, e: MIRExpression) -> (res: MIRExpression)
    ensures
        res@ == inl_expr(const_table(cs@), e@),
    decreases expr_size(e), 2nat,
{
    let found = match &e.inner {
        MIRExpressionInner::Variable(n, _) => find_const(cs, n),
        _ => None,
    };
    proof {
        assert(names_of(typed_consts(cs@)) =~= const_table(cs@).map_values(|c: ConstV| c.0));
    }
    match found {
        Some(k) => copy_expr(&cs[k].value),
        None => {
            let is_var = match &e.inner {
                MIRExpressionInner::Variable(..) => true,
                _ => false,
            };
            if is_var {
                e
            } else {
                let MIRExpression { inner, ty, span } = e;
                MIRExpression { inner: inl_inner_exec(cs, inner), ty, span }
            }
        },
    }
}

/// Computes [`inl_expr`] of a boxed expression.
fn inl_box(cs: &Vec<MIRConstant>, x: Box<MIRExpression>) -> (res: Box<MIRExpression>)
    ensures
        (*res)@ == inl_expr(const_table(cs@), (*x)@),
    decreases expr_size(*x), 3nat,
{
    Box::new(inl_owned(cs, *x))
}

/// Computes [`inl_inner`], consuming the inner part.
#[verifier::spinoff_prover]
fn inl_inner_exec(cs: &Vec<MIRConstant>, i: MIRExpressionInner) -> (res: MIRExpressionInner)
    ensures
        res@ == inl_inner(const_table(cs@), i@),
    decreases inner_size(i), 1nat,
{
    match i {
        MIRExpressionInner::Add(l, r) => MIRExpressionInner::Add(inl_box(cs, l), inl_box(cs, r)),
        MIRExpressionInner::Sub(l, r) => MIRExpressionInner::Sub(inl_box(cs, l), inl_box(cs, r)),
        MIRExpressionInner::Mul(l, r) => MIRExpressionInner::Mul(inl_box(cs, l), inl_box(cs, r)),
        MIRExpressionInner::Div(l, r) => MIRExpressionInner::Div(inl_box(cs, l), inl_box(cs, r)),
        MIRExpressionInner::Equal(l, r) => MIRExpressionInner::Equal(inl_box(cs, l), inl_box(cs, r)),
        MIRExpressionInner::NotEqual(l, r) => MIRExpressionInner::NotEqual(inl_box(cs, l), inl_box(cs, r)),
        MIRExpressionInner::Less(l, r) => MIRExpressionInner::Less(inl_box(cs, l), inl_box(cs, r)),
        MIRExpressionInner::Greater(l, r) => MIRExpressionInner::Greater(inl_box(cs, l), inl_box(cs, r)),
        MIRExpressionInner::LessEq(l, r) => MIRExpressionInner::LessEq(inl_box(cs, l), inl_box(cs, r)),
        MIRExpressionInner::GreaterEq(l, r) => MIRExpressionInner::GreaterEq(inl_box(cs, l), inl_box(cs, r)),
        MIRExpressionInner::BoolAnd(l, r) => MIRExpressionInner::BoolAnd(inl_box(cs, l), inl_box(cs, r)),
        MIRExpressionInner::BoolOr(l, r) => MIRExpressionInner::BoolOr(inl_box(cs, l), inl_box(cs, r)),
        MIRExpressionInner::Index(l, r) => MIRExpressionInner::Index(inl_box(cs, l), inl_box(cs, r)),
        MIRExpressionInner::Ref(x) => MIRExpressionInner::Ref(inl_box(cs, x)),
        MIRExpressionInner::Deref(x) => MIRExpressionInner::Deref(inl_box(cs, x)),
        MIRExpressionInner::Neg(x) => MIRExpressionInner::Neg(inl_box(cs, x)),
        MIRExpressionInner::Not(x) => MIRExpressionInner::Not(inl_box(cs, x)),
        MIRExpressionInner::Member(x, f) => MIRExpressionInner::Member(inl_box(cs, x), f),
        MIRExpressionInner::Binding(l, x, r) => MIRExpressionInner::Binding(l, inl_box(cs, x), r),
        MIRExpressionInner::Ternary(c, t, f) => MIRExpressionInner::Ternary(
            inl_box(cs, c),
            inl_box(cs, t),
            inl_box(cs, f),
        ),
        MIRExpressionInner::Array(v) => MIRExpressionInner::Array(inl_vec(cs, v)),
        MIRExpressionInner::FunctionCall(c) => MIRExpressionInner::FunctionCall(
            Box::new(inl_call_exec(cs, *c)),
        ),
        other => other,
    }
}

/// Computes [`inl_exprs`], consuming the list.
fn inl_vec(cs: &Vec<MIRConstant>, v: Vec<MIRExpression>) -> (res: Vec<MIRExpression>)
    ensures
        exprs_view(res@) == inl_exprs(const_table(cs@), exprs_view(v@)),
    decreases exprs_size(v@), 0nat,
{
    let ghost orig = v@;
    let ghost names = const_table(cs@);
    proof {
        lemma_exprs_size_elems(orig);
        assert(orig.take(0) =~= Seq::<MIRExpression>::empty());
        assert(exprs_view(Seq::<MIRExpression>::empty()) =~= Seq::<ExprV>::empty());
    }
    let n = v.len();
    let mut rest = v;
    let mut out: Vec<MIRExpression> = Vec::new();
    let mut k: usize = 0;
    while k < n
        invariant
            n == orig.len(),
            k <= n,
            names == const_table(cs@),
            rest@ =~= orig.subrange(k as int, n as int),
            exprs_view(out@) == inl_exprs(names, exprs_view(orig.take(k as int))),
            forall|i: int| 0 <= i < orig.len() ==> expr_size(#[trigger] orig[i]) < exprs_size(orig),
            exprs_size(orig) == exprs_size(v@),
        decreases n - k,
    {
        let x = rest.remove(0);
        assert(x == orig[k as int]);
        assert(expr_size(x) < exprs_size(v@));
        proof {
            assert(orig.take(k as int + 1) =~= orig.take(k as int).push(x));
            lemma_exprs_view_push(orig.take(k as int), x);
            assert(exprs_view(orig.take(k as int + 1)).drop_last() =~= exprs_view(orig.take(k as int)));
        }
        let y = inl_owned(cs, x);
        proof {
            lemma_exprs_view_push(out@, y);
        }
        out.push(y);
        k = k + 1;
    }
    assert(orig.take(n as int) =~= orig);
    out
}

/// Computes [`inl_call`], consuming the call.
fn inl_call_exec(cs: &Vec<MIRConstant>, c: MIRFnCall) -> (res: MIRFnCall)
    ensures
        res@ == inl_call(const_table(cs@), c@),
    decreases call_size(c), 0nat,
{
    let MIRFnCall { source, args, args_ty, ret_ty, span } = c;
    let source2 = match source {
        MIRFnSource::Indirect(e) => MIRFnSource::Indirect(inl_owned(cs, e)),
        MIRFnSource::Direct(n, sp) => MIRFnSource::Direct(n, sp),
    };
    MIRFnCall { source: source2, args: inl_vec(cs, args), args_ty, ret_ty, span }
}

/// [`inl_expr`] on an optional expression.
pub open spec fn inl_opt(cs: Seq<ConstV>, e: Option<ExprV>) -> Option<ExprV> {
    match e {
        Some(x) => Some(inl_expr(cs, x)),
        None => None,
    }
}

/// Computes [`inl_opt`].
fn inl_opt_exec(cs: &Vec<MIRConstant>, e: Option<MIRExpression>) -> (res: Option<MIRExpression>)
    ensures
        match (res, inl_opt(const_table(cs@), match e {
            Some(x) => Some(x@),
            None => None,
        })) {
            (Some(x), Some(y)) => x@ == y,
            (None, None) => true,
            _ => false,
        },
{
    match e {
        Some(x) => Some(inl_owned(cs, x)),
        None => None,
    }
}



// ---------------------------------------------------------------------------
// Copies
// ---------------------------------------------------------------------------

/// A copy of an expression, with the same model.
pub fn copy_expr(e: &MIRExpression) -> (res: MIRExpression)
    ensures
        res@ == e@,
    decreases expr_size(*e), 1nat,
{
    MIRExpression { inner: copy_inner(&e.inner), ty: copy_opt_ty(&e.ty), span: e.span.clone() }
}

pub(crate) fn copy_opt_ty(t: &Option<MIRType>) -> (res: Option<MIRType>)
    ensures
        super::view::opt_ty_view(res) == super::view::opt_ty_view(*t),
{
    match t {
        Some(x) => Some(copy_ty(x)),
        None => None,
    }
}

fn copy_box(x: &Box<MIRExpression>) -> (res: Box<MIRExpression>)
    ensures
        (*res)@ == (**x)@,
    decreases expr_size(**x), 2nat,
{
    Box::new(copy_expr(x))
}

pub(crate) fn copy_marker(m: &MIRMarker) -> (res: MIRMarker)
    ensures
        res@ == m@,
{
    MIRMarker { name: m.name.clone(), span: m.span.clone() }
}

#[verifier::spinoff_prover]
pub(crate) fn copy_inner(i: &MIRExpressionInner) -> (res: MIRExpressionInner)
    ensures
        res@ == i@,
    decreases inner_size(*i), 0nat,
{
    match i {
        MIRExpressionInner::Add(l, r) => MIRExpressionInner::Add(copy_box(l), copy_box(r)),
        MIRExpressionInner::Sub(l, r) => MIRExpressionInner::Sub(copy_box(l), copy_box(r)),
        MIRExpressionInner::Mul(l, r) => MIRExpressionInner::Mul(copy_box(l), copy_box(r)),
        MIRExpressionInner::Div(l, r) => MIRExpressionInner::Div(copy_box(l), copy_box(r)),
        MIRExpressionInner::Equal(l, r) => MIRExpressionInner::Equal(copy_box(l), copy_box(r)),
        MIRExpressionInner::NotEqual(l, r) => MIRExpressionInner::NotEqual(copy_box(l), copy_box(r)),
        MIRExpressionInner::Less(l, r) => MIRExpressionInner::Less(copy_box(l), copy_box(r)),
        MIRExpressionInner::Greater(l, r) => MIRExpressionInner::Greater(copy_box(l), copy_box(r)),
        MIRExpressionInner::LessEq(l, r) => MIRExpressionInner::LessEq(copy_box(l), copy_box(r)),
        MIRExpressionInner::GreaterEq(l, r) => MIRExpressionInner::GreaterEq(copy_box(l), copy_box(r)),
        MIRExpressionInner::BoolAnd(l, r) => MIRExpressionInner::BoolAnd(copy_box(l), copy_box(r)),
        MIRExpressionInner::BoolOr(l, r) => MIRExpressionInner::BoolOr(copy_box(l), copy_box(r)),
        MIRExpressionInner::Index(l, r) => MIRExpressionInner::Index(copy_box(l), copy_box(r)),
        MIRExpressionInner::Ref(x) => MIRExpressionInner::Ref(copy_box(x)),
        MIRExpressionInner::Deref(x) => MIRExpressionInner::Deref(copy_box(x)),
        MIRExpressionInner::Neg(x) => MIRExpressionInner::Neg(copy_box(x)),
        MIRExpressionInner::Not(x) => MIRExpressionInner::Not(copy_box(x)),
        MIRExpressionInner::Member(x, f) => MIRExpressionInner::Member(copy_box(x), f.clone()),
        MIRExpressionInner::Binding(l, x, r) => MIRExpressionInner::Binding(
            copy_marker(l),
            copy_box(x),
            copy_marker(r),
        ),
        MIRExpressionInner::Ternary(c, t, f) => MIRExpressionInner::Ternary(
            copy_box(c),
            copy_box(t),
            copy_box(f),
        ),
        MIRExpressionInner::Array(v) => MIRExpressionInner::Array(copy_vec(v)),
        MIRExpressionInner::FunctionCall(c) => MIRExpressionInner::FunctionCall(
            Box::new(copy_call(c)),
        ),
        MIRExpressionInner::Number(n) => MIRExpressionInner::Number(*n),
        MIRExpressionInner::String(t) => MIRExpressionInner::String(t.clone()),
        MIRExpressionInner::Char(c) => MIRExpressionInner::Char(*c),
        MIRExpressionInner::Bool(b) => MIRExpressionInner::Bool(*b),
        MIRExpressionInner::Unit => MIRExpressionInner::Unit,
        MIRExpressionInner::Variable(n, x) => MIRExpressionInner::Variable(n.clone(), *x),
        MIRExpressionInner::Quine => MIRExpressionInner::Quine,
        MIRExpressionInner::QuineLen => MIRExpressionInner::QuineLen,
        MIRExpressionInner::QuineSpace => MIRExpressionInner::QuineSpace,
        MIRExpressionInner::QuineLine => MIRExpressionInner::QuineLine,
    }
}

fn copy_vec(v: &Vec<MIRExpression>) -> (res: Vec<MIRExpression>)
    ensures
        exprs_view(res@) == exprs_view(v@),
    decreases exprs_size(v@), 0nat,
{
    proof {
        lemma_exprs_size_elems(v@);
    }
    let mut out: Vec<MIRExpression> = Vec::new();
    let mut k: usize = 0;
    assert(exprs_view(v@.take(0)) =~= exprs_view(out@));
    while k < v.len()
        invariant
            k <= v.len(),
            exprs_view(out@) == exprs_view(v@.take(k as int)),
            forall|i: int| 0 <= i < v@.len() ==> expr_size(#[trigger] v@[i]) < exprs_size(v@),
        decreases v.len() - k,
    {
        let y = copy_expr(&v[k]);
        proof {
            lemma_exprs_view_push(out@, y);
            assert(v@.take(k as int + 1) =~= v@.take(k as int).push(v@[k as int]));
            lemma_exprs_view_push(v@.take(k as int), v@[k as int]);
        }
        out.push(y);
        k = k + 1;
    }
    assert(v@.take(v.len() as int) =~= v@);
    out
}

pub(crate) fn copy_call(c: &MIRFnCall) -> (res: MIRFnCall)
    ensures
        res@ == c@,
    decreases call_size(*c), 0nat,
{
    let source = match &c.source {
        MIRFnSource::Direct(n, sp) => MIRFnSource::Direct(n.clone(), sp.clone()),
        MIRFnSource::Indirect(e) => MIRFnSource::Indirect(copy_expr(e)),
    };
    let args_ty = match &c.args_ty {
        Some(a) => Some(copy_args(a)),
        None => None,
    };
    MIRFnCall {
        source,
        args: copy_vec(&c.args),
        args_ty,
        ret_ty: copy_opt_ty(&c.ret_ty),
        span: c.span.clone(),
    }
}


// ---------------------------------------------------------------------------
// Statements
// ---------------------------------------------------------------------------

/// A statement with [`inl_expr`] applied to each expression it holds (places
/// written to included) and to the statements of its nested blocks.
pub open spec fn inl_stmt(cs: Seq<ConstV>, s: StmtV) -> StmtV
    decreases s, 1nat,
{
    match s {
        StmtV::CreateVariable { var, value, span } => StmtV::CreateVariable {
            var,
            value: inl_opt(cs, value),
            span,
        },
        StmtV::SetVariable { place, value, span } => StmtV::SetVariable {
            place: inl_expr(cs, place),
            value: inl_expr(cs, value),
            span,
        },
        StmtV::AddAssign { place, value, span } => StmtV::AddAssign {
            place: inl_expr(cs, place),
            value: inl_expr(cs, value),
            span,
        },
        StmtV::SubAssign { place, value, span } => StmtV::SubAssign {
            place: inl_expr(cs, place),
            value: inl_expr(cs, value),
            span,
        },
        StmtV::MulAssign { place, value, span } => StmtV::MulAssign {
            place: inl_expr(cs, place),
            value: inl_expr(cs, value),
            span,
        },
        StmtV::DivAssign { place, value, span } => StmtV::DivAssign {
            place: inl_expr(cs, place),
            value: inl_expr(cs, value),
            span,
        },
        StmtV::IncrementVariable { place, span } => StmtV::IncrementVariable {
            place: inl_expr(cs, place),
            span,
        },
        StmtV::DecrementVariable { place, span } => StmtV::DecrementVariable {
            place: inl_expr(cs, place),
            span,
        },
        StmtV::FunctionCall(c) => StmtV::FunctionCall(inl_call(cs, c)),
        StmtV::GotoNotEqual { name, index, condition, span } => StmtV::GotoNotEqual {
            name,
            index,
            condition: inl_expr(cs, condition),
            span,
        },
        StmtV::Return { expr, span } => StmtV::Return { expr: inl_opt(cs, expr), span },
        StmtV::IfStatement { condition, on_true, on_false, span } => StmtV::IfStatement {
            condition: inl_expr(cs, condition),
            on_true: inl_block(cs, on_true),
            on_false: inl_block(cs, on_false),
            span,
        },
        StmtV::LoopStatement { condition, body, iterate, span } => StmtV::LoopStatement {
            condition: inl_opt(cs, condition),
            body: inl_block(cs, body),
            iterate: inl_block(cs, iterate),
            span,
        },
        StmtV::ScopeStatement { body, span } => StmtV::ScopeStatement {
            body: inl_block(cs, body),
            span,
        },
        _ => s,
    }
}

/// [`inl_stmt`] on each statement of a block.
pub open spec fn inl_block(cs: Seq<ConstV>, b: Seq<StmtV>) -> Seq<StmtV>
    decreases b, 2nat,
{
    if b.len() == 0 {
        b
    } else {
        proof {
            axiom_seq_len_decreases(b, b.drop_last());
        }
        inl_block(cs, b.drop_last()).push(inl_stmt(cs, b.last()))
    }
}

/// Computes [`inl_stmt`], consuming the statement.
#[verifier::spinoff_prover]
fn inl_stmt_exec(cs: &Vec<MIRConstant>, s: MIRStatement) -> (res: MIRStatement)
    ensures
        res@ == inl_stmt(const_table(cs@), s@),
    decreases stmt_size(s), 1nat,
{
    match s {
        MIRStatement::CreateVariable { var, value, span } => MIRStatement::CreateVariable {
            var,
            value: inl_opt_exec(cs, value),
            span,
        },
        MIRStatement::SetVariable { place, value, span } => MIRStatement::SetVariable {
            place: inl_owned(cs, place),
            value: inl_owned(cs, value),
            span,
        },
        MIRStatement::AddAssign { place, value, span } => MIRStatement::AddAssign {
            place: inl_owned(cs, place),
            value: inl_owned(cs, value),
            span,
        },
        MIRStatement::SubAssign { place, value, span } => MIRStatement::SubAssign {
            place: inl_owned(cs, place),
            value: inl_owned(cs, value),
            span,
        },
        MIRStatement::MulAssign { place, value, span } => MIRStatement::MulAssign {
            place: inl_owned(cs, place),
            value: inl_owned(cs, value),
            span,
        },
        MIRStatement::DivAssign { place, value, span } => MIRStatement::DivAssign {
            place: inl_owned(cs, place),
            value: inl_owned(cs, value),
            span,
        },
        MIRStatement::IncrementVariable { place, span } => MIRStatement::IncrementVariable {
            place: inl_owned(cs, place),
            span,
        },
        MIRStatement::DecrementVariable { place, span } => MIRStatement::DecrementVariable {
            place: inl_owned(cs, place),
            span,
        },
        MIRStatement::FunctionCall(c) => MIRStatement::FunctionCall(inl_call_exec(cs, c)),
        MIRStatement::GotoNotEqual { name, index, condition, span } => MIRStatement::GotoNotEqual {
            name,
            index,
            condition: inl_owned(cs, condition),
            span,
        },
        MIRStatement::Return { expr, span } => MIRStatement::Return {
            expr: inl_opt_exec(cs, expr),
            span,
        },
        MIRStatement::IfStatement { condition, on_true, on_false, span } => {
            proof {
                lemma_stmts_size_elems(on_true@);
            }
            MIRStatement::IfStatement {
                condition: inl_owned(cs, condition),
                on_true: inl_block_exec(cs, on_true),
                on_false: inl_block_exec(cs, on_false),
                span,
            }
        },
        MIRStatement::LoopStatement { condition, body, iterate, span } => MIRStatement::LoopStatement {
            condition: inl_opt_exec(cs, condition),
            body: inl_block_exec(cs, body),
            iterate: inl_block_exec(cs, iterate),
            span,
        },
        MIRStatement::ScopeStatement { body, span } => MIRStatement::ScopeStatement {
            body: inl_block_exec(cs, body),
            span,
        },
        other => other,
    }
}

/// Computes [`inl_block`], consuming the block.
fn inl_block_exec(cs: &Vec<MIRConstant>, v: Vec<MIRStatement>) -> (res: Vec<MIRStatement>)
    ensures
        stmts_view(res@) == inl_block(const_table(cs@), stmts_view(v@)),
    decreases stmts_size(v@), 2nat,
{
    let ghost orig = v@;
    let ghost bv = stmts_view(v@);
    let ghost t = const_table(cs@);
    proof {
        lemma_stmts_size_elems(orig);
        lemma_stmts_view_index(orig);
        assert(bv.take(0) =~= Seq::<StmtV>::empty());
        assert(stmts_view(Seq::<MIRStatement>::empty()) =~= Seq::<StmtV>::empty());
    }
    let n = v.len();
    let mut rest = v;
    let mut out: Vec<MIRStatement> = Vec::new();
    let mut k: usize = 0;
    while k < n
        invariant
            n == orig.len(),
            k <= n,
            bv == stmts_view(orig),
            bv.len() == n,
            t == const_table(cs@),
            forall|j: int| 0 <= j < n ==> #[trigger] bv[j] == orig[j]@,
            rest@ =~= orig.subrange(k as int, n as int),
            stmts_view(out@) == inl_block(t, bv.take(k as int)),
            forall|i: int| 0 <= i < orig.len() ==> stmt_size(#[trigger] orig[i]) < stmts_size(orig),
            stmts_size(orig) == stmts_size(v@),
        decreases n - k,
    {
        let x = rest.remove(0);
        assert(x == orig[k as int]);
        proof {
            assert(bv.take(k as int + 1).drop_last() =~= bv.take(k as int));
            assert(bv.take(k as int + 1).last() == x@);
        }
        let y = inl_stmt_exec(cs, x);
        proof {
            lemma_stmts_view_push(out@, y);
        }
        out.push(y);
        k = k + 1;
    }
    assert(bv.take(n as int) =~= bv);
    out
}

/// Replaces, in the bodies of all functions, every access to a constant by
/// a copy of the constant's value (see [`inl_block`]). Always succeeds.
pub fn inline_consts(program: &mut MIRProgram) -> (res: bool)
    ensures
        res,
        final(program).functions@.len() == old(program).functions@.len(),
        forall|i: int|
            0 <= i < old(program).functions@.len() ==> {
                let f = #[trigger] old(program).functions@[i];
                let g = final(program).functions@[i];
                &&& g == (MIRFunction { body: g.body, ..f })
                &&& stmts_view(g.body@) == inl_block(
                    const_table(old(program).constants@),
                    stmts_view(f.body@),
                )
            },
        *final(program) == (MIRProgram { functions: final(program).functions, ..*old(program) }),
{
    let mut fs: Vec<MIRFunction> = Vec::new();
    std::mem::swap(&mut fs, &mut program.functions);
    let ghost orig = fs@;
    let ghost t = const_table(program.constants@);
    let n = fs.len();
    let mut rest = fs;
    let mut out: Vec<MIRFunction> = Vec::new();
    let mut k: usize = 0;
    while k < n
        invariant
            n == orig.len(),
            k <= n,
            t == const_table(program.constants@),
            rest@ =~= orig.subrange(k as int, n as int),
            out@.len() == k,
            forall|i: int|
                0 <= i < k ==> {
                    let f = #[trigger] orig[i];
                    let g = out@[i];
                    &&& g == (MIRFunction { body: g.body, ..f })
                    &&& stmts_view(g.body@) == inl_block(t, stmts_view(f.body@))
                },
        decreases n - k,
    {
        let f = rest.remove(0);
        assert(f == orig[k as int]);
        let MIRFunction { name, fn_type, ret_ty, args, args_ty, body, span, extern_import } = f;
        let body2 = inl_block_exec(&program.constants, body);
        out.push(MIRFunction { name, fn_type, ret_ty, args, args_ty, body: body2, span, extern_import });
        k = k + 1;
    }
    program.functions = out;
    true
}


// ---------------------------------------------------------------------------
// No constant left
// ---------------------------------------------------------------------------

/// No access to a constant of `cs` stands in the expression.
pub open spec fn const_free(cs: Seq<ConstV>, e: ExprV) -> bool
    decreases e, 1nat,
{
    match e.inner {
        InnerV::Variable(n, _) => const_value(cs, n) is None,
        _ => const_free_inner(cs, e.inner),
    }
}

/// [`const_free`] of the inner part of an expression.
pub open spec fn const_free_inner(cs: Seq<ConstV>, i: InnerV) -> bool
    decreases i, 0nat,
{
    match i {
        InnerV::Add(l, r) | InnerV::Sub(l, r) | InnerV::Mul(l, r) | InnerV::Div(l, r) | InnerV::Equal(l, r) | InnerV::NotEqual(l, r) | InnerV::Less(l, r) | InnerV::Greater(l, r) | InnerV::LessEq(l, r) | InnerV::GreaterEq(l, r) | InnerV::BoolAnd(l, r) | InnerV::BoolOr(l, r) | InnerV::Index(l, r) => const_free(cs, *l) && const_free(cs, *r),
        InnerV::Ref(x) | InnerV::Deref(x) | InnerV::Neg(x) | InnerV::Not(x) | InnerV::Member(x, _)
        | InnerV::Binding(_, x, _) => const_free(cs, *x),
        InnerV::Ternary(c, t, f) => const_free(cs, *c) && const_free(cs, *t) && const_free(cs, *f),
        InnerV::Array(v) => const_free_list(cs, v),
        InnerV::FunctionCall(c) => const_free_call(cs, *c),
        _ => true,
    }
}

/// [`const_free`] of each expression of a list.
pub open spec fn const_free_list(cs: Seq<ConstV>, s: Seq<ExprV>) -> bool
    decreases s, s.len(),
{
    if s.len() == 0 {
        true
    } else {
        proof {
            axiom_seq_len_decreases(s, s.drop_last());
        }
        const_free_list(cs, s.drop_last()) && const_free(cs, s.last())
    }
}

/// [`const_free`] of the callee (when an expression) and the arguments.
pub open spec fn const_free_call(cs: Seq<ConstV>, c: CallV) -> bool
    decreases c, 0nat,
{
    &&& match c.source {
        SourceV::Indirect(e) => const_free(cs, e),
        SourceV::Direct(_, _) => true,
    }
    &&& const_free_list(cs, c.args)
}

/// [`const_free`] of an optional expression.
pub open spec fn const_free_opt(cs: Seq<ConstV>, e: Option<ExprV>) -> bool {
    match e {
        Some(x) => const_free(cs, x),
        None => true,
    }
}

/// No access to a constant stands in the statement, nested blocks included.
pub open spec fn const_free_stmt(cs: Seq<ConstV>, s: StmtV) -> bool
    decreases s, 1nat,
{
    match s {
        StmtV::CreateVariable { value, .. } => const_free_opt(cs, value),
        StmtV::SetVariable { place, value, .. } | StmtV::AddAssign { place, value, .. }
        | StmtV::SubAssign { place, value, .. } | StmtV::MulAssign { place, value, .. }
        | StmtV::DivAssign { place, value, .. } => const_free(cs, place) && const_free(cs, value),
        StmtV::IncrementVariable { place, .. } | StmtV::DecrementVariable { place, .. } => const_free(
            cs,
            place,
        ),
        StmtV::FunctionCall(c) => const_free_call(cs, c),
        StmtV::GotoNotEqual { condition, .. } => const_free(cs, condition),
        StmtV::Return { expr, .. } => const_free_opt(cs, expr),
        StmtV::IfStatement { condition, on_true, on_false, .. } => const_free(cs, condition)
            && const_free_block(cs, on_true) && const_free_block(cs, on_false),
        StmtV::LoopStatement { condition, body, iterate, .. } => const_free_opt(cs, condition)
            && const_free_block(cs, body) && const_free_block(cs, iterate),
        StmtV::ScopeStatement { body, .. } => const_free_block(cs, body),
        _ => true,
    }
}

/// [`const_free_stmt`] of each statement of a block.
pub open spec fn const_free_block(cs: Seq<ConstV>, b: Seq<StmtV>) -> bool
    decreases b, 2nat,
{
    if b.len() == 0 {
        true
    } else {
        proof {
            axiom_seq_len_decreases(b, b.drop_last());
        }
        const_free_block(cs, b.drop_last()) && const_free_stmt(cs, b.last())
    }
}

/// The values of the constants hold no access to a constant (they were
/// evaluated).
pub open spec fn values_const_free(cs: Seq<ConstV>) -> bool {
    forall|i: int| 0 <= i < cs.len() ==> const_free(cs, #[trigger] cs[i].1)
}

proof fn lemma_inl_expr_free(cs: Seq<ConstV>, e: ExprV)
    requires
        values_const_free(cs),
    ensures
        const_free(cs, inl_expr(cs, e)),
    decreases e, 1nat,
{
    match e.inner {
        InnerV::Variable(n, _) => {
            let names = cs.map_values(|c: ConstV| c.0);
            super::type_check::lemma_first_index_found(names, n);
        },
        _ => {
            lemma_inl_inner_free(cs, e.inner);
        },
    }
}

proof fn lemma_inl_inner_free(cs: Seq<ConstV>, i: InnerV)
    requires
        values_const_free(cs),
    ensures
        const_free_inner(cs, inl_inner(cs, i)),
    decreases i, 0nat,
{
    match i {
        InnerV::Add(l, r) | InnerV::Sub(l, r) | InnerV::Mul(l, r) | InnerV::Div(l, r) | InnerV::Equal(l, r) | InnerV::NotEqual(l, r) | InnerV::Less(l, r) | InnerV::Greater(l, r) | InnerV::LessEq(l, r) | InnerV::GreaterEq(l, r) | InnerV::BoolAnd(l, r) | InnerV::BoolOr(l, r) | InnerV::Index(l, r) => {
            lemma_inl_expr_free(cs, *l);
            lemma_inl_expr_free(cs, *r);
        },
        InnerV::Ref(x) | InnerV::Deref(x) | InnerV::Neg(x) | InnerV::Not(x) | InnerV::Member(x, _)
        | InnerV::Binding(_, x, _) => {
            lemma_inl_expr_free(cs, *x);
        },
        InnerV::Ternary(c, t, f) => {
            lemma_inl_expr_free(cs, *c);
            lemma_inl_expr_free(cs, *t);
            lemma_inl_expr_free(cs, *f);
        },
        InnerV::Array(v) => {
            lemma_inl_list_free(cs, v);
        },
        InnerV::FunctionCall(c) => {
            lemma_inl_call_free(cs, *c);
        },
        _ => {},
    }
}

proof fn lemma_inl_list_free(cs: Seq<ConstV>, s: Seq<ExprV>)
    requires
        values_const_free(cs),
    ensures
        const_free_list(cs, inl_exprs(cs, s)),
    decreases s, s.len(),
{
    if s.len() > 0 {
        axiom_seq_len_decreases(s, s.drop_last());
        lemma_inl_list_free(cs, s.drop_last());
        lemma_inl_expr_free(cs, s.last());
        let r = inl_exprs(cs, s);
        assert(r.drop_last() =~= inl_exprs(cs, s.drop_last()));
    }
}

proof fn lemma_inl_call_free(cs: Seq<ConstV>, c: CallV)
    requires
        values_const_free(cs),
    ensures
        const_free_call(cs, inl_call(cs, c)),
    decreases c, 0nat,
{
    lemma_inl_list_free(cs, c.args);
    match c.source {
        SourceV::Indirect(e) => {
            lemma_inl_expr_free(cs, e);
        },
        _ => {},
    }
}

proof fn lemma_inl_stmt_free(cs: Seq<ConstV>, s: StmtV)
    requires
        values_const_free(cs),
    ensures
        const_free_stmt(cs, inl_stmt(cs, s)),
    decreases s, 1nat,
{
    match s {
        StmtV::CreateVariable { value: Some(x), .. } | StmtV::Return { expr: Some(x), .. }
        | StmtV::LoopStatement { condition: Some(x), .. } => {
            lemma_inl_expr_free(cs, x);
        },
        _ => {},
    }
    match s {
        StmtV::SetVariable { place, value, .. } | StmtV::AddAssign { place, value, .. }
        | StmtV::SubAssign { place, value, .. } | StmtV::MulAssign { place, value, .. }
        | StmtV::DivAssign { place, value, .. } => {
            lemma_inl_expr_free(cs, place);
            lemma_inl_expr_free(cs, value);
        },
        StmtV::IncrementVariable { place, .. } | StmtV::DecrementVariable { place, .. } => {
            lemma_inl_expr_free(cs, place);
        },
        StmtV::FunctionCall(c) => {
            lemma_inl_call_free(cs, c);
        },
        StmtV::GotoNotEqual { condition, .. } => {
            lemma_inl_expr_free(cs, condition);
        },
        StmtV::IfStatement { condition, on_true, on_false, .. } => {
            lemma_inl_expr_free(cs, condition);
            lemma_inl_block_free(cs, on_true);
            lemma_inl_block_free(cs, on_false);
        },
        StmtV::LoopStatement { body, iterate, .. } => {
            lemma_inl_block_free(cs, body);
            lemma_inl_block_free(cs, iterate);
        },
        StmtV::ScopeStatement { body, .. } => {
            lemma_inl_block_free(cs, body);
        },
        _ => {},
    }
}

proof fn lemma_inl_block_free(cs: Seq<ConstV>, b: Seq<StmtV>)
    requires
        values_const_free(cs),
    ensures
        const_free_block(cs, inl_block(cs, b)),
    decreases b, 2nat,
{
    if b.len() > 0 {
        axiom_seq_len_decreases(b, b.drop_last());
        lemma_inl_block_free(cs, b.drop_last());
        lemma_inl_stmt_free(cs, b.last());
        let r = inl_block(cs, b);
        assert(r.drop_last() =~= inl_block(cs, b.drop_last()));
    }
}

/// Once the constants' values hold no access to a constant, inlining leaves
/// no access to a constant in a function body, at any depth.
pub proof fn lemma_inlined_body_is_const_free(cs: Seq<ConstV>, b: Seq<StmtV>)
    requires
        values_const_free(cs),
    ensures
        const_free_block(cs, inl_block(cs, b)),
{
    lemma_inl_block_free(cs, b);
}

} // verus!
