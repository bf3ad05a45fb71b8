//! Numbering of the variables of each function.

use super::expr::{call_size, expr_size, exprs_size, inner_size, lemma_exprs_size_elems};
use super::function::{created_by, created_vars, scope_names};
use super::type_check::{
    copy_var, find_var, first_index_of, last_index_of, lemma_first_index_at,
    lemma_first_index_none, names_of, typed_vars, var_views,
};
use super::view::{
    exprs_view, lemma_exprs_view_push, lemma_stmts_size_elems, lemma_stmts_view_index,
    lemma_stmts_view_push, stmt_size, stmts_size, stmts_view, CallV, ExprV, InnerV, SourceV, StmtV,
    VarV,
};
use super::{
    MIRExpression, MIRExpressionInner, MIRFnCall, MIRFnSource, MIRFunction, MIRProgram,
    MIRStatement, MIRVariable,
};
use crate::util::name::{
    alnum_char, lemma_name_injective, letter_char, name_num_to_str, name_tail, spec_name_of,
};
use crate::util::text::push_char;
use vstd::prelude::*;
use vstd::seq::axiom_seq_len_decreases;

verus! {

// ---------------------------------------------------------------------------
// Expressions
// ---------------------------------------------------------------------------

/// An expression in which every access to a variable in scope gets the
/// index of that variable (the last one in `scope` with its name).
pub open spec fn num_expr(scope: Seq<VarV>, e: ExprV) -> ExprV
    decreases e, 1nat,
{
    ExprV { inner: num_inner(scope, e.inner), ..e }
}

/// [`num_expr`] on the inner part of an expression.
pub open spec fn num_inner(scope: Seq<VarV>, i: InnerV) -> InnerV
    decreases i, 0nat,
{
    match i {
        InnerV::Add(l, r) => InnerV::Add(Box::new(num_expr(scope, *l)), Box::new(num_expr(scope, *r))),
        InnerV::Sub(l, r) => InnerV::Sub(Box::new(num_expr(scope, *l)), Box::new(num_expr(scope, *r))),
        InnerV::Mul(l, r) => InnerV::Mul(Box::new(num_expr(scope, *l)), Box::new(num_expr(scope, *r))),
        InnerV::Div(l, r) => InnerV::Div(Box::new(num_expr(scope, *l)), Box::new(num_expr(scope, *r))),
        InnerV::Equal(l, r) => InnerV::Equal(Box::new(num_expr(scope, *l)), Box::new(num_expr(scope, *r))),
        InnerV::NotEqual(l, r) => InnerV::NotEqual(Box::new(num_expr(scope, *l)), Box::new(num_expr(scope, *r))),
        InnerV::Less(l, r) => InnerV::Less(Box::new(num_expr(scope, *l)), Box::new(num_expr(scope, *r))),
        InnerV::Greater(l, r) => InnerV::Greater(Box::new(num_expr(scope, *l)), Box::new(num_expr(scope, *r))),
        InnerV::LessEq(l, r) => InnerV::LessEq(Box::new(num_expr(scope, *l)), Box::new(num_expr(scope, *r))),
        InnerV::GreaterEq(l, r) => InnerV::GreaterEq(Box::new(num_expr(scope, *l)), Box::new(num_expr(scope, *r))),
        InnerV::BoolAnd(l, r) => InnerV::BoolAnd(Box::new(num_expr(scope, *l)), Box::new(num_expr(scope, *r))),
        InnerV::BoolOr(l, r) => InnerV::BoolOr(Box::new(num_expr(scope, *l)), Box::new(num_expr(scope, *r))),
        InnerV::Index(l, r) => InnerV::Index(Box::new(num_expr(scope, *l)), Box::new(num_expr(scope, *r))),
        InnerV::Ref(x) => InnerV::Ref(Box::new(num_expr(scope, *x))),
        InnerV::Deref(x) => InnerV::Deref(Box::new(num_expr(scope, *x))),
        InnerV::Neg(x) => InnerV::Neg(Box::new(num_expr(scope, *x))),
        InnerV::Not(x) => InnerV::Not(Box::new(num_expr(scope, *x))),
        InnerV::Member(x, f) => InnerV::Member(Box::new(num_expr(scope, *x)), f),
        InnerV::Binding(l, x, r) => InnerV::Binding(l, Box::new(num_expr(scope, *x)), r),
        InnerV::Ternary(c, t, f) => InnerV::Ternary(
            Box::new(num_expr(scope, *c)),
            Box::new(num_expr(scope, *t)),
            Box::new(num_expr(scope, *f)),
        ),
        InnerV::Array(s) => InnerV::Array(num_exprs(scope, s)),
        InnerV::FunctionCall(c) => InnerV::FunctionCall(Box::new(num_call(scope, *c))),
        InnerV::Variable(n, x) => match last_index_of(scope_names(scope), n) {
            Some(j) => InnerV::Variable(n, scope[j].var_idx),
            None => i,
        },
        _ => i,
    }
}

/// [`num_expr`] on each expression of a list.
pub open spec fn num_exprs(scope: Seq<VarV>, s: Seq<ExprV>) -> Seq<ExprV>
    decreases s, s.len(),
{
    if s.len() == 0 {
        s
    } else {
        proof {
            axiom_seq_len_decreases(s, s.drop_last());
        }
        num_exprs(scope, s.drop_last()).push(num_expr(scope, s.last()))
    }
}

/// [`num_expr`] on the callee (when it is an expression) and the arguments
/// of a call.
pub open spec fn num_call(scope: Seq<VarV>, c: CallV) -> CallV
    decreases c, 0nat,
{
    CallV {
        source: match c.source {
            SourceV::Indirect(e) => SourceV::Indirect(num_expr(scope, e)),
            SourceV::Direct(_, _) => c.source,
        },
        args: num_exprs(scope, c.args),
        ..c
    }
}

/// Computes [`num_expr`], consuming the expression.
fn num_owned(vars: &Vec<MIRVariable>, e: MIRExpression) -> (res: MIRExpression)
    ensures
        res@ == num_expr(var_views(vars@), e@),
    decreases expr_size(e), 2nat,
{
    let MIRExpression { inner, ty, span } = e;
    MIRExpression { inner: num_inner_exec(vars, inner), ty, span }
}

/// Computes [`num_expr`] of a boxed expression.
fn num_box(vars: &Vec<MIRVariable>, x: Box<MIRExpression>) -> (res: Box<MIRExpression>)
    ensures
        (*res)@ == num_expr(var_views(vars@), (*x)@),
    decreases expr_size(*x), 3nat,
{
    Box::new(num_owned(vars, *x))
}

/// The access to `n` with the index of the variable in scope it names.
fn num_variable(vars: &Vec<MIRVariable>, n: String, i: Option<usize>) -> (res: MIRExpressionInner)
    ensures
        res@ == num_inner(var_views(vars@), InnerV::Variable(n@, i)),
{
    assert(names_of(typed_vars(vars@)) =~= scope_names(var_views(vars@)));
    match find_var(vars, &n) {
        Some(j) => {
            let idx = vars[j].var_idx;
            MIRExpressionInner::Variable(n, idx)
        },
        None => MIRExpressionInner::Variable(n, i),
    }
}

/// Computes [`num_inner`], consuming the inner part.
#[verifier::spinoff_prover]
fn num_inner_exec(vars: &Vec<MIRVariable>, i: MIRExpressionInner) -> (res: MIRExpressionInner)
    ensures
        res@ == num_inner(var_views(vars@), i@),
    decreases inner_size(i), 1nat,
{
    match i {
        MIRExpressionInner::Add(l, r) => MIRExpressionInner::Add(num_box(vars, l), num_box(vars, r)),
        MIRExpressionInner::Sub(l, r) => MIRExpressionInner::Sub(num_box(vars, l), num_box(vars, r)),
        MIRExpressionInner::Mul(l, r) => MIRExpressionInner::Mul(num_box(vars, l), num_box(vars, r)),
        MIRExpressionInner::Div(l, r) => MIRExpressionInner::Div(num_box(vars, l), num_box(vars, r)),
        MIRExpressionInner::Equal(l, r) => MIRExpressionInner::Equal(num_box(vars, l), num_box(vars, r)),
        MIRExpressionInner::NotEqual(l, r) => MIRExpressionInner::NotEqual(num_box(vars, l), num_box(vars, r)),
        MIRExpressionInner::Less(l, r) => MIRExpressionInner::Less(num_box(vars, l), num_box(vars, r)),
        MIRExpressionInner::Greater(l, r) => MIRExpressionInner::Greater(num_box(vars, l), num_box(vars, r)),
        MIRExpressionInner::LessEq(l, r) => MIRExpressionInner::LessEq(num_box(vars, l), num_box(vars, r)),
        MIRExpressionInner::GreaterEq(l, r) => MIRExpressionInner::GreaterEq(num_box(vars, l), num_box(vars, r)),
        MIRExpressionInner::BoolAnd(l, r) => MIRExpressionInner::BoolAnd(num_box(vars, l), num_box(vars, r)),
        MIRExpressionInner::BoolOr(l, r) => MIRExpressionInner::BoolOr(num_box(vars, l), num_box(vars, r)),
        MIRExpressionInner::Index(l, r) => MIRExpressionInner::Index(num_box(vars, l), num_box(vars, r)),
        MIRExpressionInner::Ref(x) => MIRExpressionInner::Ref(num_box(vars, x)),
        MIRExpressionInner::Deref(x) => MIRExpressionInner::Deref(num_box(vars, x)),
        MIRExpressionInner::Neg(x) => MIRExpressionInner::Neg(num_box(vars, x)),
        MIRExpressionInner::Not(x) => MIRExpressionInner::Not(num_box(vars, x)),
        MIRExpressionInner::Member(x, f) => MIRExpressionInner::Member(num_box(vars, x), f),
        MIRExpressionInner::Binding(l, x, r) => MIRExpressionInner::Binding(l, num_box(vars, x), r),
        MIRExpressionInner::Ternary(c, t, f) => MIRExpressionInner::Ternary(
            num_box(vars, c),
            num_box(vars, t),
            num_box(vars, f),
        ),
        MIRExpressionInner::Array(v) => MIRExpressionInner::Array(num_vec(vars, v)),
        MIRExpressionInner::FunctionCall(c) => MIRExpressionInner::FunctionCall(
            Box::new(num_call_exec(vars, *c)),
        ),
        MIRExpressionInner::Variable(n, i) => num_variable(vars, n, i),
        other => other,
    }
}

/// Computes [`num_exprs`], consuming the list.
fn num_vec(vars: &Vec<MIRVariable>, v: Vec<MIRExpression>) -> (res: Vec<MIRExpression>)
    ensures
        exprs_view(res@) == num_exprs(var_views(vars@), exprs_view(v@)),
    decreases exprs_size(v@), 0nat,
{
    let ghost orig = v@;
    let ghost names = var_views(vars@);
    proof {
        lemma_exprs_size_elems(orig);
        assert(orig.take(0) =~= Seq::<MIRExpression>::empty());
        assert(exprs_view(Seq::<MIRExpression>::empty()) =~= Seq::<ExprV>::empty());
    }
    let n = v.len();
    let mut rest = v;
    let mut out: Vec<MIRExpression> = Vec::new();
    let mut k: usize = 0;
    while k < n
        invariant
            n == orig.len(),
            k <= n,
            names == var_views(vars@),
            rest@ =~= orig.subrange(k as int, n as int),
            exprs_view(out@) == num_exprs(names, exprs_view(orig.take(k as int))),
            forall|i: int| 0 <= i < orig.len() ==> expr_size(#[trigger] orig[i]) < exprs_size(orig),
            exprs_size(orig) == exprs_size(v@),
        decreases n - k,
    {
        let x = rest.remove(0);
        assert(x == orig[k as int]);
        assert(expr_size(x) < exprs_size(v@));
        proof {
            assert(orig.take(k as int + 1) =~= orig.take(k as int).push(x));
            lemma_exprs_view_push(orig.take(k as int), x);
            assert(exprs_view(orig.take(k as int + 1)).drop_last() =~= exprs_view(orig.take(k as int)));
        }
        let y = num_owned(vars, x);
        proof {
            lemma_exprs_view_push(out@, y);
        }
        out.push(y);
        k = k + 1;
    }
    assert(orig.take(n as int) =~= orig);
    out
}

/// Computes [`num_call`], consuming the call.
fn num_call_exec(vars: &Vec<MIRVariable>, c: MIRFnCall) -> (res: MIRFnCall)
    ensures
        res@ == num_call(var_views(vars@), c@),
    decreases call_size(c), 0nat,
{
    let MIRFnCall { source, args, args_ty, ret_ty, span } = c;
    let source2 = match source {
        MIRFnSource::Indirect(e) => MIRFnSource::Indirect(num_owned(vars, e)),
        MIRFnSource::Direct(n, sp) => MIRFnSource::Direct(n, sp),
    };
    MIRFnCall { source: source2, args: num_vec(vars, args), args_ty, ret_ty, span }
}

/// [`num_expr`] on an optional expression.
pub open spec fn num_opt(scope: Seq<VarV>, e: Option<ExprV>) -> Option<ExprV> {
    match e {
        Some(x) => Some(num_expr(scope, x)),
        None => None,
    }
}

/// Computes [`num_opt`].
fn num_opt_exec(vars: &Vec<MIRVariable>, e: Option<MIRExpression>) -> (res: Option<MIRExpression>)
    ensures
        match (res, num_opt(var_views(vars@), match e {
            Some(x) => Some(x@),
            None => None,
        })) {
            (Some(x), Some(y)) => x@ == y,
            (None, None) => true,
            _ => false,
        },
{
    match e {
        Some(x) => Some(num_owned(vars, x)),
        None => None,
    }
}


// ---------------------------------------------------------------------------
// Statements
// ---------------------------------------------------------------------------

/// How many variables a block creates, nested blocks included.
pub open spec fn count_creates(b: Seq<StmtV>) -> nat
    decreases b, b.len(),
{
    if b.len() == 0 {
        0
    } else {
        proof {
            axiom_seq_len_decreases(b, b.drop_last());
        }
        count_creates(b.drop_last()) + stmt_creates(b.last())
    }
}

/// How many variables a statement creates, nested blocks included.
pub open spec fn stmt_creates(s: StmtV) -> nat
    decreases s, 0nat,
{
    match s {
        StmtV::CreateVariable { .. } => 1,
        StmtV::IfStatement { on_true, on_false, .. } => count_creates(on_true) + count_creates(
            on_false,
        ),
        StmtV::LoopStatement { body, iterate, .. } => count_creates(body) + count_creates(iterate),
        StmtV::ScopeStatement { body, .. } => count_creates(body),
        _ => 0,
    }
}

/// A statement numbered with the variables `scope` in scope and `n` the
/// next index: a created variable gets index `n`, and every access to a
/// variable in scope gets that variable's index (places written to
/// included); nested blocks are numbered in order, each with its own scope.
/// Yields the statement and the next index.
pub open spec fn num_stmt(scope: Seq<VarV>, s: StmtV, n: nat) -> (StmtV, nat)
    decreases s, 1nat,
{
    match s {
        StmtV::CreateVariable { var, value, span } => (
            StmtV::CreateVariable {
                var: VarV { var_idx: Some(n as usize), ..var },
                value: num_opt(scope, value),
                span,
            },
            n + 1,
        ),
        StmtV::SetVariable { place, value, span } => (
            StmtV::SetVariable { place: num_expr(scope, place), value: num_expr(scope, value), span },
            n,
        ),
        StmtV::AddAssign { place, value, span } => (
            StmtV::AddAssign { place: num_expr(scope, place), value: num_expr(scope, value), span },
            n,
        ),
        StmtV::SubAssign { place, value, span } => (
            StmtV::SubAssign { place: num_expr(scope, place), value: num_expr(scope, value), span },
            n,
        ),
        StmtV::MulAssign { place, value, span } => (
            StmtV::MulAssign { place: num_expr(scope, place), value: num_expr(scope, value), span },
            n,
        ),
        StmtV::DivAssign { place, value, span } => (
            StmtV::DivAssign { place: num_expr(scope, place), value: num_expr(scope, value), span },
            n,
        ),
        StmtV::IncrementVariable { place, span } => (
            StmtV::IncrementVariable { place: num_expr(scope, place), span },
            n,
        ),
        StmtV::DecrementVariable { place, span } => (
            StmtV::DecrementVariable { place: num_expr(scope, place), span },
            n,
        ),
        StmtV::FunctionCall(c) => (StmtV::FunctionCall(num_call(scope, c)), n),
        StmtV::GotoNotEqual { name, index, condition, span } => (
            StmtV::GotoNotEqual { name, index, condition: num_expr(scope, condition), span },
            n,
        ),
        StmtV::Return { expr, span } => (StmtV::Return { expr: num_opt(scope, expr), span }, n),
        StmtV::IfStatement { condition, on_true, on_false, span } => {
            let t = num_block(scope, on_true, n);
            let f = num_block(scope, on_false, t.1);
            (
                StmtV::IfStatement {
                    condition: num_expr(scope, condition),
                    on_true: t.0,
                    on_false: f.0,
                    span,
                },
                f.1,
            )
        },
        StmtV::LoopStatement { condition, body, iterate, span } => {
            let b = num_block(scope, body, n);
            let i = num_block(scope, iterate, b.1);
            (
                StmtV::LoopStatement {
                    condition: num_opt(scope, condition),
                    body: b.0,
                    iterate: i.0,
                    span,
                },
                i.1,
            )
        },
        StmtV::ScopeStatement { body, span } => {
            let b = num_block(scope, body, n);
            (StmtV::ScopeStatement { body: b.0, span }, b.1)
        },
        _ => (s, n),
    }
}

/// A block numbered statement by statement from index `n`, each statement
/// with the variables created before it in the block in scope. Yields the
/// block and the next index.
pub open spec fn num_block(scope: Seq<VarV>, b: Seq<StmtV>, n: nat) -> (Seq<StmtV>, nat)
    decreases b, 2nat,
{
    if b.len() == 0 {
        (b, n)
    } else {
        proof {
            axiom_seq_len_decreases(b, b.drop_last());
        }
        let p = num_block(scope, b.drop_last(), n);
        let x = num_stmt(scope + created_vars(p.0), b.last(), p.1);
        (p.0.push(x.0), x.1)
    }
}

proof fn lemma_count_creates_prefix(b: Seq<StmtV>, k: int)
    requires
        0 <= k <= b.len(),
    ensures
        count_creates(b.take(k)) <= count_creates(b),
    decreases b.len(),
{
    if k < b.len() {
        assert(b.drop_last().take(k) =~= b.take(k));
        lemma_count_creates_prefix(b.drop_last(), k);
    } else {
        assert(b.take(k) =~= b);
    }
}

/// Computes [`num_stmt`] for statements with no nested block.
#[verifier::spinoff_prover]
fn num_flat(vars: &Vec<MIRVariable>, s: MIRStatement, n: usize) -> (res: (MIRStatement, usize))
    requires
        !(s is IfStatement || s is LoopStatement || s is ScopeStatement),
        n + stmt_creates(s@) <= usize::MAX,
    ensures
        (res.0@, res.1 as nat) == num_stmt(var_views(vars@), s@, n as nat),
        res.1 == n + stmt_creates(s@),
{
    match s {
        MIRStatement::CreateVariable { var, value, span } => {
            let MIRVariable { name, ty, arg, var_idx, span: vspan } = var;
            let var2 = MIRVariable { name, ty, arg, var_idx: Some(n), span: vspan };
            (MIRStatement::CreateVariable { var: var2, value: num_opt_exec(vars, value), span }, n + 1)
        },
        MIRStatement::SetVariable { place, value, span } => (
            MIRStatement::SetVariable { place: num_owned(vars, place), value: num_owned(vars, value), span },
            n,
        ),
        MIRStatement::AddAssign { place, value, span } => (
            MIRStatement::AddAssign { place: num_owned(vars, place), value: num_owned(vars, value), span },
            n,
        ),
        MIRStatement::SubAssign { place, value, span } => (
            MIRStatement::SubAssign { place: num_owned(vars, place), value: num_owned(vars, value), span },
            n,
        ),
        MIRStatement::MulAssign { place, value, span } => (
            MIRStatement::MulAssign { place: num_owned(vars, place), value: num_owned(vars, value), span },
            n,
        ),
        MIRStatement::DivAssign { place, value, span } => (
            MIRStatement::DivAssign { place: num_owned(vars, place), value: num_owned(vars, value), span },
            n,
        ),
        MIRStatement::IncrementVariable { place, span } => (
            MIRStatement::IncrementVariable { place: num_owned(vars, place), span },
            n,
        ),
        MIRStatement::DecrementVariable { place, span } => (
            MIRStatement::DecrementVariable { place: num_owned(vars, place), span },
            n,
        ),
        MIRStatement::FunctionCall(c) => (MIRStatement::FunctionCall(num_call_exec(vars, c)), n),
        MIRStatement::GotoNotEqual { name, index, condition, span } => (
            MIRStatement::GotoNotEqual { name, index, condition: num_owned(vars, condition), span },
            n,
        ),
        MIRStatement::Return { expr, span } => (
            MIRStatement::Return { expr: num_opt_exec(vars, expr), span },
            n,
        ),
        other => (other, n),
    }
}

/// Computes [`num_stmt`]; the scope is the same afterwards.
#[verifier::spinoff_prover]
fn num_stmt_exec(vars: &mut Vec<MIRVariable>, s: MIRStatement, n: usize) -> (res: (MIRStatement, usize))
    requires
        n + stmt_creates(s@) <= usize::MAX,
    ensures
        (res.0@, res.1 as nat) == num_stmt(var_views(old(vars)@), s@, n as nat),
        res.1 == n + stmt_creates(s@),
        final(vars)@ == old(vars)@,
    decreases stmt_size(s), 1nat,
{
    let ghost v0 = vars@;
    match s {
        MIRStatement::IfStatement { condition, on_true, on_false, span } => {
            proof {
                lemma_stmts_size_elems(on_true@);
            }
            let c = num_owned(vars, condition);
            let len = vars.len();
            let (t, n1) = num_block_exec(vars, on_true, n);
            vars.truncate(len);
            assert(vars@ =~= v0);
            let (f, n2) = num_block_exec(vars, on_false, n1);
            vars.truncate(len);
            assert(vars@ =~= v0);
            (MIRStatement::IfStatement { condition: c, on_true: t, on_false: f, span }, n2)
        },
        MIRStatement::LoopStatement { condition, body, iterate, span } => {
            let c = num_opt_exec(vars, condition);
            let len = vars.len();
            let (b, n1) = num_block_exec(vars, body, n);
            vars.truncate(len);
            assert(vars@ =~= v0);
            let (i, n2) = num_block_exec(vars, iterate, n1);
            vars.truncate(len);
            assert(vars@ =~= v0);
            (MIRStatement::LoopStatement { condition: c, body: b, iterate: i, span }, n2)
        },
        MIRStatement::ScopeStatement { body, span } => {
            let len = vars.len();
            let (b, n1) = num_block_exec(vars, body, n);
            vars.truncate(len);
            assert(vars@ =~= v0);
            (MIRStatement::ScopeStatement { body: b, span }, n1)
        },
        other => num_flat(vars, other, n),
    }
}

/// Adds the variable a statement creates, if any, to the scope.
fn add_created(vars: &mut Vec<MIRVariable>, y: &MIRStatement)
    ensures
        var_views(final(vars)@) == var_views(old(vars)@) + created_by(y@),
        old(vars)@.len() <= final(vars)@.len(),
        final(vars)@.take(old(vars)@.len() as int) == old(vars)@,
{
    let ghost before = vars@;
    match y {
        MIRStatement::CreateVariable { var, .. } => {
            vars.push(copy_var(var));
        },
        _ => {},
    }
    assert(var_views(vars@) =~= var_views(before) + created_by(y@));
    assert(vars@.take(before.len() as int) =~= before);
}

/// Computes [`num_block`], adding the variables the numbered block creates
/// to the scope.
#[verifier::spinoff_prover]
fn num_block_exec(vars: &mut Vec<MIRVariable>, b: Vec<MIRStatement>, n: usize) -> (res: (
    Vec<MIRStatement>,
    usize,
))
    requires
        n + count_creates(stmts_view(b@)) <= usize::MAX,
    ensures
        (stmts_view(res.0@), res.1 as nat) == num_block(
            var_views(old(vars)@),
            stmts_view(b@),
            n as nat,
        ),
        res.1 == n + count_creates(stmts_view(b@)),
        var_views(final(vars)@) == var_views(old(vars)@) + created_vars(stmts_view(res.0@)),
        old(vars)@.len() <= final(vars)@.len(),
        final(vars)@.take(old(vars)@.len() as int) == old(vars)@,
    decreases stmts_size(b@), 2nat,
{
    let ghost orig = b@;
    let ghost v0 = vars@;
    let ghost bv = stmts_view(b@);
    proof {
        lemma_stmts_size_elems(orig);
        lemma_stmts_view_index(orig);
        assert(bv.take(0) =~= Seq::<StmtV>::empty());
        assert(stmts_view(Seq::<MIRStatement>::empty()) =~= Seq::<StmtV>::empty());
        assert(var_views(v0) + created_vars(Seq::<StmtV>::empty()) =~= var_views(v0));
        assert(v0.take(v0.len() as int) =~= v0);
    }
    let len = b.len();
    let mut rest = b;
    let mut out: Vec<MIRStatement> = Vec::new();
    let mut m = n;
    let mut k: usize = 0;
    while k < len
        invariant
            len == orig.len(),
            k <= len,
            bv == stmts_view(orig),
            bv.len() == len,
            forall|j: int| 0 <= j < len ==> #[trigger] bv[j] == orig[j]@,
            rest@ =~= orig.subrange(k as int, len as int),
            (stmts_view(out@), m as nat) == num_block(var_views(v0), bv.take(k as int), n as nat),
            m == n + count_creates(bv.take(k as int)),
            n + count_creates(bv) <= usize::MAX,
            var_views(vars@) == var_views(v0) + created_vars(stmts_view(out@)),
            v0.len() <= vars@.len(),
            vars@.take(v0.len() as int) == v0,
            forall|i: int| 0 <= i < orig.len() ==> stmt_size(#[trigger] orig[i]) < stmts_size(orig),
            stmts_size(orig) == stmts_size(b@),
        decreases len - k,
    {
        let x = rest.remove(0);
        assert(x == orig[k as int]);
        assert(stmt_size(x) < stmts_size(b@));
        proof {
            assert(bv.take(k as int + 1).drop_last() =~= bv.take(k as int));
            assert(bv.take(k as int + 1).last() == x@);
            lemma_count_creates_prefix(bv, k as int + 1);
        }
        let ghost mid = vars@;
        let (y, m2) = num_stmt_exec(vars, x, m);
        add_created(vars, &y);
        proof {
            lemma_stmts_view_push(out@, y);
            assert(stmts_view(out@.push(y)).drop_last() =~= stmts_view(out@));
            assert(var_views(vars@) =~= var_views(v0) + created_vars(stmts_view(out@.push(y))));
            assert(vars@.take(v0.len() as int) =~= mid.take(v0.len() as int));
        }
        out.push(y);
        m = m2;
        k = k + 1;
    }
    assert(bv.take(len as int) =~= bv);
    (out, m)
}


// ---------------------------------------------------------------------------
// Arguments
// ---------------------------------------------------------------------------

/// The (phantom) argument variables a block creates, nested blocks
/// included, in order.
pub open spec fn phantoms(b: Seq<StmtV>) -> Seq<VarV>
    decreases b, b.len(),
{
    if b.len() == 0 {
        Seq::empty()
    } else {
        proof {
            axiom_seq_len_decreases(b, b.drop_last());
        }
        phantoms(b.drop_last()) + stmt_phantoms(b.last())
    }
}

/// The (phantom) argument variables a statement creates, nested blocks
/// included, in order.
pub open spec fn stmt_phantoms(s: StmtV) -> Seq<VarV>
    decreases s, 0nat,
{
    match s {
        StmtV::CreateVariable { var, .. } => if var.arg {
            seq![var]
        } else {
            Seq::empty()
        },
        StmtV::IfStatement { on_true, on_false, .. } => phantoms(on_true) + phantoms(on_false),
        StmtV::LoopStatement { body, iterate, .. } => phantoms(body) + phantoms(iterate),
        StmtV::ScopeStatement { body, .. } => phantoms(body),
        _ => Seq::empty(),
    }
}

/// The arguments with the first one named like `p` given `p`'s index.
pub open spec fn set_arg_idx(args: Seq<VarV>, p: VarV) -> Seq<VarV> {
    match first_index_of(scope_names(args), p.name) {
        Some(j) => args.update(j, VarV { var_idx: p.var_idx, ..args[j] }),
        None => args,
    }
}

/// The arguments after [`set_arg_idx`] with each phantom variable in turn.
pub open spec fn apply_phantoms(args: Seq<VarV>, ph: Seq<VarV>) -> Seq<VarV>
    decreases ph.len(),
{
    if ph.len() == 0 {
        args
    } else {
        set_arg_idx(apply_phantoms(args, ph.drop_last()), ph.last())
    }
}

proof fn lemma_apply_phantoms_names(args: Seq<VarV>, ph: Seq<VarV>)
    ensures
        scope_names(apply_phantoms(args, ph)) == scope_names(args),
    decreases ph.len(),
{
    if ph.len() > 0 {
        lemma_apply_phantoms_names(args, ph.drop_last());
        let a = apply_phantoms(args, ph.drop_last());
        super::type_check::lemma_first_index_found(scope_names(a), ph.last().name);
        assert(scope_names(set_arg_idx(a, ph.last())) =~= scope_names(a));
    }
}

proof fn lemma_phantoms_concat(a: Seq<StmtV>, b: Seq<StmtV>)
    ensures
        phantoms(a + b) == phantoms(a) + phantoms(b),
    decreases b.len(),
{
    if b.len() == 0 {
        assert(a + b =~= a);
        assert(phantoms(a) + phantoms(b) =~= phantoms(a));
    } else {
        lemma_phantoms_concat(a, b.drop_last());
        assert((a + b).drop_last() =~= a + b.drop_last());
        assert((a + b).last() == b.last());
        assert(phantoms(a) + phantoms(b) =~= phantoms(a) + phantoms(b.drop_last()) + stmt_phantoms(
            b.last(),
        ));
    }
}

/// Numbering keeps the names of the phantom variables.
proof fn lemma_num_block_phantom_names(scope: Seq<VarV>, b: Seq<StmtV>, n: nat)
    ensures
        scope_names(phantoms(num_block(scope, b, n).0)) == scope_names(phantoms(b)),
    decreases b, 2nat,
{
    if b.len() > 0 {
        axiom_seq_len_decreases(b, b.drop_last());
        let p = num_block(scope, b.drop_last(), n);
        lemma_num_block_phantom_names(scope, b.drop_last(), n);
        lemma_num_stmt_phantom_names(scope + created_vars(p.0), b.last(), p.1);
        let x = num_stmt(scope + created_vars(p.0), b.last(), p.1);
        assert(p.0.push(x.0).drop_last() =~= p.0);
        assert(scope_names(phantoms(p.0) + stmt_phantoms(x.0)) =~= scope_names(phantoms(p.0))
            + scope_names(stmt_phantoms(x.0)));
        assert(scope_names(phantoms(b.drop_last()) + stmt_phantoms(b.last())) =~= scope_names(
            phantoms(b.drop_last()),
        ) + scope_names(stmt_phantoms(b.last())));
    }
}

proof fn lemma_num_stmt_phantom_names(scope: Seq<VarV>, s: StmtV, n: nat)
    ensures
        scope_names(stmt_phantoms(num_stmt(scope, s, n).0)) == scope_names(stmt_phantoms(s)),
    decreases s, 1nat,
{
    match s {
        StmtV::IfStatement { condition, on_true, on_false, span } => {
            let t = num_block(scope, on_true, n);
            lemma_num_block_phantom_names(scope, on_true, n);
            lemma_num_block_phantom_names(scope, on_false, t.1);
            let f = num_block(scope, on_false, t.1);
            assert(scope_names(phantoms(t.0) + phantoms(f.0)) =~= scope_names(phantoms(t.0))
                + scope_names(phantoms(f.0)));
            assert(scope_names(phantoms(on_true) + phantoms(on_false)) =~= scope_names(
                phantoms(on_true),
            ) + scope_names(phantoms(on_false)));
        },
        StmtV::LoopStatement { condition, body, iterate, span } => {
            let b = num_block(scope, body, n);
            lemma_num_block_phantom_names(scope, body, n);
            lemma_num_block_phantom_names(scope, iterate, b.1);
            let i = num_block(scope, iterate, b.1);
            assert(scope_names(phantoms(b.0) + phantoms(i.0)) =~= scope_names(phantoms(b.0))
                + scope_names(phantoms(i.0)));
            assert(scope_names(phantoms(body) + phantoms(iterate)) =~= scope_names(phantoms(body))
                + scope_names(phantoms(iterate)));
        },
        StmtV::ScopeStatement { body, span } => {
            lemma_num_block_phantom_names(scope, body, n);
        },
        StmtV::CreateVariable { var, value, span } => {
            if var.arg {
                assert(scope_names(seq![VarV { var_idx: Some(n as usize), ..var }]) =~= scope_names(
                    seq![var],
                ));
            }
        },
        _ => {},
    }
}

/// Collects the phantom variables a statement creates.
fn collect_stmt_phantoms(s: &MIRStatement, out: &mut Vec<MIRVariable>)
    ensures
        var_views(final(out)@) == var_views(old(out)@) + stmt_phantoms(s@),
    decreases stmt_size(*s), 0nat,
{
    let ghost before = var_views(out@);
    match s {
        MIRStatement::CreateVariable { var, .. } => {
            if var.arg {
                out.push(copy_var(var));
            }
            assert(var_views(out@) =~= before + stmt_phantoms(s@));
        },
        MIRStatement::IfStatement { on_true, on_false, .. } => {
            collect_phantoms(on_true, out);
            collect_phantoms(on_false, out);
            assert(var_views(out@) =~= before + stmt_phantoms(s@));
        },
        MIRStatement::LoopStatement { body, iterate, .. } => {
            collect_phantoms(body, out);
            collect_phantoms(iterate, out);
            assert(var_views(out@) =~= before + stmt_phantoms(s@));
        },
        MIRStatement::ScopeStatement { body, .. } => {
            collect_phantoms(body, out);
        },
        _ => {
            assert(var_views(out@) =~= before + stmt_phantoms(s@));
        },
    }
}

/// Collects the phantom variables a block creates.
fn collect_phantoms(v: &Vec<MIRStatement>, out: &mut Vec<MIRVariable>)
    ensures
        var_views(final(out)@) == var_views(old(out)@) + phantoms(stmts_view(v@)),
    decreases stmts_size(v@), 1nat,
{
    proof {
        lemma_stmts_size_elems(v@);
    }
    let ghost before = var_views(out@);
    let mut k: usize = 0;
    assert(v@.take(0) =~= Seq::<MIRStatement>::empty());
    assert(before + phantoms(Seq::<StmtV>::empty()) =~= before);
    while k < v.len()
        invariant
            k <= v.len(),
            var_views(out@) == before + phantoms(stmts_view(v@.take(k as int))),
            forall|i: int| 0 <= i < v@.len() ==> stmt_size(#[trigger] v@[i]) < stmts_size(v@),
        decreases v.len() - k,
    {
        assert(v@.take(k as int + 1) =~= v@.take(k as int).push(v@[k as int]));
        proof {
            lemma_stmts_view_push(v@.take(k as int), v@[k as int]);
            assert(stmts_view(v@.take(k as int)).push(v@[k as int]@).drop_last() =~= stmts_view(
                v@.take(k as int),
            ));
        }
        collect_stmt_phantoms(&v[k], out);
        assert(var_views(out@) =~= before + phantoms(stmts_view(v@.take(k as int + 1))));
        k = k + 1;
    }
    assert(v@.take(v.len() as int) =~= v@);
}

/// The position of the first argument named `name`.
fn first_arg(args: &Vec<MIRVariable>, name: &String) -> (res: Option<usize>)
    ensures
        match (res, first_index_of(scope_names(var_views(args@)), name@)) {
            (Some(i), Some(j)) => i == j && i < args@.len(),
            (None, None) => true,
            _ => false,
        },
{
    let ghost names = scope_names(var_views(args@));
    let mut i: usize = 0;
    while i < args.len()
        invariant
            i <= args@.len(),
            names == scope_names(var_views(args@)),
            names.len() == args@.len(),
            forall|j: int| 0 <= j < i ==> names[j] != name@,
        decreases args.len() - i,
    {
        assert(names[i as int] == args@[i as int].name@);
        if args[i].name.eq(name) {
            proof {
                lemma_first_index_at(names, name@, i as int);
            }
            return Some(i);
        }
        i = i + 1;
    }
    proof {
        lemma_first_index_none(names, name@);
    }
    None
}

/// Gives each argument the index of the last phantom variable named like
/// it (see [`apply_phantoms`]).
fn apply_phantoms_exec(args: &mut Vec<MIRVariable>, ph: &Vec<MIRVariable>)
    requires
        forall|i: int|
            0 <= i < ph@.len() ==> first_index_of(
                scope_names(var_views(old(args)@)),
                (#[trigger] ph@[i]).name@,
            ) is Some,
    ensures
        var_views(final(args)@) == apply_phantoms(var_views(old(args)@), var_views(ph@)),
{
    let ghost a0 = var_views(args@);
    let mut k: usize = 0;
    assert(var_views(ph@).take(0) =~= Seq::<VarV>::empty());
    while k < ph.len()
        invariant
            k <= ph@.len(),
            var_views(args@) == apply_phantoms(a0, var_views(ph@).take(k as int)),
            forall|i: int|
                0 <= i < ph@.len() ==> first_index_of(scope_names(a0), (#[trigger] ph@[i]).name@) is Some,
        decreases ph.len() - k,
    {
        let ghost cur = var_views(args@);
        proof {
            lemma_apply_phantoms_names(a0, var_views(ph@).take(k as int));
            assert(var_views(ph@).take(k as int + 1).drop_last() =~= var_views(ph@).take(k as int));
        }
        let p = &ph[k];
        match first_arg(args, &p.name) {
            Some(j) => {
                let mut a = copy_var(&args[j]);
                a.var_idx = p.var_idx;
                args.set(j, a);
                assert(var_views(args@) =~= set_arg_idx(cur, p@));
            },
            None => {
                assert(first_index_of(scope_names(a0), ph@[k as int].name@) is Some);
            },
        }
        k = k + 1;
    }
    assert(var_views(ph@).take(ph@.len() as int) =~= var_views(ph@));
}

// ---------------------------------------------------------------------------
// Unique names
// ---------------------------------------------------------------------------

/// The name of the variable `name` numbered `i`: the name, an underscore,
/// and the short name of `i` (letters and digits only).
pub open spec fn unique_name(name: Seq<char>, i: usize) -> Seq<char> {
    name + seq!['_'] + spec_name_of(i as nat)
}

/// A variable named by its unique name, once it is numbered.
pub open spec fn rn_var(v: VarV) -> VarV {
    match v.var_idx {
        Some(i) => VarV { name: unique_name(v.name, i), ..v },
        None => v,
    }
}

/// Computes [`unique_name`].
fn unique_name_exec(name: &String, i: usize) -> (res: String)
    ensures
        res@ == unique_name(name@, i),
{
    let mut s = name.clone();
    push_char(&mut s, '_');
    let t = name_num_to_str(i);
    s.append(t.as_str());
    s
}

/// Computes [`rn_var`].
fn rn_var_exec(v: MIRVariable) -> (res: MIRVariable)
    ensures
        res@ == rn_var(v@),
{
    match v.var_idx {
        Some(i) => {
            let MIRVariable { name, ty, arg, var_idx, span } = v;
            MIRVariable { name: unique_name_exec(&name, i), ty, arg, var_idx, span }
        },
        None => v,
    }
}

/// No short name holds an underscore.
proof fn lemma_name_has_no_underscore(n: nat)
    ensures
        !spec_name_of(n).contains('_'),
{
    lemma_tail_has_no_underscore(n / 52);
    let d = n % 52;
    assert(letter_char(d) != '_') by {
        if d < 26 {
            assert(((97 + d) as u8) as char != '_');
        } else {
            assert(((65 + d - 26) as u8) as char != '_');
        }
    }
    if spec_name_of(n).contains('_') {
        let k = choose|k: int| 0 <= k < spec_name_of(n).len() && spec_name_of(n)[k] == '_';
        if k > 0 {
            assert(name_tail(n / 52)[k - 1] == '_');
        }
    }
}

proof fn lemma_tail_has_no_underscore(n: nat)
    ensures
        !name_tail(n).contains('_'),
    decreases n,
{
    if n > 0 {
        lemma_tail_has_no_underscore(n / 62);
        let d = n % 62;
        assert(alnum_char(d) != '_') by {
            if d < 26 {
                assert(((97 + d) as u8) as char != '_');
            } else if d < 52 {
                assert(((65 + d - 26) as u8) as char != '_');
            } else {
                assert(((48 + d - 52) as u8) as char != '_');
            }
        }
        if name_tail(n).contains('_') {
            let k = choose|k: int| 0 <= k < name_tail(n).len() && name_tail(n)[k] == '_';
            if k > 0 {
                assert(name_tail(n / 62)[k - 1] == '_');
            }
        }
    }
}

/// Unique names of different numbers differ, whatever the names.
pub proof fn lemma_unique_names_differ(a: Seq<char>, i: usize, b: Seq<char>, j: usize)
    requires
        i != j,
    ensures
        unique_name(a, i) != unique_name(b, j),
{
    let x = spec_name_of(i as nat);
    let y = spec_name_of(j as nat);
    lemma_name_has_no_underscore(i as nat);
    lemma_name_has_no_underscore(j as nat);
    let s = unique_name(a, i);
    if s == unique_name(b, j) {
        let n = s.len();
        if x.len() < y.len() {
            let k = n - x.len() - 1;
            assert(s[k] == '_');
            assert(s[k] == y[k - (n - y.len())]);
            assert(y.contains('_'));
        } else if y.len() < x.len() {
            let k = n - y.len() - 1;
            assert(s[k] == '_');
            assert(s[k] == x[k - (n - x.len())]);
            assert(x.contains('_'));
        } else {
            assert(x =~= s.subrange(n - x.len(), n as int));
            assert(y =~= s.subrange(n - y.len(), n as int));
            lemma_name_injective(i as nat, j as nat);
        }
    }
}

// ---------------------------------------------------------------------------
// Naming
// ---------------------------------------------------------------------------

/// An expression in which every access to a numbered variable names it by
/// its unique name (see [`unique_name`]).
pub open spec fn rn_expr(e: ExprV) -> ExprV
    decreases e, 1nat,
{
    ExprV { inner: rn_inner(e.inner), ..e }
}

/// [`rn_expr`] on the inner part of an expression.
pub open spec fn rn_inner(i: InnerV) -> InnerV
    decreases i, 0nat,
{
    match i {
        InnerV::Add(l, r) => InnerV::Add(Box::new(rn_expr(*l)), Box::new(rn_expr(*r))),
        InnerV::Sub(l, r) => InnerV::Sub(Box::new(rn_expr(*l)), Box::new(rn_expr(*r))),
        InnerV::Mul(l, r) => InnerV::Mul(Box::new(rn_expr(*l)), Box::new(rn_expr(*r))),
        InnerV::Div(l, r) => InnerV::Div(Box::new(rn_expr(*l)), Box::new(rn_expr(*r))),
        InnerV::Equal(l, r) => InnerV::Equal(Box::new(rn_expr(*l)), Box::new(rn_expr(*r))),
        InnerV::NotEqual(l, r) => InnerV::NotEqual(Box::new(rn_expr(*l)), Box::new(rn_expr(*r))),
        InnerV::Less(l, r) => InnerV::Less(Box::new(rn_expr(*l)), Box::new(rn_expr(*r))),
        InnerV::Greater(l, r) => InnerV::Greater(Box::new(rn_expr(*l)), Box::new(rn_expr(*r))),
        InnerV::LessEq(l, r) => InnerV::LessEq(Box::new(rn_expr(*l)), Box::new(rn_expr(*r))),
        InnerV::GreaterEq(l, r) => InnerV::GreaterEq(Box::new(rn_expr(*l)), Box::new(rn_expr(*r))),
        InnerV::BoolAnd(l, r) => InnerV::BoolAnd(Box::new(rn_expr(*l)), Box::new(rn_expr(*r))),
        InnerV::BoolOr(l, r) => InnerV::BoolOr(Box::new(rn_expr(*l)), Box::new(rn_expr(*r))),
        InnerV::Index(l, r) => InnerV::Index(Box::new(rn_expr(*l)), Box::new(rn_expr(*r))),
        InnerV::Ref(x) => InnerV::Ref(Box::new(rn_expr(*x))),
        InnerV::Deref(x) => InnerV::Deref(Box::new(rn_expr(*x))),
        InnerV::Neg(x) => InnerV::Neg(Box::new(rn_expr(*x))),
        InnerV::Not(x) => InnerV::Not(Box::new(rn_expr(*x))),
        InnerV::Member(x, f) => InnerV::Member(Box::new(rn_expr(*x)), f),
        InnerV::Binding(l, x, r) => InnerV::Binding(l, Box::new(rn_expr(*x)), r),
        InnerV::Ternary(c, t, f) => InnerV::Ternary(
            Box::new(rn_expr(*c)),
            Box::new(rn_expr(*t)),
            Box::new(rn_expr(*f)),
        ),
        InnerV::Array(s) => InnerV::Array(rn_exprs(s)),
        InnerV::FunctionCall(c) => InnerV::FunctionCall(Box::new(rn_call(*c))),
        InnerV::Variable(n, Some(x)) => InnerV::Variable(unique_name(n, x), Some(x)),
        _ => i,
    }
}

/// [`rn_expr`] on each expression of a list.
pub open spec fn rn_exprs(s: Seq<ExprV>) -> Seq<ExprV>
    decreases s, s.len(),
{
    if s.len() == 0 {
        s
    } else {
        proof {
            axiom_seq_len_decreases(s, s.drop_last());
        }
        rn_exprs(s.drop_last()).push(rn_expr(s.last()))
    }
}

/// [`rn_expr`] on the callee (when it is an expression) and the arguments
/// of a call.
pub open spec fn rn_call(c: CallV) -> CallV
    decreases c, 0nat,
{
    CallV {
        source: match c.source {
            SourceV::Indirect(e) => SourceV::Indirect(rn_expr(e)),
            SourceV::Direct(_, _) => c.source,
        },
        args: rn_exprs(c.args),
        ..c
    }
}

/// Computes [`rn_expr`], consuming the expression.
fn rn_owned(e: MIRExpression) -> (res: MIRExpression)
    ensures
        res@ == rn_expr(e@),
    decreases expr_size(e), 2nat,
{
    let MIRExpression { inner, ty, span } = e;
    MIRExpression { inner: rn_inner_exec(inner), ty, span }
}

/// Computes [`rn_expr`] of a boxed expression.
fn rn_box(x: Box<MIRExpression>) -> (res: Box<MIRExpression>)
    ensures
        (*res)@ == rn_expr((*x)@),
    decreases expr_size(*x), 3nat,
{
    Box::new(rn_owned(*x))
}

/// Computes [`rn_inner`], consuming the inner part.
#[verifier::spinoff_prover]
fn rn_inner_exec(i: MIRExpressionInner) -> (res: MIRExpressionInner)
    ensures
        res@ == rn_inner(i@),
    decreases inner_size(i), 1nat,
{
    match i {
        MIRExpressionInner::Add(l, r) => MIRExpressionInner::Add(rn_box(l), rn_box(r)),
        MIRExpressionInner::Sub(l, r) => MIRExpressionInner::Sub(rn_box(l), rn_box(r)),
        MIRExpressionInner::Mul(l, r) => MIRExpressionInner::Mul(rn_box(l), rn_box(r)),
        MIRExpressionInner::Div(l, r) => MIRExpressionInner::Div(rn_box(l), rn_box(r)),
        MIRExpressionInner::Equal(l, r) => MIRExpressionInner::Equal(rn_box(l), rn_box(r)),
        MIRExpressionInner::NotEqual(l, r) => MIRExpressionInner::NotEqual(rn_box(l), rn_box(r)),
        MIRExpressionInner::Less(l, r) => MIRExpressionInner::Less(rn_box(l), rn_box(r)),
        MIRExpressionInner::Greater(l, r) => MIRExpressionInner::Greater(rn_box(l), rn_box(r)),
        MIRExpressionInner::LessEq(l, r) => MIRExpressionInner::LessEq(rn_box(l), rn_box(r)),
        MIRExpressionInner::GreaterEq(l, r) => MIRExpressionInner::GreaterEq(rn_box(l), rn_box(r)),
        MIRExpressionInner::BoolAnd(l, r) => MIRExpressionInner::BoolAnd(rn_box(l), rn_box(r)),
        MIRExpressionInner::BoolOr(l, r) => MIRExpressionInner::BoolOr(rn_box(l), rn_box(r)),
        MIRExpressionInner::Index(l, r) => MIRExpressionInner::Index(rn_box(l), rn_box(r)),
        MIRExpressionInner::Ref(x) => MIRExpressionInner::Ref(rn_box(x)),
        MIRExpressionInner::Deref(x) => MIRExpressionInner::Deref(rn_box(x)),
        MIRExpressionInner::Neg(x) => MIRExpressionInner::Neg(rn_box(x)),
        MIRExpressionInner::Not(x) => MIRExpressionInner::Not(rn_box(x)),
        MIRExpressionInner::Member(x, f) => MIRExpressionInner::Member(rn_box(x), f),
        MIRExpressionInner::Binding(l, x, r) => MIRExpressionInner::Binding(l, rn_box(x), r),
        MIRExpressionInner::Ternary(c, t, f) => MIRExpressionInner::Ternary(
            rn_box(c),
            rn_box(t),
            rn_box(f),
        ),
        MIRExpressionInner::Array(v) => MIRExpressionInner::Array(rn_vec(v)),
        MIRExpressionInner::FunctionCall(c) => MIRExpressionInner::FunctionCall(
            Box::new(rn_call_exec(*c)),
        ),
        MIRExpressionInner::Variable(n, Some(x)) => MIRExpressionInner::Variable(
            unique_name_exec(&n, x),
            Some(x),
        ),
        other => other,
    }
}

/// Computes [`rn_exprs`], consuming the list.
fn rn_vec(v: Vec<MIRExpression>) -> (res: Vec<MIRExpression>)
    ensures
        exprs_view(res@) == rn_exprs(exprs_view(v@)),
    decreases exprs_size(v@), 0nat,
{
    let ghost orig = v@;
    proof {
        lemma_exprs_size_elems(orig);
        assert(orig.take(0) =~= Seq::<MIRExpression>::empty());
        assert(exprs_view(Seq::<MIRExpression>::empty()) =~= Seq::<ExprV>::empty());
    }
    let n = v.len();
    let mut rest = v;
    let mut out: Vec<MIRExpression> = Vec::new();
    let mut k: usize = 0;
    while k < n
        invariant
            n == orig.len(),
            k <= n,
            rest@ =~= orig.subrange(k as int, n as int),
            exprs_view(out@) == rn_exprs(exprs_view(orig.take(k as int))),
            forall|i: int| 0 <= i < orig.len() ==> expr_size(#[trigger] orig[i]) < exprs_size(orig),
            exprs_size(orig) == exprs_size(v@),
        decreases n - k,
    {
        let x = rest.remove(0);
        assert(x == orig[k as int]);
        assert(expr_size(x) < exprs_size(v@));
        proof {
            assert(orig.take(k as int + 1) =~= orig.take(k as int).push(x));
            lemma_exprs_view_push(orig.take(k as int), x);
            assert(exprs_view(orig.take(k as int + 1)).drop_last() =~= exprs_view(orig.take(k as int)));
        }
        let y = rn_owned(x);
        proof {
            lemma_exprs_view_push(out@, y);
        }
        out.push(y);
        k = k + 1;
    }
    assert(orig.take(n as int) =~= orig);
    out
}

/// Computes [`rn_call`], consuming the call.
fn rn_call_exec(c: MIRFnCall) -> (res: MIRFnCall)
    ensures
        res@ == rn_call(c@),
    decreases call_size(c), 0nat,
{
    let MIRFnCall { source, args, args_ty, ret_ty, span } = c;
    let source2 = match source {
        MIRFnSource::Indirect(e) => MIRFnSource::Indirect(rn_owned(e)),
        MIRFnSource::Direct(n, sp) => MIRFnSource::Direct(n, sp),
    };
    MIRFnCall { source: source2, args: rn_vec(args), args_ty, ret_ty, span }
}

/// [`rn_expr`] on an optional expression.
pub open spec fn rn_opt(e: Option<ExprV>) -> Option<ExprV> {
    match e {
        Some(x) => Some(rn_expr(x)),
        None => None,
    }
}

/// Computes [`rn_opt`].
fn rn_opt_exec(e: Option<MIRExpression>) -> (res: Option<MIRExpression>)
    ensures
        match (res, rn_opt(match e {
            Some(x) => Some(x@),
            None => None,
        })) {
            (Some(x), Some(y)) => x@ == y,
            (None, None) => true,
            _ => false,
        },
{
    match e {
        Some(x) => Some(rn_owned(x)),
        None => None,
    }
}



/// A statement with its variable (if it creates one) and the variables it
/// accesses (places written to included) named by their unique names,
/// nested blocks included.
pub open spec fn rn_stmt(s: StmtV) -> StmtV
    decreases s, 1nat,
{
    match s {
        StmtV::CreateVariable { var, value, span } => StmtV::CreateVariable {
            var: rn_var(var),
            value: rn_opt(value),
            span,
        },
        StmtV::SetVariable { place, value, span } => StmtV::SetVariable {
            place: rn_expr(place),
            value: rn_expr(value),
            span,
        },
        StmtV::AddAssign { place, value, span } => StmtV::AddAssign {
            place: rn_expr(place),
            value: rn_expr(value),
            span,
        },
        StmtV::SubAssign { place, value, span } => StmtV::SubAssign {
            place: rn_expr(place),
            value: rn_expr(value),
            span,
        },
        StmtV::MulAssign { place, value, span } => StmtV::MulAssign {
            place: rn_expr(place),
            value: rn_expr(value),
            span,
        },
        StmtV::DivAssign { place, value, span } => StmtV::DivAssign {
            place: rn_expr(place),
            value: rn_expr(value),
            span,
        },
        StmtV::IncrementVariable { place, span } => StmtV::IncrementVariable {
            place: rn_expr(place),
            span,
        },
        StmtV::DecrementVariable { place, span } => StmtV::DecrementVariable {
            place: rn_expr(place),
            span,
        },
        StmtV::FunctionCall(c) => StmtV::FunctionCall(rn_call(c)),
        StmtV::GotoNotEqual { name, index, condition, span } => StmtV::GotoNotEqual {
            name,
            index,
            condition: rn_expr(condition),
            span,
        },
        StmtV::Return { expr, span } => StmtV::Return { expr: rn_opt(expr), span },
        StmtV::IfStatement { condition, on_true, on_false, span } => StmtV::IfStatement {
            condition: rn_expr(condition),
            on_true: rn_block(on_true),
            on_false: rn_block(on_false),
            span,
        },
        StmtV::LoopStatement { condition, body, iterate, span } => StmtV::LoopStatement {
            condition: rn_opt(condition),
            body: rn_block(body),
            iterate: rn_block(iterate),
            span,
        },
        StmtV::ScopeStatement { body, span } => StmtV::ScopeStatement {
            body: rn_block(body),
            span,
        },
        _ => s,
    }
}

/// [`rn_stmt`] on each statement of a block.
pub open spec fn rn_block(b: Seq<StmtV>) -> Seq<StmtV>
    decreases b, 2nat,
{
    if b.len() == 0 {
        b
    } else {
        proof {
            axiom_seq_len_decreases(b, b.drop_last());
        }
        rn_block(b.drop_last()).push(rn_stmt(b.last()))
    }
}

/// Computes [`rn_stmt`], consuming the statement.
#[verifier::spinoff_prover]
fn rn_stmt_exec(s: MIRStatement) -> (res: MIRStatement)
    ensures
        res@ == rn_stmt(s@),
    decreases stmt_size(s), 1nat,
{
    match s {
        MIRStatement::CreateVariable { var, value, span } => MIRStatement::CreateVariable {
            var: rn_var_exec(var),
            value: rn_opt_exec(value),
            span,
        },
        MIRStatement::SetVariable { place, value, span } => MIRStatement::SetVariable {
            place: rn_owned(place),
            value: rn_owned(value),
            span,
        },
        MIRStatement::AddAssign { place, value, span } => MIRStatement::AddAssign {
            place: rn_owned(place),
            value: rn_owned(value),
            span,
        },
        MIRStatement::SubAssign { place, value, span } => MIRStatement::SubAssign {
            place: rn_owned(place),
            value: rn_owned(value),
            span,
        },
        MIRStatement::MulAssign { place, value, span } => MIRStatement::MulAssign {
            place: rn_owned(place),
            value: rn_owned(value),
            span,
        },
        MIRStatement::DivAssign { place, value, span } => MIRStatement::DivAssign {
            place: rn_owned(place),
            value: rn_owned(value),
            span,
        },
        MIRStatement::IncrementVariable { place, span } => MIRStatement::IncrementVariable {
            place: rn_owned(place),
            span,
        },
        MIRStatement::DecrementVariable { place, span } => MIRStatement::DecrementVariable {
            place: rn_owned(place),
            span,
        },
        MIRStatement::FunctionCall(c) => MIRStatement::FunctionCall(rn_call_exec(c)),
        MIRStatement::GotoNotEqual { name, index, condition, span } => MIRStatement::GotoNotEqual {
            name,
            index,
            condition: rn_owned(condition),
            span,
        },
        MIRStatement::Return { expr, span } => MIRStatement::Return {
            expr: rn_opt_exec(expr),
            span,
        },
        MIRStatement::IfStatement { condition, on_true, on_false, span } => {
            proof {
                lemma_stmts_size_elems(on_true@);
            }
            MIRStatement::IfStatement {
                condition: rn_owned(condition),
                on_true: rn_block_exec(on_true),
                on_false: rn_block_exec(on_false),
                span,
            }
        },
        MIRStatement::LoopStatement { condition, body, iterate, span } => MIRStatement::LoopStatement {
            condition: rn_opt_exec(condition),
            body: rn_block_exec(body),
            iterate: rn_block_exec(iterate),
            span,
        },
        MIRStatement::ScopeStatement { body, span } => MIRStatement::ScopeStatement {
            body: rn_block_exec(body),
            span,
        },
        other => other,
    }
}

/// Computes [`rn_block`], consuming the block.
fn rn_block_exec(v: Vec<MIRStatement>) -> (res: Vec<MIRStatement>)
    ensures
        stmts_view(res@) == rn_block(stmts_view(v@)),
    decreases stmts_size(v@), 2nat,
{
    let ghost orig = v@;
    let ghost bv = stmts_view(v@);
    proof {
        lemma_stmts_size_elems(orig);
        lemma_stmts_view_index(orig);
        assert(bv.take(0) =~= Seq::<StmtV>::empty());
        assert(stmts_view(Seq::<MIRStatement>::empty()) =~= Seq::<StmtV>::empty());
    }
    let n = v.len();
    let mut rest = v;
    let mut out: Vec<MIRStatement> = Vec::new();
    let mut k: usize = 0;
    while k < n
        invariant
            n == orig.len(),
            k <= n,
            bv == stmts_view(orig),
            bv.len() == n,
            forall|j: int| 0 <= j < n ==> #[trigger] bv[j] == orig[j]@,
            rest@ =~= orig.subrange(k as int, n as int),
            stmts_view(out@) == rn_block(bv.take(k as int)),
            forall|i: int| 0 <= i < orig.len() ==> stmt_size(#[trigger] orig[i]) < stmts_size(orig),
            stmts_size(orig) == stmts_size(v@),
        decreases n - k,
    {
        let x = rest.remove(0);
        assert(x == orig[k as int]);
        proof {
            assert(bv.take(k as int + 1).drop_last() =~= bv.take(k as int));
            assert(bv.take(k as int + 1).last() == x@);
        }
        let y = rn_stmt_exec(x);
        proof {
            lemma_stmts_view_push(out@, y);
        }
        out.push(y);
        k = k + 1;
    }
    assert(bv.take(n as int) =~= bv);
    out
}


// ---------------------------------------------------------------------------
// Whole program
// ---------------------------------------------------------------------------

/// Names each numbered argument by its unique name.
fn rename_args(args: Vec<MIRVariable>) -> (res: Vec<MIRVariable>)
    ensures
        var_views(res@) == var_views(args@).map_values(|v: VarV| rn_var(v)),
{
    let ghost orig = args@;
    let n = args.len();
    let mut rest = args;
    let mut out: Vec<MIRVariable> = Vec::new();
    let mut k: usize = 0;
    while k < n
        invariant
            n == orig.len(),
            k <= n,
            rest@ =~= orig.subrange(k as int, n as int),
            out@.len() == k,
            forall|i: int| 0 <= i < k ==> (#[trigger] out@[i])@ == rn_var(orig[i]@),
        decreases n - k,
    {
        let a = rest.remove(0);
        assert(a == orig[k as int]);
        out.push(rn_var_exec(a));
        k = k + 1;
    }
    assert(var_views(out@) =~= var_views(orig).map_values(|v: VarV| rn_var(v)));
    out
}

/// The function `g` is `f` with its variables numbered and uniquely named:
/// its body numbered from index 0 with nothing in scope, each argument
/// given the index of the last phantom variable with its name, and then
/// every numbered variable, and every access to one, named by its unique
/// name.
pub open spec fn vars_numbered(f: MIRFunction, g: MIRFunction) -> bool {
    let numbered = num_block(Seq::empty(), stmts_view(f.body@), 0).0;
    &&& g == (MIRFunction { body: g.body, args: g.args, ..f })
    &&& stmts_view(g.body@) == rn_block(numbered)
    &&& var_views(g.args@) == apply_phantoms(var_views(f.args@), phantoms(numbered)).map_values(
        |v: VarV| rn_var(v),
    )
}

/// What numbering a function needs: its variables can be counted in a
/// `usize`, and each phantom variable has an argument with its name.
pub open spec fn can_number(f: MIRFunction) -> bool {
    &&& count_creates(stmts_view(f.body@)) <= usize::MAX
    &&& forall|i: int|
        0 <= i < phantoms(stmts_view(f.body@)).len() ==> first_index_of(
            scope_names(var_views(f.args@)),
            (#[trigger] phantoms(stmts_view(f.body@))[i]).name,
        ) is Some
}

/// Gives each variable of each function a unique index (in the order the
/// variables are created, from 0), each access to a variable the index of
/// the variable it names, and each argument the index of its phantom
/// variable. Always succeeds.
pub fn make_vars_unique(program: &mut MIRProgram) -> (res: bool)
    requires
        forall|i: int|
            0 <= i < old(program).functions@.len() ==> can_number(
                #[trigger] old(program).functions@[i],
            ),
    ensures
        res,
        final(program).functions@.len() == old(program).functions@.len(),
        forall|i: int|
            0 <= i < old(program).functions@.len() ==> vars_numbered(
                #[trigger] old(program).functions@[i],
                final(program).functions@[i],
            ),
        *final(program) == (MIRProgram { functions: final(program).functions, ..*old(program) }),
{
    let mut fs: Vec<MIRFunction> = Vec::new();
    std::mem::swap(&mut fs, &mut program.functions);
    let ghost orig = fs@;
    let n = fs.len();
    let mut rest = fs;
    let mut out: Vec<MIRFunction> = Vec::new();
    let mut k: usize = 0;
    while k < n
        invariant
            n == orig.len(),
            k <= n,
            rest@ =~= orig.subrange(k as int, n as int),
            forall|i: int| 0 <= i < n ==> can_number(#[trigger] orig[i]),
            out@.len() == k,
            forall|i: int| 0 <= i < k ==> vars_numbered(#[trigger] orig[i], out@[i]),
        decreases n - k,
    {
        let f = rest.remove(0);
        assert(f == orig[k as int]);
        assert(can_number(orig[k as int]));
        let ghost f0 = f;
        let MIRFunction { name, fn_type, ret_ty, mut args, args_ty, body, span, extern_import } = f;
        let mut vars: Vec<MIRVariable> = Vec::new();
        assert(var_views(vars@) =~= Seq::<VarV>::empty());
        let (body2, _) = num_block_exec(&mut vars, body, 0);
        let mut ph: Vec<MIRVariable> = Vec::new();
        collect_phantoms(&body2, &mut ph);
        proof {
            assert(var_views(ph@) =~= phantoms(stmts_view(body2@)));
            lemma_num_block_phantom_names(Seq::empty(), stmts_view(f0.body@), 0);
            assert forall|i: int| 0 <= i < ph@.len() implies first_index_of(
                scope_names(var_views(args@)),
                (#[trigger] ph@[i]).name@,
            ) is Some by {
                let pv = phantoms(stmts_view(body2@));
                let p0 = phantoms(stmts_view(f0.body@));
                assert(scope_names(pv).len() == pv.len());
                assert(scope_names(p0).len() == p0.len());
                assert(var_views(ph@).len() == ph@.len());
                assert(scope_names(pv)[i] == scope_names(p0)[i]);
                assert(scope_names(pv)[i] == pv[i].name);
                assert(scope_names(p0)[i] == p0[i].name);
                assert(var_views(ph@)[i] == ph@[i]@);
                assert(p0[i].name == ph@[i].name@);
            }
        }
        apply_phantoms_exec(&mut args, &ph);
        let args2 = rename_args(args);
        let body3 = rn_block_exec(body2);
        out.push(
            MIRFunction { name, fn_type, ret_ty, args: args2, args_ty, body: body3, span, extern_import },
        );
        k = k + 1;
    }
    program.functions = out;
    true
}


// ---------------------------------------------------------------------------
// Uniqueness
// ---------------------------------------------------------------------------

/// The indices of the variables a block creates, nested blocks included,
/// in order.
pub open spec fn created_indices(b: Seq<StmtV>) -> Seq<Option<usize>>
    decreases b, b.len(),
{
    if b.len() == 0 {
        Seq::empty()
    } else {
        proof {
            axiom_seq_len_decreases(b, b.drop_last());
        }
        created_indices(b.drop_last()) + stmt_created_indices(b.last())
    }
}

/// The indices of the variables a statement creates, nested blocks
/// included, in order.
pub open spec fn stmt_created_indices(s: StmtV) -> Seq<Option<usize>>
    decreases s, 0nat,
{
    match s {
        StmtV::CreateVariable { var, .. } => seq![var.var_idx],
        StmtV::IfStatement { on_true, on_false, .. } => created_indices(on_true) + created_indices(
            on_false,
        ),
        StmtV::LoopStatement { body, iterate, .. } => created_indices(body) + created_indices(
            iterate,
        ),
        StmtV::ScopeStatement { body, .. } => created_indices(body),
        _ => Seq::empty(),
    }
}

/// The indices `n`, `n + 1`, ... up to `n + len` (excluded).
pub open spec fn index_run(n: nat, len: nat) -> Seq<Option<usize>> {
    Seq::new(len, |i: int| Some((n + i) as usize))
}

proof fn lemma_index_run_concat(n: nat, a: nat, b: nat)
    ensures
        index_run(n, a) + index_run(n + a, b) == index_run(n, a + b),
{
    assert(index_run(n, a) + index_run(n + a, b) =~= index_run(n, a + b));
}

proof fn lemma_num_block_indices(scope: Seq<VarV>, b: Seq<StmtV>, n: nat)
    ensures
        num_block(scope, b, n).1 == n + count_creates(b),
        created_indices(num_block(scope, b, n).0) == index_run(n, count_creates(b)),
    decreases b, 2nat,
{
    if b.len() == 0 {
        assert(index_run(n, 0) =~= Seq::<Option<usize>>::empty());
    } else {
        axiom_seq_len_decreases(b, b.drop_last());
        let p = num_block(scope, b.drop_last(), n);
        lemma_num_block_indices(scope, b.drop_last(), n);
        lemma_num_stmt_indices(scope + created_vars(p.0), b.last(), p.1);
        let x = num_stmt(scope + created_vars(p.0), b.last(), p.1);
        assert(p.0.push(x.0).drop_last() =~= p.0);
        assert(p.0.push(x.0).last() == x.0);
        lemma_index_run_concat(n, count_creates(b.drop_last()), stmt_creates(b.last()));
    }
}

proof fn lemma_num_stmt_indices(scope: Seq<VarV>, s: StmtV, n: nat)
    ensures
        num_stmt(scope, s, n).1 == n + stmt_creates(s),
        stmt_created_indices(num_stmt(scope, s, n).0) == index_run(n, stmt_creates(s)),
    decreases s, 1nat,
{
    match s {
        StmtV::IfStatement { condition, on_true, on_false, span } => {
            let t = num_block(scope, on_true, n);
            lemma_num_block_indices(scope, on_true, n);
            lemma_num_block_indices(scope, on_false, t.1);
            lemma_index_run_concat(n, count_creates(on_true), count_creates(on_false));
        },
        StmtV::LoopStatement { condition, body, iterate, span } => {
            let b = num_block(scope, body, n);
            lemma_num_block_indices(scope, body, n);
            lemma_num_block_indices(scope, iterate, b.1);
            lemma_index_run_concat(n, count_creates(body), count_creates(iterate));
        },
        StmtV::ScopeStatement { body, span } => {
            lemma_num_block_indices(scope, body, n);
        },
        StmtV::CreateVariable { .. } => {
            assert(index_run(n, 1) =~= seq![Some(n as usize)]);
        },
        _ => {
            assert(index_run(n, 0) =~= Seq::<Option<usize>>::empty());
        },
    }
}

/// The variables a block creates, nested blocks included, in order.
pub open spec fn all_created(b: Seq<StmtV>) -> Seq<VarV>
    decreases b, b.len(),
{
    if b.len() == 0 {
        Seq::empty()
    } else {
        proof {
            axiom_seq_len_decreases(b, b.drop_last());
        }
        all_created(b.drop_last()) + stmt_all_created(b.last())
    }
}

/// The variables a statement creates, nested blocks included, in order.
pub open spec fn stmt_all_created(s: StmtV) -> Seq<VarV>
    decreases s, 0nat,
{
    match s {
        StmtV::CreateVariable { var, .. } => seq![var],
        StmtV::IfStatement { on_true, on_false, .. } => all_created(on_true) + all_created(on_false),
        StmtV::LoopStatement { body, iterate, .. } => all_created(body) + all_created(iterate),
        StmtV::ScopeStatement { body, .. } => all_created(body),
        _ => Seq::empty(),
    }
}

proof fn lemma_all_created_indices(b: Seq<StmtV>)
    ensures
        all_created(b).map_values(|v: VarV| v.var_idx) == created_indices(b),
    decreases b, b.len(),
{
    if b.len() > 0 {
        axiom_seq_len_decreases(b, b.drop_last());
        lemma_all_created_indices(b.drop_last());
        lemma_stmt_all_created_indices(b.last());
        assert(all_created(b).map_values(|v: VarV| v.var_idx) =~= all_created(b.drop_last()).map_values(
            |v: VarV| v.var_idx,
        ) + stmt_all_created(b.last()).map_values(|v: VarV| v.var_idx));
    } else {
        assert(all_created(b).map_values(|v: VarV| v.var_idx) =~= created_indices(b));
    }
}

proof fn lemma_stmt_all_created_indices(s: StmtV)
    ensures
        stmt_all_created(s).map_values(|v: VarV| v.var_idx) == stmt_created_indices(s),
    decreases s, 0nat,
{
    match s {
        StmtV::IfStatement { on_true: x, on_false: y, .. } | StmtV::LoopStatement {
            body: x,
            iterate: y,
            ..
        } => {
            lemma_all_created_indices(x);
            lemma_all_created_indices(y);
            assert((all_created(x) + all_created(y)).map_values(|v: VarV| v.var_idx) =~= all_created(
                x,
            ).map_values(|v: VarV| v.var_idx) + all_created(y).map_values(|v: VarV| v.var_idx));
        },
        StmtV::ScopeStatement { body, .. } => {
            lemma_all_created_indices(body);
        },
        StmtV::CreateVariable { var, .. } => {
            assert(seq![var].map_values(|v: VarV| v.var_idx) =~= seq![var.var_idx]);
        },
        _ => {
            assert(stmt_all_created(s).map_values(|v: VarV| v.var_idx) =~= stmt_created_indices(s));
        },
    }
}

proof fn lemma_rn_all_created(b: Seq<StmtV>)
    ensures
        all_created(rn_block(b)) == all_created(b).map_values(|v: VarV| rn_var(v)),
    decreases b, 2nat,
{
    if b.len() > 0 {
        axiom_seq_len_decreases(b, b.drop_last());
        lemma_rn_all_created(b.drop_last());
        lemma_rn_stmt_all_created(b.last());
        let r = rn_block(b);
        assert(r.drop_last() =~= rn_block(b.drop_last()));
        assert(all_created(b).map_values(|v: VarV| rn_var(v)) =~= all_created(b.drop_last()).map_values(
            |v: VarV| rn_var(v),
        ) + stmt_all_created(b.last()).map_values(|v: VarV| rn_var(v)));
    } else {
        assert(all_created(b).map_values(|v: VarV| rn_var(v)) =~= Seq::<VarV>::empty());
    }
}

proof fn lemma_rn_stmt_all_created(s: StmtV)
    ensures
        stmt_all_created(rn_stmt(s)) == stmt_all_created(s).map_values(|v: VarV| rn_var(v)),
    decreases s, 1nat,
{
    match s {
        StmtV::IfStatement { on_true: x, on_false: y, .. } | StmtV::LoopStatement {
            body: x,
            iterate: y,
            ..
        } => {
            lemma_rn_all_created(x);
            lemma_rn_all_created(y);
            assert((all_created(x) + all_created(y)).map_values(|v: VarV| rn_var(v)) =~= all_created(
                x,
            ).map_values(|v: VarV| rn_var(v)) + all_created(y).map_values(|v: VarV| rn_var(v)));
        },
        StmtV::ScopeStatement { body, .. } => {
            lemma_rn_all_created(body);
        },
        StmtV::CreateVariable { var, .. } => {
            assert(seq![var].map_values(|v: VarV| rn_var(v)) =~= seq![rn_var(var)]);
        },
        _ => {
            assert(stmt_all_created(s).map_values(|v: VarV| rn_var(v)) =~= Seq::<VarV>::empty());
        },
    }
}

/// After [`make_vars_unique`], the variables a function body creates,
/// nested blocks included, have the indices 0, 1, 2, ... in the order they
/// are created, and no two of them share an index or a name.
pub proof fn lemma_numbered_vars_are_unique(f: MIRFunction, g: MIRFunction)
    requires
        can_number(f),
        vars_numbered(f, g),
    ensures
        all_created(stmts_view(g.body@)).len() == count_creates(stmts_view(f.body@)),
        forall|i: int|
            0 <= i < all_created(stmts_view(g.body@)).len() ==> (#[trigger] all_created(
                stmts_view(g.body@),
            )[i]).var_idx == Some(i as usize),
        forall|i: int, j: int|
            0 <= i < j < all_created(stmts_view(g.body@)).len() ==> (#[trigger] all_created(
                stmts_view(g.body@),
            )[i]).name != (#[trigger] all_created(stmts_view(g.body@))[j]).name,
{
    let numbered = num_block(Seq::empty(), stmts_view(f.body@), 0).0;
    let vs = all_created(numbered);
    let ws = all_created(stmts_view(g.body@));
    lemma_num_block_indices(Seq::empty(), stmts_view(f.body@), 0);
    lemma_all_created_indices(numbered);
    lemma_rn_all_created(numbered);
    let c = count_creates(stmts_view(f.body@));
    assert(vs.map_values(|v: VarV| v.var_idx).len() == vs.len());
    assert(vs.len() == c);
    assert(ws.len() == c);
    assert(c <= usize::MAX);
    assert forall|i: int| 0 <= i < ws.len() implies (#[trigger] ws[i]).var_idx == Some(i as usize) by {
        assert(vs.map_values(|v: VarV| v.var_idx)[i] == vs[i].var_idx);
        assert(index_run(0, count_creates(stmts_view(f.body@)))[i] == Some(i as usize));
    }
    assert forall|i: int, j: int| 0 <= i < j < ws.len() implies (#[trigger] ws[i]).name != (
    #[trigger] ws[j]).name by {
        assert(vs.map_values(|v: VarV| v.var_idx)[i] == vs[i].var_idx);
        assert(vs.map_values(|v: VarV| v.var_idx)[j] == vs[j].var_idx);
        assert(index_run(0, count_creates(stmts_view(f.body@)))[i] == Some(i as usize));
        assert(index_run(0, count_creates(stmts_view(f.body@)))[j] == Some(j as usize));
        assert(ws[i] == rn_var(vs[i]) && ws[j] == rn_var(vs[j]));
        lemma_unique_names_differ(vs[i].name, i as usize, vs[j].name, j as usize);
    }
}

} // verus!
