//! Passes over the functions of a program.

use super::expr::{call_size, expr_size, exprs_size, inner_size, lemma_exprs_size_elems};
use super::type_check::{copy_var, find_var, last_index_of, names_of, typed_vars, var_views};
use super::view::{
    exprs_view, lemma_exprs_view_index, lemma_exprs_view_push, lemma_stmts_size_elems,
    lemma_stmts_view_add, lemma_stmts_view_index, lemma_stmts_view_push, stmt_size, stmts_size,
    stmts_view, CallV, ExprV, InnerV, SourceV, StmtV, VarV,
};
use super::{
    MIRDeclarationKey, MIRExpression, MIRExpressionInner, MIRFnCall, MIRFnSource, MIRFunction,
    MIRFunctionType, MIRProgram, MIRStatement, MIRVariable,
};
use vstd::prelude::*;
use vstd::seq::axiom_seq_len_decreases;

verus! {

/// The statements that create a function's arguments as (phantom)
/// variables, in order, without values.
pub open spec fn arg_creations(args: Seq<VarV>) -> Seq<StmtV> {
    args.map_values(|a: VarV| StmtV::CreateVariable { var: a, value: None, span: a.span })
}

/// A function whose body starts by creating its arguments as variables.
pub open spec fn with_arg_vars(old_f: MIRFunction, new_f: MIRFunction) -> bool {
    &&& stmts_view(new_f.body@) == arg_creations(var_views(old_f.args@)) + stmts_view(old_f.body@)
    &&& new_f == (MIRFunction { body: new_f.body, ..old_f })
}

/// Inserts, at the start of a function's body, a statement creating each
/// argument as a (phantom) variable.
pub fn insert_arg_vars(function: MIRFunction) -> (res: MIRFunction)
    ensures
        with_arg_vars(function, res),
{
    let MIRFunction { name, fn_type, ret_ty, args, args_ty, body, span, extern_import } = function;
    let mut created: Vec<MIRStatement> = Vec::new();
    let mut i: usize = 0;
    while i < args.len()
        invariant
            i <= args@.len(),
            created@.len() == i,
            forall|j: int|
                0 <= j < i ==> (#[trigger] created@[j])@ == (StmtV::CreateVariable {
                    var: args@[j]@,
                    value: None,
                    span: args@[j].span@,
                }),
        decreases args@.len() - i,
    {
        let a = &args[i];
        let var = MIRVariable {
            name: a.name.clone(),
            ty: super::type_check::copy_ty(&a.ty),
            arg: a.arg,
            var_idx: a.var_idx,
            span: a.span.clone(),
        };
        created.push(MIRStatement::CreateVariable { var, value: None, span: a.span.clone() });
        i = i + 1;
    }
    let ghost c = created@;
    let ghost b = body@;
    let mut new_body = created;
    let mut rest = body;
    new_body.append(&mut rest);
    proof {
        lemma_stmts_view_index(c);
        lemma_stmts_view_add(c, b);
        assert(stmts_view(c) =~= arg_creations(var_views(args@)));
    }
    MIRFunction { name, fn_type, ret_ty, args, args_ty, body: new_body, span, extern_import }
}

/// Inserts, at the start of every function's body, a statement creating
/// each of its arguments as a (phantom) variable; nothing else changes.
pub fn insert_fn_arg_args(program: &mut MIRProgram)
    ensures
        final(program).functions@.len() == old(program).functions@.len(),
        forall|i: int|
            0 <= i < old(program).functions@.len() ==> with_arg_vars(
                #[trigger] old(program).functions@[i],
                final(program).functions@[i],
            ),
        *final(program) == (MIRProgram { functions: final(program).functions, ..*old(program) }),
{
    let mut fs: Vec<MIRFunction> = Vec::new();
    std::mem::swap(&mut fs, &mut program.functions);
    let ghost orig = fs@;
    let n = fs.len();
    let mut rest = fs;
    let mut out: Vec<MIRFunction> = Vec::new();
    let mut k: usize = 0;
    while k < n
        invariant
            n == orig.len(),
            k <= n,
            rest@ =~= orig.subrange(k as int, n as int),
            out@.len() == k,
            forall|i: int| 0 <= i < k ==> with_arg_vars(#[trigger] orig[i], out@[i]),
        decreases n - k,
    {
        let f = rest.remove(0);
        assert(f == orig[k as int]);
        out.push(insert_arg_vars(f));
        k = k + 1;
    }
    program.functions = out;
}

// ---------------------------------------------------------------------------
// Calls through variables
// ---------------------------------------------------------------------------

/// An expression in which every call by a name that is a variable in scope
/// (one of `names`) becomes a call through that variable.
pub open spec fn resolve_expr(names: Seq<Seq<char>>, e: ExprV) -> ExprV
    decreases e, 1nat,
{
    ExprV { inner: resolve_inner(names, e.inner), ..e }
}

/// [`resolve_expr`] on the inner part of an expression.
pub open spec fn resolve_inner(names: Seq<Seq<char>>, i: InnerV) -> InnerV
    decreases i, 0nat,
{
    match i {
        InnerV::Add(l, r) => InnerV::Add(Box::new(resolve_expr(names, *l)), Box::new(resolve_expr(names, *r))),
        InnerV::Sub(l, r) => InnerV::Sub(Box::new(resolve_expr(names, *l)), Box::new(resolve_expr(names, *r))),
        InnerV::Mul(l, r) => InnerV::Mul(Box::new(resolve_expr(names, *l)), Box::new(resolve_expr(names, *r))),
        InnerV::Div(l, r) => InnerV::Div(Box::new(resolve_expr(names, *l)), Box::new(resolve_expr(names, *r))),
        InnerV::Equal(l, r) => InnerV::Equal(Box::new(resolve_expr(names, *l)), Box::new(resolve_expr(names, *r))),
        InnerV::NotEqual(l, r) => InnerV::NotEqual(Box::new(resolve_expr(names, *l)), Box::new(resolve_expr(names, *r))),
        InnerV::Less(l, r) => InnerV::Less(Box::new(resolve_expr(names, *l)), Box::new(resolve_expr(names, *r))),
        InnerV::Greater(l, r) => InnerV::Greater(Box::new(resolve_expr(names, *l)), Box::new(resolve_expr(names, *r))),
        InnerV::LessEq(l, r) => InnerV::LessEq(Box::new(resolve_expr(names, *l)), Box::new(resolve_expr(names, *r))),
        InnerV::GreaterEq(l, r) => InnerV::GreaterEq(Box::new(resolve_expr(names, *l)), Box::new(resolve_expr(names, *r))),
        InnerV::BoolAnd(l, r) => InnerV::BoolAnd(Box::new(resolve_expr(names, *l)), Box::new(resolve_expr(names, *r))),
        InnerV::BoolOr(l, r) => InnerV::BoolOr(Box::new(resolve_expr(names, *l)), Box::new(resolve_expr(names, *r))),
        InnerV::Index(l, r) => InnerV::Index(Box::new(resolve_expr(names, *l)), Box::new(resolve_expr(names, *r))),
        InnerV::Ref(x) => InnerV::Ref(Box::new(resolve_expr(names, *x))),
        InnerV::Deref(x) => InnerV::Deref(Box::new(resolve_expr(names, *x))),
        InnerV::Neg(x) => InnerV::Neg(Box::new(resolve_expr(names, *x))),
        InnerV::Not(x) => InnerV::Not(Box::new(resolve_expr(names, *x))),
        InnerV::Member(x, f) => InnerV::Member(Box::new(resolve_expr(names, *x)), f),
        InnerV::Binding(l, x, r) => InnerV::Binding(l, Box::new(resolve_expr(names, *x)), r),
        InnerV::Ternary(c, t, f) => InnerV::Ternary(
            Box::new(resolve_expr(names, *c)),
            Box::new(resolve_expr(names, *t)),
            Box::new(resolve_expr(names, *f)),
        ),
        InnerV::Array(s) => InnerV::Array(resolve_exprs(names, s)),
        InnerV::FunctionCall(c) => InnerV::FunctionCall(Box::new(resolve_call(names, *c))),
        _ => i,
    }
}

/// [`resolve_expr`] on each expression of a list.
pub open spec fn resolve_exprs(names: Seq<Seq<char>>, s: Seq<ExprV>) -> Seq<ExprV>
    decreases s, s.len(),
{
    if s.len() == 0 {
        s
    } else {
        proof {
            axiom_seq_len_decreases(s, s.drop_last());
        }
        resolve_exprs(names, s.drop_last()).push(resolve_expr(names, s.last()))
    }
}

/// A call with its callee and arguments resolved: a call by the name of a
/// variable in scope becomes a call through that variable (at the name's
/// span, with no type yet).
pub open spec fn resolve_call(names: Seq<Seq<char>>, c: CallV) -> CallV
    decreases c, 0nat,
{
    CallV {
        source: match c.source {
            SourceV::Indirect(e) => SourceV::Indirect(resolve_expr(names, e)),
            SourceV::Direct(n, sp) => if last_index_of(names, n) is Some {
                SourceV::Indirect(ExprV { inner: InnerV::Variable(n, None), ty: None, span: sp })
            } else {
                c.source
            },
        },
        args: resolve_exprs(names, c.args),
        ..c
    }
}

/// The names of variables in scope.
pub open spec fn scope_names(scope: Seq<VarV>) -> Seq<Seq<char>> {
    scope.map_values(|v: VarV| v.name)
}

/// The variables the statements of a block create, in order (not those of
/// nested blocks).
pub open spec fn created_vars(b: Seq<StmtV>) -> Seq<VarV>
    decreases b.len(),
{
    if b.len() == 0 {
        Seq::empty()
    } else {
        created_vars(b.drop_last()) + created_by(b.last())
    }
}

/// The variable a statement creates, if any.
pub open spec fn created_by(s: StmtV) -> Seq<VarV> {
    match s {
        StmtV::CreateVariable { var, .. } => seq![var],
        _ => Seq::empty(),
    }
}

/// [`resolve_expr`] on an optional expression.
pub open spec fn resolve_opt(names: Seq<Seq<char>>, e: Option<ExprV>) -> Option<ExprV> {
    match e {
        Some(x) => Some(resolve_expr(names, x)),
        None => None,
    }
}

/// A statement with the calls of the values it computes resolved (the
/// places written to, and a loop's condition, are left as they are); the
/// statements of nested blocks are resolved with their own scopes.
pub open spec fn resolve_stmt(scope: Seq<VarV>, s: StmtV) -> StmtV
    decreases s, 1nat,
{
    let names = scope_names(scope);
    match s {
        StmtV::CreateVariable { var, value, span } => StmtV::CreateVariable {
            var,
            value: resolve_opt(names, value),
            span,
        },
        StmtV::SetVariable { place, value, span } => StmtV::SetVariable {
            place,
            value: resolve_expr(names, value),
            span,
        },
        StmtV::AddAssign { place, value, span } => StmtV::AddAssign {
            place,
            value: resolve_expr(names, value),
            span,
        },
        StmtV::SubAssign { place, value, span } => StmtV::SubAssign {
            place,
            value: resolve_expr(names, value),
            span,
        },
        StmtV::MulAssign { place, value, span } => StmtV::MulAssign {
            place,
            value: resolve_expr(names, value),
            span,
        },
        StmtV::DivAssign { place, value, span } => StmtV::DivAssign {
            place,
            value: resolve_expr(names, value),
            span,
        },
        StmtV::FunctionCall(c) => StmtV::FunctionCall(resolve_call(names, c)),
        StmtV::GotoNotEqual { name, index, condition, span } => StmtV::GotoNotEqual {
            name,
            index,
            condition: resolve_expr(names, condition),
            span,
        },
        StmtV::Return { expr, span } => StmtV::Return { expr: resolve_opt(names, expr), span },
        StmtV::IfStatement { condition, on_true, on_false, span } => StmtV::IfStatement {
            condition: resolve_expr(names, condition),
            on_true: resolve_block(scope, on_true),
            on_false: resolve_block(scope, on_false),
            span,
        },
        StmtV::LoopStatement { condition, body, iterate, span } => StmtV::LoopStatement {
            condition,
            body: resolve_block(scope, body),
            iterate: resolve_block(scope, iterate),
            span,
        },
        StmtV::ScopeStatement { body, span } => StmtV::ScopeStatement {
            body: resolve_block(scope, body),
            span,
        },
        _ => s,
    }
}

/// The statements of a block resolved in order, each with the variables
/// created before it in the block in scope.
pub open spec fn resolve_block(scope: Seq<VarV>, b: Seq<StmtV>) -> Seq<StmtV>
    decreases b, 2nat,
{
    if b.len() == 0 {
        b
    } else {
        proof {
            axiom_seq_len_decreases(b, b.drop_last());
        }
        resolve_block(scope, b.drop_last()).push(
            resolve_stmt(scope + created_vars(b.drop_last()), b.last()),
        )
    }
}

/// The names of the variables of a scope.
pub open spec fn vnames(vars: Seq<MIRVariable>) -> Seq<Seq<char>> {
    names_of(typed_vars(vars))
}

/// The names of a scope's variables are those of their models.
proof fn lemma_vnames(vars: Seq<MIRVariable>)
    ensures
        vnames(vars) == scope_names(var_views(vars)),
{
    assert(vnames(vars) =~= scope_names(var_views(vars)));
}

/// Computes [`resolve_expr`], consuming the expression.
fn resolve_owned(vars: &Vec<MIRVariable>, e: MIRExpression) -> (res: MIRExpression)
    ensures
        res@ == resolve_expr(vnames(vars@), e@),
    decreases expr_size(e), 2nat,
{
    let MIRExpression { inner, ty, span } = e;
    MIRExpression { inner: resolve_inner_exec(vars, inner), ty, span }
}

/// Computes [`resolve_expr`] of a boxed expression.
fn resolve_box(vars: &Vec<MIRVariable>, x: Box<MIRExpression>) -> (res: Box<MIRExpression>)
    ensures
        (*res)@ == resolve_expr(vnames(vars@), (*x)@),
    decreases expr_size(*x), 3nat,
{
    Box::new(resolve_owned(vars, *x))
}

/// Computes [`resolve_inner`], consuming the inner part.
#[verifier::spinoff_prover]
fn resolve_inner_exec(vars: &Vec<MIRVariable>, i: MIRExpressionInner) -> (res: MIRExpressionInner)
    ensures
        res@ == resolve_inner(vnames(vars@), i@),
    decreases inner_size(i), 1nat,
{
    match i {
        MIRExpressionInner::Add(l, r) => MIRExpressionInner::Add(resolve_box(vars, l), resolve_box(vars, r)),
        MIRExpressionInner::Sub(l, r) => MIRExpressionInner::Sub(resolve_box(vars, l), resolve_box(vars, r)),
        MIRExpressionInner::Mul(l, r) => MIRExpressionInner::Mul(resolve_box(vars, l), resolve_box(vars, r)),
        MIRExpressionInner::Div(l, r) => MIRExpressionInner::Div(resolve_box(vars, l), resolve_box(vars, r)),
        MIRExpressionInner::Equal(l, r) => MIRExpressionInner::Equal(resolve_box(vars, l), resolve_box(vars, r)),
        MIRExpressionInner::NotEqual(l, r) => MIRExpressionInner::NotEqual(resolve_box(vars, l), resolve_box(vars, r)),
        MIRExpressionInner::Less(l, r) => MIRExpressionInner::Less(resolve_box(vars, l), resolve_box(vars, r)),
        MIRExpressionInner::Greater(l, r) => MIRExpressionInner::Greater(resolve_box(vars, l), resolve_box(vars, r)),
        MIRExpressionInner::LessEq(l, r) => MIRExpressionInner::LessEq(resolve_box(vars, l), resolve_box(vars, r)),
        MIRExpressionInner::GreaterEq(l, r) => MIRExpressionInner::GreaterEq(resolve_box(vars, l), resolve_box(vars, r)),
        MIRExpressionInner::BoolAnd(l, r) => MIRExpressionInner::BoolAnd(resolve_box(vars, l), resolve_box(vars, r)),
        MIRExpressionInner::BoolOr(l, r) => MIRExpressionInner::BoolOr(resolve_box(vars, l), resolve_box(vars, r)),
        MIRExpressionInner::Index(l, r) => MIRExpressionInner::Index(resolve_box(vars, l), resolve_box(vars, r)),
        MIRExpressionInner::Ref(x) => MIRExpressionInner::Ref(resolve_box(vars, x)),
        MIRExpressionInner::Deref(x) => MIRExpressionInner::Deref(resolve_box(vars, x)),
        MIRExpressionInner::Neg(x) => MIRExpressionInner::Neg(resolve_box(vars, x)),
        MIRExpressionInner::Not(x) => MIRExpressionInner::Not(resolve_box(vars, x)),
        MIRExpressionInner::Member(x, f) => MIRExpressionInner::Member(resolve_box(vars, x), f),
        MIRExpressionInner::Binding(l, x, r) => MIRExpressionInner::Binding(l, resolve_box(vars, x), r),
        MIRExpressionInner::Ternary(c, t, f) => MIRExpressionInner::Ternary(
            resolve_box(vars, c),
            resolve_box(vars, t),
            resolve_box(vars, f),
        ),
        MIRExpressionInner::Array(v) => MIRExpressionInner::Array(resolve_vec(vars, v)),
        MIRExpressionInner::FunctionCall(c) => MIRExpressionInner::FunctionCall(
            Box::new(resolve_call_exec(vars, *c)),
        ),
        other => other,
    }
}

/// Computes [`resolve_exprs`], consuming the list.
fn resolve_vec(vars: &Vec<MIRVariable>, v: Vec<MIRExpression>) -> (res: Vec<MIRExpression>)
    ensures
        exprs_view(res@) == resolve_exprs(vnames(vars@), exprs_view(v@)),
    decreases exprs_size(v@), 0nat,
{
    let ghost orig = v@;
    let ghost names = vnames(vars@);
    proof {
        lemma_exprs_size_elems(orig);
        assert(orig.take(0) =~= Seq::<MIRExpression>::empty());
        assert(exprs_view(Seq::<MIRExpression>::empty()) =~= Seq::<ExprV>::empty());
    }
    let n = v.len();
    let mut rest = v;
    let mut out: Vec<MIRExpression> = Vec::new();
    let mut k: usize = 0;
    while k < n
        invariant
            n == orig.len(),
            k <= n,
            names == vnames(vars@),
            rest@ =~= orig.subrange(k as int, n as int),
            exprs_view(out@) == resolve_exprs(names, exprs_view(orig.take(k as int))),
            forall|i: int| 0 <= i < orig.len() ==> expr_size(#[trigger] orig[i]) < exprs_size(orig),
            exprs_size(orig) == exprs_size(v@),
        decreases n - k,
    {
        let x = rest.remove(0);
        assert(x == orig[k as int]);
        assert(expr_size(x) < exprs_size(v@));
        proof {
            assert(orig.take(k as int + 1) =~= orig.take(k as int).push(x));
            lemma_exprs_view_push(orig.take(k as int), x);
            assert(exprs_view(orig.take(k as int + 1)).drop_last() =~= exprs_view(orig.take(k as int)));
        }
        let y = resolve_owned(vars, x);
        proof {
            lemma_exprs_view_push(out@, y);
        }
        out.push(y);
        k = k + 1;
    }
    assert(orig.take(n as int) =~= orig);
    out
}

/// Whether a name is that of a variable in scope.
fn in_scope(vars: &Vec<MIRVariable>, name: &String) -> (res: bool)
    ensures
        res == (last_index_of(vnames(vars@), name@) is Some),
{
    find_var(vars, name).is_some()
}

/// Computes [`resolve_call`], consuming the call.
fn resolve_call_exec(vars: &Vec<MIRVariable>, c: MIRFnCall) -> (res: MIRFnCall)
    ensures
        res@ == resolve_call(vnames(vars@), c@),
    decreases call_size(c), 0nat,
{
    let MIRFnCall { source, args, args_ty, ret_ty, span } = c;
    let source2 = match source {
        MIRFnSource::Indirect(e) => MIRFnSource::Indirect(resolve_owned(vars, e)),
        MIRFnSource::Direct(n, sp) => {
            if in_scope(vars, &n) {
                MIRFnSource::Indirect(
                    MIRExpression { inner: MIRExpressionInner::Variable(n, None), ty: None, span: sp },
                )
            } else {
                MIRFnSource::Direct(n, sp)
            }
        },
    };
    MIRFnCall { source: source2, args: resolve_vec(vars, args), args_ty, ret_ty, span }
}

/// Computes [`resolve_opt`].
fn resolve_opt_exec(vars: &Vec<MIRVariable>, e: Option<MIRExpression>) -> (res: Option<MIRExpression>)
    ensures
        match (res, resolve_opt(vnames(vars@), match e {
            Some(x) => Some(x@),
            None => None,
        })) {
            (Some(x), Some(y)) => x@ == y,
            (None, None) => true,
            _ => false,
        },
{
    match e {
        Some(x) => Some(resolve_owned(vars, x)),
        None => None,
    }
}

/// Computes [`resolve_stmt`] for statements with no nested block.
#[verifier::spinoff_prover]
fn resolve_flat(vars: &Vec<MIRVariable>, s: MIRStatement) -> (res: MIRStatement)
    requires
        !(s is IfStatement || s is LoopStatement || s is ScopeStatement),
    ensures
        res@ == resolve_stmt(var_views(vars@), s@),
{
    proof {
        lemma_vnames(vars@);
    }
    match s {
        MIRStatement::CreateVariable { var, value, span } => MIRStatement::CreateVariable {
            var,
            value: resolve_opt_exec(vars, value),
            span,
        },
        MIRStatement::SetVariable { place, value, span } => MIRStatement::SetVariable { place, value: resolve_owned(vars, value), span },
        MIRStatement::AddAssign { place, value, span } => MIRStatement::AddAssign { place, value: resolve_owned(vars, value), span },
        MIRStatement::SubAssign { place, value, span } => MIRStatement::SubAssign { place, value: resolve_owned(vars, value), span },
        MIRStatement::MulAssign { place, value, span } => MIRStatement::MulAssign { place, value: resolve_owned(vars, value), span },
        MIRStatement::DivAssign { place, value, span } => MIRStatement::DivAssign { place, value: resolve_owned(vars, value), span },
        MIRStatement::FunctionCall(c) => MIRStatement::FunctionCall(resolve_call_exec(vars, c)),
        MIRStatement::GotoNotEqual { name, index, condition, span } => MIRStatement::GotoNotEqual {
            name,
            index,
            condition: resolve_owned(vars, condition),
            span,
        },
        MIRStatement::Return { expr, span } => MIRStatement::Return {
            expr: resolve_opt_exec(vars, expr),
            span,
        },
        other => other,
    }
}

/// Computes [`resolve_stmt`]; the scope is the same afterwards.
#[verifier::spinoff_prover]
fn resolve_stmt_exec(vars: &mut Vec<MIRVariable>, s: MIRStatement) -> (res: MIRStatement)
    ensures
        res@ == resolve_stmt(var_views(old(vars)@), s@),
        final(vars)@ == old(vars)@,
    decreases stmt_size(s), 1nat,
{
    let ghost v0 = vars@;
    proof {
        lemma_vnames(vars@);
    }
    match s {
        MIRStatement::IfStatement { condition, on_true, on_false, span } => {
            proof {
                lemma_stmts_size_elems(on_true@);
            }
            let c = resolve_owned(vars, condition);
            let len = vars.len();
            let t = resolve_block_exec(vars, on_true);
            vars.truncate(len);
            assert(vars@ =~= v0);
            let f = resolve_block_exec(vars, on_false);
            vars.truncate(len);
            assert(vars@ =~= v0);
            MIRStatement::IfStatement { condition: c, on_true: t, on_false: f, span }
        },
        MIRStatement::LoopStatement { condition, body, iterate, span } => {
            let len = vars.len();
            let b = resolve_block_exec(vars, body);
            vars.truncate(len);
            assert(vars@ =~= v0);
            let i = resolve_block_exec(vars, iterate);
            vars.truncate(len);
            assert(vars@ =~= v0);
            MIRStatement::LoopStatement { condition, body: b, iterate: i, span }
        },
        MIRStatement::ScopeStatement { body, span } => {
            let len = vars.len();
            let b = resolve_block_exec(vars, body);
            vars.truncate(len);
            assert(vars@ =~= v0);
            MIRStatement::ScopeStatement { body: b, span }
        },
        other => resolve_flat(vars, other),
    }
}

/// Resolving a statement keeps the variable it creates.
proof fn lemma_resolve_keeps_created(scope: Seq<VarV>, s: StmtV)
    ensures
        created_by(resolve_stmt(scope, s)) == created_by(s),
{
}

/// Adds the variable a statement creates, if any, to the scope.
fn add_created(vars: &mut Vec<MIRVariable>, y: &MIRStatement)
    ensures
        var_views(final(vars)@) == var_views(old(vars)@) + created_by(y@),
        old(vars)@.len() <= final(vars)@.len(),
        final(vars)@.take(old(vars)@.len() as int) == old(vars)@,
{
    let ghost before = vars@;
    match y {
        MIRStatement::CreateVariable { var, .. } => {
            vars.push(copy_var(var));
        },
        _ => {},
    }
    assert(var_views(vars@) =~= var_views(before) + created_by(y@));
    assert(vars@.take(before.len() as int) =~= before);
}

/// Computes [`resolve_block`], adding the variables the block creates to
/// the scope.
#[verifier::spinoff_prover]
fn resolve_block_exec(vars: &mut Vec<MIRVariable>, b: Vec<MIRStatement>) -> (res: Vec<MIRStatement>)
    ensures
        stmts_view(res@) == resolve_block(var_views(old(vars)@), stmts_view(b@)),
        var_views(final(vars)@) == var_views(old(vars)@) + created_vars(stmts_view(b@)),
        old(vars)@.len() <= final(vars)@.len(),
        final(vars)@.take(old(vars)@.len() as int) == old(vars)@,
    decreases stmts_size(b@), 2nat,
{
    let ghost orig = b@;
    let ghost v0 = vars@;
    let ghost bv = stmts_view(b@);
    proof {
        lemma_stmts_size_elems(orig);
        lemma_stmts_view_index(orig);
        assert(bv.take(0) =~= Seq::<StmtV>::empty());
        assert(stmts_view(Seq::<MIRStatement>::empty()) =~= Seq::<StmtV>::empty());
        assert(var_views(v0) + created_vars(bv.take(0)) =~= var_views(v0));
        assert(v0.take(v0.len() as int) =~= v0);
    }
    let n = b.len();
    let mut rest = b;
    let mut out: Vec<MIRStatement> = Vec::new();
    let mut k: usize = 0;
    while k < n
        invariant
            n == orig.len(),
            k <= n,
            bv == stmts_view(orig),
            bv.len() == n,
            forall|j: int| 0 <= j < n ==> #[trigger] bv[j] == orig[j]@,
            rest@ =~= orig.subrange(k as int, n as int),
            stmts_view(out@) == resolve_block(var_views(v0), bv.take(k as int)),
            var_views(vars@) == var_views(v0) + created_vars(bv.take(k as int)),
            v0.len() <= vars@.len(),
            vars@.take(v0.len() as int) == v0,
            forall|i: int| 0 <= i < orig.len() ==> stmt_size(#[trigger] orig[i]) < stmts_size(orig),
            stmts_size(orig) == stmts_size(b@),
        decreases n - k,
    {
        let x = rest.remove(0);
        assert(x == orig[k as int]);
        assert(stmt_size(x) < stmts_size(b@));
        proof {
            assert(bv.take(k as int + 1).drop_last() =~= bv.take(k as int));
            assert(bv.take(k as int + 1).last() == x@);
        }
        let ghost mid = vars@;
        let y = resolve_stmt_exec(vars, x);
        add_created(vars, &y);
        proof {
            lemma_stmts_view_push(out@, y);
            lemma_resolve_keeps_created(var_views(mid), x@);
            assert(var_views(vars@) =~= var_views(v0) + created_vars(bv.take(k as int + 1)));
            assert(vars@.take(v0.len() as int) =~= mid.take(v0.len() as int));
        }
        out.push(y);
        k = k + 1;
    }
    assert(bv.take(n as int) =~= bv);
    out
}

/// Turns every call by the name of a variable in scope into a call through
/// that variable, in the bodies of all functions (see [`resolve_block`]);
/// nothing else changes.
pub fn resolve_fns_to_vars(program: &mut MIRProgram)
    ensures
        final(program).functions@.len() == old(program).functions@.len(),
        forall|i: int|
            0 <= i < old(program).functions@.len() ==> {
                let f = #[trigger] old(program).functions@[i];
                let g = final(program).functions@[i];
                &&& g == (MIRFunction { body: g.body, ..f })
                &&& stmts_view(g.body@) == resolve_block(Seq::empty(), stmts_view(f.body@))
            },
        *final(program) == (MIRProgram { functions: final(program).functions, ..*old(program) }),
{
    let mut fs: Vec<MIRFunction> = Vec::new();
    std::mem::swap(&mut fs, &mut program.functions);
    let ghost orig = fs@;
    let n = fs.len();
    let mut rest = fs;
    let mut out: Vec<MIRFunction> = Vec::new();
    let mut k: usize = 0;
    while k < n
        invariant
            n == orig.len(),
            k <= n,
            rest@ =~= orig.subrange(k as int, n as int),
            out@.len() == k,
            forall|i: int|
                0 <= i < k ==> {
                    let f = #[trigger] orig[i];
                    let g = out@[i];
                    &&& g == (MIRFunction { body: g.body, ..f })
                    &&& stmts_view(g.body@) == resolve_block(Seq::empty(), stmts_view(f.body@))
                },
        decreases n - k,
    {
        let f = rest.remove(0);
        assert(f == orig[k as int]);
        let MIRFunction { name, fn_type, ret_ty, args, args_ty, body, span, extern_import } = f;
        let mut vars: Vec<MIRVariable> = Vec::new();
        assert(var_views(vars@) =~= Seq::<VarV>::empty());
        let body2 = resolve_block_exec(&mut vars, body);
        out.push(MIRFunction { name, fn_type, ret_ty, args, args_ty, body: body2, span, extern_import });
        k = k + 1;
    }
    program.functions = out;
}


// ---------------------------------------------------------------------------
// Pruning
// ---------------------------------------------------------------------------

/// Whether a declaration stays in the output when pruning: every one but
/// a function that is not exported.
pub open spec fn kept_by_pruning(p: MIRProgram, k: MIRDeclarationKey) -> bool {
    match k {
        MIRDeclarationKey::Function(f) => p.functions@[f.0 as int].fn_type
            == MIRFunctionType::Export,
        _ => true,
    }
}

/// [`kept_by_pruning`] as a predicate on the keys of `p`.
pub open spec fn pruning_keeps(p: MIRProgram) -> spec_fn(MIRDeclarationKey) -> bool {
    |k: MIRDeclarationKey| kept_by_pruning(p, k)
}

/// Removes from the output (the list of declarations) every function that
/// is not exported; the items themselves stay in the program.
pub fn prune_functions(program: &mut MIRProgram)
    requires
        forall|i: int|
            0 <= i < old(program).decls@.len() ==> (#[trigger] old(program).decls@[i] matches MIRDeclarationKey::Function(
                f,
            ) ==> f.0 < old(program).functions@.len()),
    ensures
        final(program).decls@ == old(program).decls@.filter(pruning_keeps(*old(program))),
        *final(program) == (MIRProgram { decls: final(program).decls, ..*old(program) }),
{
    let ghost p0 = *program;
    let mut out: Vec<MIRDeclarationKey> = Vec::new();
    let mut i: usize = 0;
    assert(program.decls@.take(0) =~= Seq::<MIRDeclarationKey>::empty());
    while i < program.decls.len()
        invariant
            *program == p0,
            i <= program.decls@.len(),
            out@ == program.decls@.take(i as int).filter(pruning_keeps(p0)),
            forall|j: int|
                0 <= j < p0.decls@.len() ==> (#[trigger] p0.decls@[j] matches MIRDeclarationKey::Function(
                    f,
                ) ==> f.0 < p0.functions@.len()),
        decreases program.decls@.len() - i,
    {
        let k = program.decls[i];
        let kept = match k {
            MIRDeclarationKey::Function(f) => {
                assert(p0.decls@[i as int] matches MIRDeclarationKey::Function(g) && g == f);
                match program.functions[f.0].fn_type {
                    MIRFunctionType::Export => true,
                    _ => false,
                }
            },
            _ => true,
        };
        assert(pruning_keeps(p0)(k) == kept_by_pruning(p0, k));
        assert(kept == kept_by_pruning(p0, k));
        proof {
            reveal(Seq::filter);
            assert(program.decls@.take(i as int + 1).drop_last() =~= program.decls@.take(i as int));
            assert(program.decls@.take(i as int + 1).last() == k);
        }
        if kept {
            out.push(k);
        }
        i = i + 1;
    }
    assert(program.decls@.take(program.decls@.len() as int) =~= program.decls@);
    program.decls = out;
}

} // verus!
