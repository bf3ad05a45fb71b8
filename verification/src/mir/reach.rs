//! Which functions a program can reach from its exported ones.

use super::overloads::{count_compatible_in, first_compatible_in};
use super::type_check::{find_overloads, first_index_of, overload_lists, overload_lists_names};
use super::view::{lemma_stmts_size_elems, stmt_size, stmts_size};
use super::expr::{call_size, expr_size, exprs_size, inner_size, lemma_exprs_size_elems};
use super::{
    MIRExpression, MIRExpressionInner, MIRFnCall, MIRFnSource, MIRFunction, MIRFunctionArgs,
    MIRFunctionType, MIRProgram, MIRStatement,
};
use vstd::prelude::*;
use vstd::seq::axiom_seq_len_decreases;

verus! {

/// A direct call: the name called and the argument types it was checked
/// with.
pub type DirectCall = (Seq<char>, Option<MIRFunctionArgs>);

// ---------------------------------------------------------------------------
// Calls
// ---------------------------------------------------------------------------

/// The direct calls in an expression, subexpressions first.
pub open spec fn expr_calls(e: MIRExpression) -> Seq<DirectCall>
    decreases e, 1nat,
{
    inner_calls(e.inner)
}

/// [`expr_calls`] of the inner part of an expression.
pub open spec fn inner_calls(i: MIRExpressionInner) -> Seq<DirectCall>
    decreases i, 0nat,
{
    match i {
        MIRExpressionInner::Add(l, r) => expr_calls(*l) + expr_calls(*r),
        MIRExpressionInner::Sub(l, r) => expr_calls(*l) + expr_calls(*r),
        MIRExpressionInner::Mul(l, r) => expr_calls(*l) + expr_calls(*r),
        MIRExpressionInner::Div(l, r) => expr_calls(*l) + expr_calls(*r),
        MIRExpressionInner::Equal(l, r) => expr_calls(*l) + expr_calls(*r),
        MIRExpressionInner::NotEqual(l, r) => expr_calls(*l) + expr_calls(*r),
        MIRExpressionInner::Less(l, r) => expr_calls(*l) + expr_calls(*r),
        MIRExpressionInner::Greater(l, r) => expr_calls(*l) + expr_calls(*r),
        MIRExpressionInner::LessEq(l, r) => expr_calls(*l) + expr_calls(*r),
        MIRExpressionInner::GreaterEq(l, r) => expr_calls(*l) + expr_calls(*r),
        MIRExpressionInner::BoolAnd(l, r) => expr_calls(*l) + expr_calls(*r),
        MIRExpressionInner::BoolOr(l, r) => expr_calls(*l) + expr_calls(*r),
        MIRExpressionInner::Index(l, r) => expr_calls(*l) + expr_calls(*r),
        MIRExpressionInner::Ref(x) => expr_calls(*x),
        MIRExpressionInner::Deref(x) => expr_calls(*x),
        MIRExpressionInner::Neg(x) => expr_calls(*x),
        MIRExpressionInner::Not(x) => expr_calls(*x),
        MIRExpressionInner::Member(x, _) => expr_calls(*x),
        MIRExpressionInner::Binding(_, x, _) => expr_calls(*x),
        MIRExpressionInner::Ternary(c, x, y) => expr_calls(*c) + expr_calls(*x) + expr_calls(*y),
        MIRExpressionInner::Array(v) => exprs_calls(v@),
        MIRExpressionInner::FunctionCall(c) => fncall_calls(*c),
        _ => Seq::empty(),
    }
}

/// The direct calls in a list of expressions, one after the other.
pub open spec fn exprs_calls(s: Seq<MIRExpression>) -> Seq<DirectCall>
    decreases s, s.len(),
{
    if s.len() == 0 {
        Seq::empty()
    } else {
        proof {
            axiom_seq_len_decreases(s, s.drop_last());
        }
        exprs_calls(s.drop_last()) + expr_calls(s.last())
    }
}

/// The direct calls in a call expression: those of an indirect callee and
/// of the arguments, then the call itself when it is direct.
pub open spec fn fncall_calls(c: MIRFnCall) -> Seq<DirectCall>
    decreases c, 0nat,
{
    match c.source {
        MIRFnSource::Indirect(e) => expr_calls(e) + exprs_calls(c.args@),
        MIRFnSource::Direct(n, _) => exprs_calls(c.args@) + seq![(n@, c.args_ty)],
    }
}

/// [`expr_calls`] of an optional expression.
pub open spec fn opt_calls(e: Option<MIRExpression>) -> Seq<DirectCall> {
    match e {
        Some(x) => expr_calls(x),
        None => Seq::empty(),
    }
}

/// The direct calls a statement makes, nested blocks included. A call
/// statement by name counts as that one call (its arguments are not
/// searched).
pub open spec fn stmt_calls(s: MIRStatement) -> Seq<DirectCall>
    decreases s, 0nat,
{
    match s {
        MIRStatement::FunctionCall(c) => match c.source {
            MIRFnSource::Direct(n, _) => seq![(n@, c.args_ty)],
            MIRFnSource::Indirect(e) => expr_calls(e) + exprs_calls(c.args@),
        },
        MIRStatement::CreateVariable { value, .. } => opt_calls(value),
        MIRStatement::SetVariable { place, value, .. } => expr_calls(place) + expr_calls(value),
        MIRStatement::AddAssign { place, value, .. } => expr_calls(place) + expr_calls(value),
        MIRStatement::SubAssign { place, value, .. } => expr_calls(place) + expr_calls(value),
        MIRStatement::MulAssign { place, value, .. } => expr_calls(place) + expr_calls(value),
        MIRStatement::DivAssign { place, value, .. } => expr_calls(place) + expr_calls(value),
        MIRStatement::IncrementVariable { place, .. } => expr_calls(place),
        MIRStatement::DecrementVariable { place, .. } => expr_calls(place),
        MIRStatement::Return { expr, .. } => opt_calls(expr),
        MIRStatement::GotoNotEqual { condition, .. } => expr_calls(condition),
        MIRStatement::IfStatement { condition, on_true, on_false, .. } => expr_calls(condition)
            + block_calls(on_true@) + block_calls(on_false@),
        MIRStatement::LoopStatement { condition, body, iterate, .. } => opt_calls(condition)
            + block_calls(body@) + block_calls(iterate@),
        MIRStatement::ScopeStatement { body, .. } => block_calls(body@),
        _ => Seq::empty(),
    }
}

/// The direct calls a block makes, statement by statement.
pub open spec fn block_calls(b: Seq<MIRStatement>) -> Seq<DirectCall>
    decreases b, b.len(),
{
    if b.len() == 0 {
        Seq::empty()
    } else {
        proof {
            axiom_seq_len_decreases(b, b.drop_last());
        }
        block_calls(b.drop_last()) + stmt_calls(b.last())
    }
}

// ---------------------------------------------------------------------------
// Callees
// ---------------------------------------------------------------------------

/// The function a direct call goes to: the one overload of the name that
/// accepts the call's argument types, if there is exactly one.
pub open spec fn callee_key(p: MIRProgram, c: DirectCall) -> Option<usize> {
    match c.1 {
        None => None,
        Some(a) => match first_index_of(overload_lists_names(overload_lists(p.function_names@)), c.0) {
            None => None,
            Some(i) => {
                let ov = p.function_names@[i].1@;
                if count_compatible_in(ov, a.args@) == 1 {
                    match first_compatible_in(ov, a.args@) {
                        Some(k) => Some(k.0),
                        None => None,
                    }
                } else {
                    None
                }
            },
        },
    }
}

/// The functions a list of calls goes to.
pub open spec fn callees(p: MIRProgram, cs: Seq<DirectCall>) -> Seq<Option<usize>> {
    cs.map_values(|c: DirectCall| callee_key(p, c))
}

/// Every call of the list goes to a function.
pub open spec fn all_resolve(p: MIRProgram, cs: Seq<DirectCall>) -> bool {
    forall|i: int| 0 <= i < cs.len() ==> (#[trigger] callee_key(p, cs[i])) is Some
}

/// The keys as present values.
pub open spec fn keyed(v: Seq<usize>) -> Seq<Option<usize>> {
    v.map_values(|x: usize| Some(x))
}

proof fn lemma_callees_concat(p: MIRProgram, a: Seq<DirectCall>, b: Seq<DirectCall>)
    ensures
        callees(p, a + b) == callees(p, a) + callees(p, b),
        all_resolve(p, a + b) == (all_resolve(p, a) && all_resolve(p, b)),
{
    assert(callees(p, a + b) =~= callees(p, a) + callees(p, b));
    if all_resolve(p, a + b) {
        assert forall|i: int| 0 <= i < b.len() implies (#[trigger] callee_key(p, b[i])) is Some by {
            assert((a + b)[a.len() + i] == b[i]);
        }
        assert forall|i: int| 0 <= i < a.len() implies (#[trigger] callee_key(p, a[i])) is Some by {
            assert((a + b)[i] == a[i]);
        }
    }
}

proof fn lemma_keyed_push(v: Seq<usize>, x: usize)
    ensures
        keyed(v.push(x)) == keyed(v).push(Some(x)),
{
    assert(keyed(v.push(x)) =~= keyed(v).push(Some(x)));
}

/// Appends the function the direct call goes to.
fn push_callee(
    p: &MIRProgram,
    name: &String,
    args_ty: &Option<MIRFunctionArgs>,
    out: &mut Vec<usize>,
)
    requires
        callee_key(*p, (name@, *args_ty)) is Some,
    ensures
        keyed(final(out)@) == keyed(old(out)@) + callees(*p, seq![(name@, *args_ty)]),
{
    let ghost c: DirectCall = (name@, *args_ty);
    assert(callees(*p, seq![c]) =~= seq![callee_key(*p, c)]);
    match args_ty {
        Some(a) => match find_overloads(&p.function_names, name) {
            Some(i) => match p.function_names[i].1.find_compatible(a.args.as_slice()) {
                Some(k) => {
                    proof {
                        lemma_keyed_push(out@, k.0);
                    }
                    out.push(k.0);
                },
                None => {},
            },
            None => {},
        },
        None => {},
    }
}


// ---------------------------------------------------------------------------
// Collecting callees
// ---------------------------------------------------------------------------

/// Appends the functions the direct calls of an expression go to.
fn collect_expr(p: &MIRProgram, e: &MIRExpression, out: &mut Vec<usize>)
    requires
        all_resolve(*p, expr_calls(*e)),
    ensures
        keyed(final(out)@) == keyed(old(out)@) + callees(*p, expr_calls(*e)),
    decreases expr_size(*e), 1nat,
{
    collect_inner(p, &e.inner, out);
}

/// Appends the callees of two expressions, one after the other.
fn collect_two(p: &MIRProgram, l: &MIRExpression, r: &MIRExpression, out: &mut Vec<usize>)
    requires
        all_resolve(*p, expr_calls(*l) + expr_calls(*r)),
    ensures
        keyed(final(out)@) == keyed(old(out)@) + callees(*p, expr_calls(*l) + expr_calls(*r)),
    decreases expr_size(*l) + expr_size(*r), 2nat,
{
    proof {
        lemma_callees_concat(*p, expr_calls(*l), expr_calls(*r));
    }
    let ghost o = keyed(out@);
    collect_expr(p, l, out);
    collect_expr(p, r, out);
    assert(keyed(out@) =~= o + callees(*p, expr_calls(*l) + expr_calls(*r)));
}

/// Appends the callees of the inner part of an expression.
#[verifier::spinoff_prover]
fn collect_inner(p: &MIRProgram, i: &MIRExpressionInner, out: &mut Vec<usize>)
    requires
        all_resolve(*p, inner_calls(*i)),
    ensures
        keyed(final(out)@) == keyed(old(out)@) + callees(*p, inner_calls(*i)),
    decreases inner_size(*i), 0nat,
{
    let ghost o = keyed(out@);
    match i {
        MIRExpressionInner::Add(l, r) | MIRExpressionInner::Sub(l, r)
        | MIRExpressionInner::Mul(l, r) | MIRExpressionInner::Div(l, r)
        | MIRExpressionInner::Equal(l, r) | MIRExpressionInner::NotEqual(l, r)
        | MIRExpressionInner::Less(l, r) | MIRExpressionInner::Greater(l, r)
        | MIRExpressionInner::LessEq(l, r) | MIRExpressionInner::GreaterEq(l, r)
        | MIRExpressionInner::BoolAnd(l, r) | MIRExpressionInner::BoolOr(l, r)
        | MIRExpressionInner::Index(l, r) => collect_two(p, l, r, out),
        MIRExpressionInner::Ref(x) | MIRExpressionInner::Deref(x) | MIRExpressionInner::Neg(x)
        | MIRExpressionInner::Not(x) | MIRExpressionInner::Member(x, _)
        | MIRExpressionInner::Binding(_, x, _) => collect_expr(p, x, out),
        MIRExpressionInner::Ternary(c, x, y) => {
            proof {
                lemma_callees_concat(*p, expr_calls(**c), expr_calls(**x) + expr_calls(**y));
                assert(expr_calls(**c) + expr_calls(**x) + expr_calls(**y) =~= expr_calls(**c) + (
                expr_calls(**x) + expr_calls(**y)));
            }
            collect_expr(p, c, out);
            collect_two(p, x, y, out);
            assert(keyed(out@) =~= o + callees(*p, inner_calls(*i)));
        },
        MIRExpressionInner::Array(v) => collect_exprs(p, v, out),
        MIRExpressionInner::FunctionCall(c) => collect_fncall(p, c, out),
        _ => {
            assert(keyed(out@) =~= o + callees(*p, inner_calls(*i)));
        },
    }
}

/// Appends the callees of a list of expressions.
fn collect_exprs(p: &MIRProgram, v: &Vec<MIRExpression>, out: &mut Vec<usize>)
    requires
        all_resolve(*p, exprs_calls(v@)),
    ensures
        keyed(final(out)@) == keyed(old(out)@) + callees(*p, exprs_calls(v@)),
    decreases exprs_size(v@), 0nat,
{
    proof {
        lemma_exprs_size_elems(v@);
    }
    let ghost o = keyed(out@);
    let mut k: usize = 0;
    assert(v@.take(0) =~= Seq::<MIRExpression>::empty());
    assert(o + callees(*p, Seq::<DirectCall>::empty()) =~= o);
    while k < v.len()
        invariant
            k <= v.len(),
            keyed(out@) == o + callees(*p, exprs_calls(v@.take(k as int))),
            all_resolve(*p, exprs_calls(v@)),
            forall|i: int| 0 <= i < v@.len() ==> expr_size(#[trigger] v@[i]) < exprs_size(v@),
        decreases v.len() - k,
    {
        proof {
            assert(v@.take(k as int + 1).drop_last() =~= v@.take(k as int));
            assert(v@.take(k as int + 1).last() == v@[k as int]);
            let rest = lemma_exprs_calls_prefix(v@, k as int + 1);
            lemma_callees_concat(*p, exprs_calls(v@.take(k as int + 1)), rest);
            assert(exprs_calls(v@.take(k as int + 1)) == exprs_calls(v@.take(k as int)) + expr_calls(
                v@[k as int],
            ));
            lemma_callees_concat(*p, exprs_calls(v@.take(k as int)), expr_calls(v@[k as int]));
        }
        collect_expr(p, &v[k], out);
        assert(keyed(out@) =~= o + callees(*p, exprs_calls(v@.take(k as int + 1))));
        k = k + 1;
    }
    assert(v@.take(v.len() as int) =~= v@);
}

proof fn lemma_exprs_calls_prefix(s: Seq<MIRExpression>, k: int) -> (rest: Seq<DirectCall>)
    requires
        0 <= k <= s.len(),
    ensures
        exprs_calls(s) == exprs_calls(s.take(k)) + rest,
    decreases s.len(),
{
    if k == s.len() {
        assert(s.take(k) =~= s);
        assert(exprs_calls(s) =~= exprs_calls(s.take(k)) + Seq::<DirectCall>::empty());
        Seq::empty()
    } else {
        let r = lemma_exprs_calls_prefix(s.drop_last(), k);
        assert(s.drop_last().take(k) =~= s.take(k));
        assert(exprs_calls(s) =~= exprs_calls(s.take(k)) + (r + expr_calls(s.last())));
        r + expr_calls(s.last())
    }
}

/// Appends the callees of a call expression.
fn collect_fncall(p: &MIRProgram, c: &MIRFnCall, out: &mut Vec<usize>)
    requires
        all_resolve(*p, fncall_calls(*c)),
    ensures
        keyed(final(out)@) == keyed(old(out)@) + callees(*p, fncall_calls(*c)),
    decreases call_size(*c), 0nat,
{
    let ghost o = keyed(out@);
    match &c.source {
        MIRFnSource::Indirect(e) => {
            proof {
                lemma_callees_concat(*p, expr_calls(*e), exprs_calls(c.args@));
            }
            collect_expr(p, e, out);
            collect_exprs(p, &c.args, out);
            assert(keyed(out@) =~= o + callees(*p, fncall_calls(*c)));
        },
        MIRFnSource::Direct(n, _) => {
            let ghost own: Seq<DirectCall> = seq![(n@, c.args_ty)];
            proof {
                lemma_callees_concat(*p, exprs_calls(c.args@), own);
                assert(own[0] == (n@, c.args_ty));
            }
            collect_exprs(p, &c.args, out);
            push_callee(p, n, &c.args_ty, out);
            assert(keyed(out@) =~= o + callees(*p, fncall_calls(*c)));
        },
    }
}


/// Appends the callees of an optional expression.
fn collect_opt(p: &MIRProgram, e: &Option<MIRExpression>, out: &mut Vec<usize>)
    requires
        all_resolve(*p, opt_calls(*e)),
    ensures
        keyed(final(out)@) == keyed(old(out)@) + callees(*p, opt_calls(*e)),
{
    match e {
        Some(x) => collect_expr(p, x, out),
        None => {
            assert(keyed(out@) =~= keyed(out@) + callees(*p, opt_calls(*e)));
        },
    }
}

/// Appends the callees of a statement, nested blocks included.
#[verifier::spinoff_prover]
fn collect_stmt(p: &MIRProgram, s: &MIRStatement, out: &mut Vec<usize>)
    requires
        all_resolve(*p, stmt_calls(*s)),
    ensures
        keyed(final(out)@) == keyed(old(out)@) + callees(*p, stmt_calls(*s)),
    decreases stmt_size(*s), 0nat,
{
    let ghost o = keyed(out@);
    match s {
        MIRStatement::FunctionCall(c) => match &c.source {
            MIRFnSource::Direct(n, _) => {
                assert(stmt_calls(*s)[0] == (n@, c.args_ty));
                push_callee(p, n, &c.args_ty, out);
            },
            MIRFnSource::Indirect(e) => {
                proof {
                    lemma_callees_concat(*p, expr_calls(*e), exprs_calls(c.args@));
                }
                collect_expr(p, e, out);
                collect_exprs(p, &c.args, out);
                assert(keyed(out@) =~= o + callees(*p, stmt_calls(*s)));
            },
        },
        MIRStatement::CreateVariable { value, .. } => collect_opt(p, value, out),
        MIRStatement::SetVariable { place, value, .. } | MIRStatement::AddAssign {
            place,
            value,
            ..
        } | MIRStatement::SubAssign { place, value, .. } | MIRStatement::MulAssign {
            place,
            value,
            ..
        } | MIRStatement::DivAssign { place, value, .. } => collect_two(p, place, value, out),
        MIRStatement::IncrementVariable { place, .. } | MIRStatement::DecrementVariable {
            place,
            ..
        } => collect_expr(p, place, out),
        MIRStatement::Return { expr, .. } => collect_opt(p, expr, out),
        MIRStatement::GotoNotEqual { condition, .. } => collect_expr(p, condition, out),
        MIRStatement::IfStatement { condition, on_true, on_false, .. } => {
            proof {
                lemma_stmts_size_elems(on_true@);
                lemma_callees_concat(
                    *p,
                    expr_calls(*condition) + block_calls(on_true@),
                    block_calls(on_false@),
                );
                lemma_callees_concat(*p, expr_calls(*condition), block_calls(on_true@));
            }
            collect_expr(p, condition, out);
            collect_block(p, on_true, out);
            collect_block(p, on_false, out);
            assert(keyed(out@) =~= o + callees(*p, stmt_calls(*s)));
        },
        MIRStatement::LoopStatement { condition, body, iterate, .. } => {
            proof {
                lemma_callees_concat(
                    *p,
                    opt_calls(*condition) + block_calls(body@),
                    block_calls(iterate@),
                );
                lemma_callees_concat(*p, opt_calls(*condition), block_calls(body@));
            }
            collect_opt(p, condition, out);
            collect_block(p, body, out);
            collect_block(p, iterate, out);
            assert(keyed(out@) =~= o + callees(*p, stmt_calls(*s)));
        },
        MIRStatement::ScopeStatement { body, .. } => collect_block(p, body, out),
        _ => {
            assert(keyed(out@) =~= o + callees(*p, stmt_calls(*s)));
        },
    }
}

proof fn lemma_block_calls_prefix(s: Seq<MIRStatement>, k: int) -> (rest: Seq<DirectCall>)
    requires
        0 <= k <= s.len(),
    ensures
        block_calls(s) == block_calls(s.take(k)) + rest,
    decreases s.len(),
{
    if k == s.len() {
        assert(s.take(k) =~= s);
        assert(block_calls(s) =~= block_calls(s.take(k)) + Seq::<DirectCall>::empty());
        Seq::empty()
    } else {
        let r = lemma_block_calls_prefix(s.drop_last(), k);
        assert(s.drop_last().take(k) =~= s.take(k));
        assert(block_calls(s) =~= block_calls(s.take(k)) + (r + stmt_calls(s.last())));
        r + stmt_calls(s.last())
    }
}

/// Appends the callees of a block, statement by statement.
fn collect_block(p: &MIRProgram, v: &Vec<MIRStatement>, out: &mut Vec<usize>)
    requires
        all_resolve(*p, block_calls(v@)),
    ensures
        keyed(final(out)@) == keyed(old(out)@) + callees(*p, block_calls(v@)),
    decreases stmts_size(v@), 1nat,
{
    proof {
        lemma_stmts_size_elems(v@);
    }
    let ghost o = keyed(out@);
    let mut k: usize = 0;
    assert(v@.take(0) =~= Seq::<MIRStatement>::empty());
    assert(o + callees(*p, Seq::<DirectCall>::empty()) =~= o);
    while k < v.len()
        invariant
            k <= v.len(),
            keyed(out@) == o + callees(*p, block_calls(v@.take(k as int))),
            all_resolve(*p, block_calls(v@)),
            forall|i: int| 0 <= i < v@.len() ==> stmt_size(#[trigger] v@[i]) < stmts_size(v@),
        decreases v.len() - k,
    {
        proof {
            assert(v@.take(k as int + 1).drop_last() =~= v@.take(k as int));
            assert(v@.take(k as int + 1).last() == v@[k as int]);
            let rest = lemma_block_calls_prefix(v@, k as int + 1);
            lemma_callees_concat(*p, block_calls(v@.take(k as int + 1)), rest);
            assert(block_calls(v@.take(k as int + 1)) == block_calls(v@.take(k as int))
                + stmt_calls(v@[k as int]));
            lemma_callees_concat(*p, block_calls(v@.take(k as int)), stmt_calls(v@[k as int]));
        }
        collect_stmt(p, &v[k], out);
        assert(keyed(out@) =~= o + callees(*p, block_calls(v@.take(k as int + 1))));
        k = k + 1;
    }
    assert(v@.take(v.len() as int) =~= v@);
}


// ---------------------------------------------------------------------------
// Reachability
// ---------------------------------------------------------------------------

/// The functions the body of function `f` calls directly, nested blocks
/// included.
pub open spec fn fn_callees(p: MIRProgram, f: int) -> Seq<Option<usize>> {
    callees(p, block_calls(p.functions@[f].body@))
}

/// A chain of functions, each calling the next directly, that starts at an
/// exported function.
pub open spec fn is_call_chain(p: MIRProgram, c: Seq<int>) -> bool {
    &&& c.len() > 0
    &&& forall|i: int| 0 <= i < c.len() ==> 0 <= #[trigger] c[i] < p.functions@.len()
    &&& p.functions@[c[0]].fn_type == MIRFunctionType::Export
    &&& forall|i: int|
        0 <= i < c.len() - 1 ==> fn_callees(p, #[trigger] c[i]).contains(Some(c[i + 1] as usize))
}

/// Function `f` can be reached from an exported function through direct
/// calls (an exported function reaches itself).
pub open spec fn reachable(p: MIRProgram, f: int) -> bool {
    exists|c: Seq<int>| #[trigger] is_call_chain(p, c) && c.last() == f
}

/// Every direct call in a reachable function goes to a function (as after
/// type checking).
pub open spec fn reachable_calls_resolve(p: MIRProgram) -> bool {
    forall|f: int|
        0 <= f < p.functions@.len() && #[trigger] reachable(p, f) ==> all_resolve(
            p,
            block_calls(p.functions@[f].body@),
        )
}

/// How many entries are false.
pub open spec fn count_false(s: Seq<bool>) -> nat
    decreases s.len(),
{
    if s.len() == 0 {
        0
    } else {
        count_false(s.drop_last()) + if s.last() {
            0nat
        } else {
            1nat
        }
    }
}

proof fn lemma_count_false_update(s: Seq<bool>, i: int)
    requires
        0 <= i < s.len(),
        !s[i],
    ensures
        count_false(s.update(i, true)) + 1 == count_false(s),
    decreases s.len(),
{
    if i < s.len() - 1 {
        lemma_count_false_update(s.drop_last(), i);
        assert(s.update(i, true).drop_last() =~= s.drop_last().update(i, true));
    } else {
        assert(s.update(i, true).drop_last() =~= s.drop_last());
    }
}

/// A function the overloads point to is a function of the program.
proof fn lemma_callee_in_program(p: MIRProgram, c: DirectCall)
    requires
        p.wf(),
    ensures
        callee_key(p, c) matches Some(k) ==> k < p.functions@.len(),
{
    match c.1 {
        None => {},
        Some(a) => {
            let names = overload_lists_names(overload_lists(p.function_names@));
            super::type_check::lemma_first_index_found(names, c.0);
            match first_index_of(names, c.0) {
                None => {},
                Some(i) => {
                    let ov = p.function_names@[i].1@;
                    lemma_first_compatible_member(ov, a.args@);
                },
            }
        },
    }
}

proof fn lemma_first_compatible_member(
    s: Seq<(MIRFunctionArgs, super::MIRFunctionKey)>,
    a: Seq<super::MIRTypeInner>,
)
    ensures
        first_compatible_in(s, a) matches Some(k) ==> exists|j: int| 0 <= j < s.len() && #[trigger] s[j].1 == k,
    decreases s.len(),
{
    if s.len() > 0 {
        lemma_first_compatible_member(s.drop_first(), a);
        if first_compatible_in(s.drop_first(), a) is Some && !super::overloads::spec_args_compatible(
            s[0].0,
            a,
        ) {
            let k = first_compatible_in(s.drop_first(), a)->0;
            let j = choose|j: int| 0 <= j < s.drop_first().len() && #[trigger] s.drop_first()[j].1 == k;
            assert(s[j + 1].1 == k);
        } else if s.len() > 0 && super::overloads::spec_args_compatible(s[0].0, a) {
            assert(s[0].1 == first_compatible_in(s, a)->0);
        }
    }
}


/// The search state: `visited` holds reachable functions only; the stack
/// holds visited functions, once each; a visited function off the stack
/// has all its callees visited.
pub open spec fn search_ok(p: MIRProgram, visited: Seq<bool>, stack: Seq<usize>) -> bool {
    &&& visited.len() == p.functions@.len()
    &&& forall|i: int| 0 <= i < visited.len() && #[trigger] visited[i] ==> reachable(p, i)
    &&& forall|i: int| 0 <= i < stack.len() ==> #[trigger] stack[i] < visited.len() && visited[stack[i] as int]
    &&& stack.no_duplicates()
    &&& forall|i: int|
        0 <= i < visited.len() && #[trigger] visited[i] && !stack.contains(i as usize) ==> callees_visited(
            p,
            visited,
            i,
        )
}

/// Every callee of function `f` is visited.
pub open spec fn callees_visited(p: MIRProgram, visited: Seq<bool>, f: int) -> bool {
    forall|j: int|
        0 <= j < fn_callees(p, f).len() ==> (#[trigger] fn_callees(p, f)[j] matches Some(c) && c
            < visited.len() && visited[c as int])
}

proof fn lemma_contains_push(s: Seq<usize>, x: usize, y: usize)
    ensures
        s.push(x).contains(y) == (s.contains(y) || x == y),
{
    if s.contains(y) {
        let i = choose|i: int| 0 <= i < s.len() && s[i] == y;
        assert(s.push(x)[i] == y);
    }
    if x == y {
        assert(s.push(x)[s.len() as int] == y);
    }
    if s.push(x).contains(y) {
        let i = choose|i: int| 0 <= i < s.push(x).len() && s.push(x)[i] == y;
        if i < s.len() {
            assert(s[i] == y);
        }
    }
}

proof fn lemma_push_no_duplicates(s: Seq<usize>, x: usize)
    requires
        s.no_duplicates(),
        !s.contains(x),
    ensures
        s.push(x).no_duplicates(),
{
    assert forall|i: int, j: int| 0 <= i < j < s.push(x).len() implies s.push(x)[i] != s.push(x)[j] by {
        if j == s.len() {
            assert(s[i] == s.push(x)[i]);
        }
    }
}

proof fn lemma_chain_push(p: MIRProgram, c: Seq<int>, g: int)
    requires
        is_call_chain(p, c),
        0 <= g < p.functions@.len(),
        fn_callees(p, c.last()).contains(Some(g as usize)),
    ensures
        is_call_chain(p, c.push(g)),
{
    let d = c.push(g);
    assert forall|i: int| 0 <= i < d.len() - 1 implies fn_callees(p, #[trigger] d[i]).contains(
        Some(d[i + 1] as usize),
    ) by {
        if i < c.len() - 1 {
            assert(d[i] == c[i] && d[i + 1] == c[i + 1]);
        } else {
            assert(d[i] == c.last() && d[i + 1] == g);
        }
    }
}

proof fn lemma_closed_covers_chain(p: MIRProgram, visited: Seq<bool>, c: Seq<int>)
    requires
        p.functions@.len() <= usize::MAX,
        search_ok(p, visited, Seq::empty()),
        forall|k: int|
            0 <= k < visited.len() && p.functions@[k].fn_type == MIRFunctionType::Export ==> #[trigger] visited[k],
        is_call_chain(p, c),
    ensures
        visited[c.last()],
    decreases c.len(),
{
    assert(c[c.len() - 1] == c.last());
    if c.len() > 1 {
        let d = c.drop_last();
        assert forall|i: int| 0 <= i < d.len() - 1 implies fn_callees(p, #[trigger] d[i]).contains(
            Some(d[i + 1] as usize),
        ) by {
            assert(d[i] == c[i] && d[i + 1] == c[i + 1]);
        }
        assert forall|i: int| 0 <= i < d.len() implies 0 <= #[trigger] d[i] < p.functions@.len() by {
            assert(d[i] == c[i]);
        }
        assert(is_call_chain(p, d));
        lemma_closed_covers_chain(p, visited, d);
        let f = c[c.len() - 2];
        assert(d.last() == f);
        assert(fn_callees(p, f).contains(Some(c.last() as usize)));
        let j = choose|j: int| 0 <= j < fn_callees(p, f).len() && fn_callees(p, f)[j] == Some(
            c.last() as usize,
        );
        assert(!Seq::<usize>::empty().contains(f as usize));
        assert(callees_visited(p, visited, f));
        assert(fn_callees(p, f)[j] matches Some(x) && x < visited.len() && visited[x as int]);
        assert(0 <= c.last() < p.functions@.len());
        assert((c.last() as usize) as int == c.last());
    } else {
        assert(c[0] == c.last());
        assert(0 <= c[0] < p.functions@.len());
        assert(visited[c[0]]);
    }
}

/// Which functions are reachable, by a search from the exported ones.
#[verifier::spinoff_prover]
#[verifier::rlimit(80)]
fn reachable_functions(p: &MIRProgram) -> (visited: Vec<bool>)
    requires
        p.wf(),
        reachable_calls_resolve(*p),
    ensures
        visited@.len() == p.functions@.len(),
        forall|k: int| 0 <= k < visited@.len() ==> #[trigger] visited@[k] == reachable(*p, k),
{
    let n = p.functions.len();
    let mut visited: Vec<bool> = Vec::new();
    let mut i: usize = 0;
    while i < n
        invariant
            i <= n,
            n == p.functions@.len(),
            visited@.len() == i,
            forall|j: int| 0 <= j < i ==> !#[trigger] visited@[j],
        decreases n - i,
    {
        visited.push(false);
        i = i + 1;
    }
    let mut stack: Vec<usize> = Vec::new();
    let mut k: usize = 0;
    while k < n
        invariant
            k <= n,
            n == p.functions@.len(),
            search_ok(*p, visited@, stack@),
            forall|j: int|
                0 <= j < k && p.functions@[j].fn_type == MIRFunctionType::Export ==> #[trigger] visited@[j],
            forall|j: int| 0 <= j < n && #[trigger] visited@[j] ==> stack@.contains(j as usize),
        decreases n - k,
    {
        let export = match p.functions[k].fn_type {
            MIRFunctionType::Export => true,
            _ => false,
        };
        if export && !visited[k] {
            let ghost old_stack = stack@;
            let ghost old_visited = visited@;
            proof {
                let c = seq![k as int];
                assert(is_call_chain(*p, c));
                assert(c.last() == k as int);
                assert(reachable(*p, k as int));
                assert(!old_stack.contains(k)) by {
                    if old_stack.contains(k) {
                        let i = choose|i: int| 0 <= i < old_stack.len() && old_stack[i] == k;
                        assert(old_visited[old_stack[i] as int]);
                    }
                }
                lemma_push_no_duplicates(old_stack, k);
            }
            visited.set(k, true);
            stack.push(k);
            proof {
                assert forall|j: int| 0 <= j < n && #[trigger] visited@[j] implies stack@.contains(
                    j as usize,
                ) by {
                    lemma_contains_push(old_stack, k, j as usize);
                }
            }
        }
        k = k + 1;
    }
    while stack.len() > 0
        invariant
            n == p.functions@.len(),
            p.wf(),
            reachable_calls_resolve(*p),
            search_ok(*p, visited@, stack@),
            forall|j: int|
                0 <= j < n && p.functions@[j].fn_type == MIRFunctionType::Export ==> #[trigger] visited@[j],
        decreases 2 * count_false(visited@) + stack@.len(),
    {
        let ghost before = stack@;
        let f = stack.pop().unwrap();
        let ghost fi = f as int;
        proof {
            assert(before == stack@.push(f));
            assert(before[before.len() - 1] == f);
            assert(!stack@.contains(f)) by {
                if stack@.contains(f) {
                    let i = choose|i: int| 0 <= i < stack@.len() && stack@[i] == f;
                    assert(before[i] == before[before.len() - 1]);
                }
            }
            assert(stack@.no_duplicates()) by {
                assert forall|i: int, j: int| 0 <= i < j < stack@.len() implies stack@[i] != stack@[j] by {
                    assert(before[i] == stack@[i] && before[j] == stack@[j]);
                }
            }
            assert forall|i: int| 0 <= i < stack@.len() implies #[trigger] stack@[i] < visited@.len()
                && visited@[stack@[i] as int] by {
                assert(before[i] == stack@[i]);
            }
            assert forall|i: int|
                0 <= i < visited@.len() && #[trigger] visited@[i] && !stack@.contains(i as usize) && i
                    != fi implies callees_visited(*p, visited@, i) by {
                lemma_contains_push(stack@, f, i as usize);
            }
        }
        assert(reachable(*p, fi));
        let mut ks: Vec<usize> = Vec::new();
        collect_block(p, &p.functions[f].body, &mut ks);
        assert(keyed(ks@) =~= fn_callees(*p, fi));
        let ghost m0 = 2 * count_false(visited@) + stack@.len();
        let mut j: usize = 0;
        while j < ks.len()
            invariant
                n == p.functions@.len(),
                p.wf(),
                0 <= fi < n,
                f == fi,
                keyed(ks@) == fn_callees(*p, fi),
                keyed(ks@).len() == ks@.len(),
                fn_callees(*p, fi).len() == block_calls(p.functions@[fi].body@).len(),
                reachable(*p, fi),
                visited@.len() == n,
                visited@[fi],
                !stack@.contains(f),
                forall|i: int| 0 <= i < visited@.len() && #[trigger] visited@[i] ==> reachable(*p, i),
                forall|i: int|
                    0 <= i < stack@.len() ==> #[trigger] stack@[i] < visited@.len() && visited@[stack@[i] as int],
                stack@.no_duplicates(),
                forall|i: int|
                    0 <= i < visited@.len() && #[trigger] visited@[i] && !stack@.contains(i as usize) && i
                        != fi ==> callees_visited(*p, visited@, i),
                forall|jj: int| 0 <= jj < j ==> #[trigger] ks@[jj] < n && visited@[ks@[jj] as int],
                forall|i: int|
                    0 <= i < n && p.functions@[i].fn_type == MIRFunctionType::Export ==> #[trigger] visited@[i],
                2 * count_false(visited@) + stack@.len() <= m0,
            decreases ks.len() - j,
        {
            let c = ks[j];
            proof {
                assert(keyed(ks@)[j as int] == Some(c));
                let call = block_calls(p.functions@[fi].body@)[j as int];
                assert(fn_callees(*p, fi)[j as int] == callee_key(*p, call));
                lemma_callee_in_program(*p, call);
            }
            if !visited[c] {
                let ghost old_stack = stack@;
                let ghost old_visited = visited@;
                proof {
                    let chain = choose|ch: Seq<int>| #[trigger] is_call_chain(*p, ch) && ch.last() == fi;
                    assert(fn_callees(*p, fi)[j as int] == Some(c));
                    assert(fn_callees(*p, fi).contains(Some(c)));
                    lemma_chain_push(*p, chain, c as int);
                    assert(chain.push(c as int).last() == c as int);
                    lemma_count_false_update(visited@, c as int);
                    assert(!old_stack.contains(c)) by {
                        if old_stack.contains(c) {
                            let i = choose|i: int| 0 <= i < old_stack.len() && old_stack[i] == c;
                            assert(old_visited[old_stack[i] as int]);
                        }
                    }
                    lemma_push_no_duplicates(old_stack, c);
                    lemma_contains_push(old_stack, c, f);
                }
                visited.set(c, true);
                stack.push(c);
                proof {
                    assert forall|i: int|
                        0 <= i < visited@.len() && #[trigger] visited@[i] && !stack@.contains(
                            i as usize,
                        ) && i != fi implies callees_visited(*p, visited@, i) by {
                        lemma_contains_push(old_stack, c, i as usize);
                        assert(callees_visited(*p, old_visited, i));
                    }
                }
            }
            j = j + 1;
        }
        proof {
            assert forall|jj: int| 0 <= jj < fn_callees(*p, fi).len() implies (#[trigger] fn_callees(
                *p,
                fi,
            )[jj] matches Some(c) && c < visited@.len() && visited@[c as int]) by {
                assert(keyed(ks@)[jj] == Some(ks@[jj]));
            }
            assert(callees_visited(*p, visited@, fi));
        }
    }
    proof {
        assert(stack@ =~= Seq::<usize>::empty());
        assert forall|k: int| 0 <= k < visited@.len() implies #[trigger] visited@[k] == reachable(
            *p,
            k,
        ) by {
            if reachable(*p, k) {
                let c = choose|c: Seq<int>| #[trigger] is_call_chain(*p, c) && c.last() == k;
                lemma_closed_covers_chain(*p, visited@, c);
            }
        }
    }
    visited
}


// ---------------------------------------------------------------------------
// Ordering imports
// ---------------------------------------------------------------------------

/// Byte strings in lexicographic order: `a` is at most `b`.
pub open spec fn lex_le(a: Seq<u8>, b: Seq<u8>) -> bool
    decreases a.len(),
{
    if a.len() == 0 {
        true
    } else if b.len() == 0 {
        false
    } else if a[0] != b[0] {
        a[0] < b[0]
    } else {
        lex_le(a.drop_first(), b.drop_first())
    }
}

/// Text in the order of its UTF-8 bytes (that of `String`'s `Ord`).
pub open spec fn text_le(a: Seq<char>, b: Seq<char>) -> bool {
    lex_le(vstd::utf8::encode_utf8(a), vstd::utf8::encode_utf8(b))
}

/// The texts of a list of strings.
pub open spec fn texts(s: Seq<String>) -> Seq<Seq<char>> {
    s.map_values(|x: String| x@)
}

/// The texts are in order.
pub open spec fn texts_sorted(s: Seq<Seq<char>>) -> bool {
    forall|i: int, j: int| 0 <= i < j < s.len() ==> text_le(#[trigger] s[i], #[trigger] s[j])
}

proof fn lemma_lex_total(a: Seq<u8>, b: Seq<u8>)
    ensures
        lex_le(a, b) || lex_le(b, a),
    decreases a.len(),
{
    if a.len() > 0 && b.len() > 0 && a[0] == b[0] {
        lemma_lex_total(a.drop_first(), b.drop_first());
    }
}

proof fn lemma_lex_trans(a: Seq<u8>, b: Seq<u8>, c: Seq<u8>)
    requires
        lex_le(a, b),
        lex_le(b, c),
    ensures
        lex_le(a, c),
    decreases a.len(),
{
    if a.len() > 0 && b.len() > 0 && c.len() > 0 && a[0] == b[0] && b[0] == c[0] {
        lemma_lex_trans(a.drop_first(), b.drop_first(), c.drop_first());
    }
}

/// Whether `a` comes before or with `b` in the order of their bytes.
fn bytes_le(a: &String, b: &String) -> (res: bool)
    ensures
        res == text_le(a@, b@),
{
    let x = a.as_str().as_bytes();
    let y = b.as_str().as_bytes();
    let ghost xs = x@;
    let ghost ys = y@;
    assert(xs == vstd::utf8::encode_utf8(a@));
    assert(ys == vstd::utf8::encode_utf8(b@));
    assert(xs.subrange(0, xs.len() as int) =~= xs);
    assert(ys.subrange(0, ys.len() as int) =~= ys);
    assert(xs.subrange(0, 0) =~= ys.subrange(0, 0));
    let mut i: usize = 0;
    while i < x.len() && i < y.len()
        invariant
            xs == x@,
            ys == y@,
            xs == vstd::utf8::encode_utf8(a@),
            ys == vstd::utf8::encode_utf8(b@),
            i <= xs.len(),
            i <= ys.len(),
            xs.subrange(0, i as int) == ys.subrange(0, i as int),
            lex_le(xs, ys) == lex_le(xs.subrange(i as int, xs.len() as int), ys.subrange(
                i as int,
                ys.len() as int,
            )),
        decreases x.len() - i,
    {
        if x[i] != y[i] {
            proof {
                let xr = xs.subrange(i as int, xs.len() as int);
                let yr = ys.subrange(i as int, ys.len() as int);
                assert(xr[0] == xs[i as int] && yr[0] == ys[i as int]);
                assert(xr.len() > 0 && yr.len() > 0 && xr[0] != yr[0]);
                assert(lex_le(xr, yr) == (xr[0] < yr[0]));
            }
            return x[i] < y[i];
        }
        proof {
            let xr = xs.subrange(i as int, xs.len() as int);
            let yr = ys.subrange(i as int, ys.len() as int);
            assert(xr[0] == xs[i as int] && yr[0] == ys[i as int]);
            assert(xr.drop_first() =~= xs.subrange(i + 1, xs.len() as int));
            assert(yr.drop_first() =~= ys.subrange(i + 1, ys.len() as int));
            assert(xs.subrange(0, i + 1) =~= xs.subrange(0, i as int).push(xs[i as int]));
            assert(ys.subrange(0, i + 1) =~= ys.subrange(0, i as int).push(ys[i as int]));
        }
        i = i + 1;
    }
    proof {
        let xr = xs.subrange(i as int, xs.len() as int);
        let yr = ys.subrange(i as int, ys.len() as int);
        assert(xr.len() == 0 || yr.len() == 0);
    }
    i == x.len()
}

/// Sorts strings in the order of their bytes, as `sort` on a `Vec<String>`
/// does.
fn sort_texts(v: Vec<String>) -> (res: Vec<String>)
    ensures
        texts(res@).to_multiset() == texts(v@).to_multiset(),
        texts_sorted(texts(res@)),
{
    let ghost orig = v@;
    let n = v.len();
    let mut rest = v;
    let mut out: Vec<String> = Vec::new();
    let mut k: usize = 0;
    assert(texts(orig.take(0)) =~= texts(out@));
    while k < n
        invariant
            n == orig.len(),
            k <= n,
            rest@ =~= orig.subrange(k as int, n as int),
            texts(out@).to_multiset() == texts(orig.take(k as int)).to_multiset(),
            texts_sorted(texts(out@)),
        decreases n - k,
    {
        let x = rest.remove(0);
        assert(x == orig[k as int]);
        let mut pos: usize = 0;
        while pos < out.len() && bytes_le(&out[pos], &x)
            invariant
                pos <= out@.len(),
                forall|i: int| 0 <= i < pos ==> text_le(#[trigger] texts(out@)[i], x@),
            decreases out.len() - pos,
        {
            pos = pos + 1;
        }
        let ghost before = texts(out@);
        proof {
            assert forall|i: int| pos <= i < before.len() implies text_le(x@, #[trigger] before[i]) by {
                assert(!text_le(before[pos as int], x@));
                lemma_lex_total(
                    vstd::utf8::encode_utf8(before[pos as int]),
                    vstd::utf8::encode_utf8(x@),
                );
                if i > pos {
                    assert(text_le(before[pos as int], before[i]));
                    lemma_lex_trans(
                        vstd::utf8::encode_utf8(x@),
                        vstd::utf8::encode_utf8(before[pos as int]),
                        vstd::utf8::encode_utf8(before[i]),
                    );
                }
            }
        }
        out.insert(pos, x);
        proof {
            let after = texts(out@);
            assert(after =~= before.insert(pos as int, orig[k as int]@));
            vstd::seq_lib::to_multiset_insert(before, pos as int, orig[k as int]@);
            assert(texts(orig.take(k as int + 1)) =~= texts(orig.take(k as int)).push(orig[k as int]@));
            vstd::seq_lib::to_multiset_build(texts(orig.take(k as int)), orig[k as int]@);
            assert forall|i: int, j: int| 0 <= i < j < after.len() implies text_le(
                #[trigger] after[i],
                #[trigger] after[j],
            ) by {
                if j < pos {
                    assert(after[i] == before[i] && after[j] == before[j]);
                } else if j == pos {
                    assert(after[i] == before[i]);
                } else if i < pos {
                    assert(after[i] == before[i] && after[j] == before[j - 1]);
                    lemma_lex_trans(
                        vstd::utf8::encode_utf8(before[i]),
                        vstd::utf8::encode_utf8(orig[k as int]@),
                        vstd::utf8::encode_utf8(before[j - 1]),
                    );
                } else if i == pos {
                    assert(after[j] == before[j - 1]);
                } else {
                    assert(after[i] == before[i - 1] && after[j] == before[j - 1]);
                }
            }
        }
        k = k + 1;
    }
    assert(orig.take(n as int) =~= orig);
    out
}


// ---------------------------------------------------------------------------
// Marking
// ---------------------------------------------------------------------------

/// The import function `k` needs, if it is an extern function with one.
pub open spec fn import_of(p: MIRProgram, k: int) -> Option<Seq<char>> {
    match p.functions@[k].extern_import {
        Some(i) => Some(i@),
        None => None,
    }
}

/// The imports of the reachable functions.
pub open spec fn reachable_imports(p: MIRProgram) -> Set<Seq<char>> {
    Set::new(
        |t: Seq<char>|
            exists|k: int| 0 <= k < p.functions@.len() && reachable(p, k) && #[trigger] import_of(p, k) == Some(t),
    )
}

/// The type a function has after marking: a reachable helper is exported.
pub open spec fn marked_type(p: MIRProgram, k: int) -> MIRFunctionType {
    if p.functions@[k].fn_type == MIRFunctionType::Helper && reachable(p, k) {
        MIRFunctionType::Export
    } else {
        p.functions@[k].fn_type
    }
}

/// Whether the list holds a string with the text of `s`.
fn has_text(v: &Vec<String>, s: &String) -> (res: bool)
    ensures
        res == texts(v@).contains(s@),
{
    let mut i: usize = 0;
    while i < v.len()
        invariant
            i <= v@.len(),
            forall|j: int| 0 <= j < i ==> v@[j]@ != s@,
        decreases v.len() - i,
    {
        if v[i].eq(s) {
            assert(texts(v@)[i as int] == s@);
            return true;
        }
        i = i + 1;
    }
    proof {
        if texts(v@).contains(s@) {
            let j = choose|j: int| 0 <= j < texts(v@).len() && texts(v@)[j] == s@;
            assert(v@[j]@ == s@);
        }
    }
    false
}

/// Marks what the exported functions reach through direct calls: every
/// reachable helper function becomes exported, and the import of every
/// reachable extern function is added, once, to the required imports,
/// which end up sorted by their bytes.
pub fn mark_reachable(program: &mut MIRProgram)
    requires
        old(program).wf(),
        reachable_calls_resolve(*old(program)),
    ensures
        final(program).functions@.len() == old(program).functions@.len(),
        forall|k: int|
            0 <= k < old(program).functions@.len() ==> {
                let f = #[trigger] old(program).functions@[k];
                let g = final(program).functions@[k];
                &&& g == (MIRFunction { fn_type: g.fn_type, ..f })
                &&& g.fn_type == marked_type(*old(program), k)
            },
        texts_sorted(texts(final(program).required_imports@)),
        forall|t: Seq<char>|
            #[trigger] texts(final(program).required_imports@).to_multiset().count(t) == texts(
                old(program).required_imports@,
            ).to_multiset().count(t) + if reachable_imports(*old(program)).contains(t) {
                1nat
            } else {
                0nat
            },
        *final(program) == (MIRProgram {
            functions: final(program).functions,
            required_imports: final(program).required_imports,
            ..*old(program)
        }),
{
    let ghost p0 = *program;
    let visited = reachable_functions(program);
    let n = program.functions.len();
    let mut found: Vec<String> = Vec::new();
    let mut k: usize = 0;
    while k < n
        invariant
            *program == p0,
            n == p0.functions@.len(),
            k <= n,
            visited@.len() == n,
            forall|j: int| 0 <= j < n ==> #[trigger] visited@[j] == reachable(p0, j),
            texts(found@).no_duplicates(),
            forall|t: Seq<char>|
                texts(found@).contains(t) <==> exists|j: int|
                    0 <= j < k && reachable(p0, j) && #[trigger] import_of(p0, j) == Some(t),
        decreases n - k,
    {
        let ghost before = texts(found@);
        if visited[k] {
            match &program.functions[k].extern_import {
                Some(imp) => {
                    if !has_text(&found, imp) {
                        found.push(imp.clone());
                        proof {
                            assert(texts(found@) =~= before.push(imp@));
                            assert forall|i: int, j: int|
                                0 <= i < j < texts(found@).len() implies texts(found@)[i] != texts(
                                found@,
                            )[j] by {
                                if j == before.len() {
                                    assert(texts(found@)[i] == before[i]);
                                    assert(before.contains(before[i]));
                                }
                            }
                        }
                    }
                },
                None => {},
            }
        }
        proof {
            assert forall|t: Seq<char>|
                texts(found@).contains(t) <==> exists|j: int|
                    0 <= j < k + 1 && reachable(p0, j) && #[trigger] import_of(p0, j) == Some(t) by {
                if texts(found@).contains(t) && !before.contains(t) {
                    assert(import_of(p0, k as int) == Some(t));
                }
                if exists|j: int| 0 <= j < k + 1 && reachable(p0, j) && #[trigger] import_of(p0, j) == Some(t) {
                    let j = choose|j: int|
                        0 <= j < k + 1 && reachable(p0, j) && #[trigger] import_of(p0, j) == Some(t);
                    if j == k {
                        if !before.contains(t) {
                            assert(texts(found@)[texts(found@).len() - 1] == t);
                        }
                    }
                }
                if before.contains(t) {
                    let i = choose|i: int| 0 <= i < before.len() && before[i] == t;
                    assert(texts(found@)[i] == t);
                }
            }
        }
        k = k + 1;
    }
    let mut fs: Vec<MIRFunction> = Vec::new();
    std::mem::swap(&mut fs, &mut program.functions);
    let ghost orig = fs@;
    let mut rest = fs;
    let mut out: Vec<MIRFunction> = Vec::new();
    let mut k: usize = 0;
    while k < n
        invariant
            n == orig.len(),
            orig == p0.functions@,
            k <= n,
            rest@ =~= orig.subrange(k as int, n as int),
            visited@.len() == n,
            forall|j: int| 0 <= j < n ==> #[trigger] visited@[j] == reachable(p0, j),
            out@.len() == k,
            forall|i: int|
                0 <= i < k ==> {
                    let f = #[trigger] orig[i];
                    let g = out@[i];
                    &&& g == (MIRFunction { fn_type: g.fn_type, ..f })
                    &&& g.fn_type == marked_type(p0, i)
                },
        decreases n - k,
    {
        let f = rest.remove(0);
        assert(f == orig[k as int]);
        let MIRFunction { name, fn_type, ret_ty, args, args_ty, body, span, extern_import } = f;
        let t = match fn_type {
            MIRFunctionType::Helper => if visited[k] {
                MIRFunctionType::Export
            } else {
                MIRFunctionType::Helper
            },
            other => other,
        };
        out.push(MIRFunction { name, fn_type: t, ret_ty, args, args_ty, body, span, extern_import });
        k = k + 1;
    }
    program.functions = out;
    let mut all: Vec<String> = Vec::new();
    std::mem::swap(&mut all, &mut program.required_imports);
    let ghost old_imports = all@;
    let ghost new_imports = found@;
    all.append(&mut found);
    let sorted = sort_texts(all);
    proof {
        assert(texts(old_imports + new_imports) =~= texts(old_imports) + texts(new_imports));
        vstd::seq_lib::lemma_multiset_commutative(texts(old_imports), texts(new_imports));
        texts(new_imports).lemma_multiset_has_no_duplicates();
        assert forall|t: Seq<char>|
            #[trigger] texts(sorted@).to_multiset().count(t) == texts(old_imports).to_multiset().count(t)
                + if reachable_imports(p0).contains(t) {
                1nat
            } else {
                0nat
            } by {
            vstd::seq_lib::to_multiset_contains(texts(new_imports), t);
            if reachable_imports(p0).contains(t) {
                assert(texts(new_imports).contains(t));
            } else {
                assert(!texts(new_imports).contains(t));
            }
        }
    }
    program.required_imports = sorted;
}

} // verus!
