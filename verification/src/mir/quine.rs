//! Checks on where markers may stand.

use super::expr::{
    call_exprs, children_postorder, expr_size, exprs_size, inner_size, lemma_exprs_size_elems,
    postorder, postorder_seq, stmt_exprs,
};
use super::view::{lemma_stmts_size_elems, stmt_size, stmts_size};
use super::{
    MIRConstant, MIRDeclarationKey, MIRExpression, MIRExpressionInner, MIRFnSource, MIRFunction,
    MIRFunctionType, MIRProgram, MIRStatement,
};
use crate::parser::span::Span;
use vstd::prelude::*;

verus! {

/// The first of two optional results.
pub open spec fn first_of(a: Option<Span>, b: Option<Span>) -> Option<Span> {
    match a {
        Some(x) => Some(x),
        None => b,
    }
}

/// The span of the first binding among `s`, if any.
pub open spec fn first_binding(s: Seq<MIRExpression>) -> Option<Span>
    decreases s.len(),
{
    if s.len() == 0 {
        None
    } else {
        first_of(
            first_binding(s.drop_last()),
            if s.last().inner is Binding {
                Some(s.last().span)
            } else {
                None
            },
        )
    }
}

/// The first binding of a concatenation is that of the first part, if any.
pub proof fn lemma_first_binding_concat(a: Seq<MIRExpression>, b: Seq<MIRExpression>)
    ensures
        first_binding(a + b) == first_of(first_binding(a), first_binding(b)),
    decreases b.len(),
{
    if b.len() == 0 {
        assert(a + b =~= a);
    } else {
        assert((a + b).drop_last() =~= a + b.drop_last());
        lemma_first_binding_concat(a, b.drop_last());
    }
}

/// The span of the first binding among the subexpressions of a list of
/// expressions, each list item explored in turn.
pub open spec fn first_binding_in(es: Seq<(MIRExpression, bool)>) -> Option<Span>
    decreases es.len(),
{
    if es.len() == 0 {
        None
    } else {
        first_of(first_binding_in(es.drop_last()), first_binding(postorder(es.last().0)))
    }
}

/// What makes a statement an invalid place for markers, if anything: a
/// marker or binding in its nested blocks (in order), then the statement
/// itself being a marker, then a binding in its own expressions.
pub open spec fn first_marker_stmt(s: MIRStatement) -> Option<Span>
    decreases s, 0nat,
{
    let own = match s {
        MIRStatement::MarkerStatement { span, .. } => Some(span),
        _ => first_binding_in(stmt_exprs(s)),
    };
    match s {
        MIRStatement::IfStatement { on_true, on_false, .. } => first_of(
            first_marker_block(on_true@),
            first_of(first_marker_block(on_false@), own),
        ),
        MIRStatement::LoopStatement { body, iterate, .. } => first_of(
            first_marker_block(body@),
            first_of(first_marker_block(iterate@), own),
        ),
        MIRStatement::ScopeStatement { body, .. } => first_of(first_marker_block(body@), own),
        _ => own,
    }
}

/// The span of the first marker or binding in a block, statements in order.
pub open spec fn first_marker_block(b: Seq<MIRStatement>) -> Option<Span>
    decreases b, b.len(),
{
    if b.len() == 0 {
        None
    } else {
        proof {
            vstd::seq::axiom_seq_len_decreases(b, b.drop_last());
        }
        first_of(first_marker_block(b.drop_last()), first_marker_stmt(b.last()))
    }
}

fn or_else_two(a: Option<Span>, l: &MIRExpression, r: &MIRExpression) -> (res: Option<Span>)
    requires
        a == first_binding(postorder(*l)),
    ensures
        res == first_binding(postorder(*l) + postorder(*r)),
    decreases expr_size(*l) + expr_size(*r), 2nat,
{
    proof {
        lemma_first_binding_concat(postorder(*l), postorder(*r));
    }
    match a {
        Some(x) => Some(x),
        None => find_binding(r),
    }
}

fn binding_in_children(inner: &MIRExpressionInner) -> (res: Option<Span>)
    ensures
        res == first_binding(children_postorder(*inner)),
    decreases inner_size(*inner), 0nat,
{
    match inner {
        MIRExpressionInner::Add(l, r) | MIRExpressionInner::Sub(l, r) | MIRExpressionInner::Mul(l, r) | MIRExpressionInner::Div(l, r) | MIRExpressionInner::Equal(l, r) | MIRExpressionInner::NotEqual(l, r) | MIRExpressionInner::Less(l, r) | MIRExpressionInner::Greater(l, r) | MIRExpressionInner::LessEq(l, r) | MIRExpressionInner::GreaterEq(l, r) | MIRExpressionInner::BoolAnd(l, r) | MIRExpressionInner::BoolOr(l, r) | MIRExpressionInner::Index(l, r) => {
            let a = find_binding(l);
            or_else_two(a, l, r)
        },
        MIRExpressionInner::Ref(x) | MIRExpressionInner::Deref(x) | MIRExpressionInner::Neg(x) | MIRExpressionInner::Not(x) => find_binding(x),
        MIRExpressionInner::Member(x, _) => find_binding(x),
        MIRExpressionInner::Binding(_, x, _) => find_binding(x),
        MIRExpressionInner::Ternary(c, x, y) => {
            proof {
                assert(postorder(**c) + postorder(**x) + postorder(**y) =~= postorder(**c) + (
                postorder(**x) + postorder(**y)));
                lemma_first_binding_concat(postorder(**c), postorder(**x) + postorder(**y));
            }
            match find_binding(c) {
                Some(sp) => Some(sp),
                None => {
                    let a = find_binding(x);
                    or_else_two(a, x, y)
                },
            }
        },
        MIRExpressionInner::Array(v) => binding_in_seq(v),
        MIRExpressionInner::FunctionCall(c) => match &c.source {
            MIRFnSource::Indirect(e) => {
                proof {
                    lemma_first_binding_concat(postorder(*e), postorder_seq(c.args@));
                }
                match find_binding(e) {
                    Some(sp) => Some(sp),
                    None => binding_in_seq(&c.args),
                }
            },
            MIRFnSource::Direct(_, _) => binding_in_seq(&c.args),
        },
        _ => None,
    }
}

fn binding_in_seq(v: &Vec<MIRExpression>) -> (res: Option<Span>)
    ensures
        res == first_binding(postorder_seq(v@)),
    decreases exprs_size(v@), 0nat,
{
    let n = v.len();
    let mut k: usize = 0;
    let mut found: Option<Span> = None;
    proof {
        lemma_exprs_size_elems(v@);
        assert(v@.take(0) =~= Seq::<MIRExpression>::empty());
    }
    while k < n
        invariant
            n == v.len(),
            k <= n,
            found == first_binding(postorder_seq(v@.take(k as int))),
            forall|i: int| 0 <= i < v.len() ==> expr_size(#[trigger] v@[i]) < exprs_size(v@),
        decreases n - k,
    {
        assert(v@.take(k as int + 1).drop_last() =~= v@.take(k as int));
        assert(v@.take(k as int + 1).last() == v@[k as int]);
        proof {
            lemma_first_binding_concat(postorder_seq(v@.take(k as int)), postorder(v@[k as int]));
        }
        if found.is_none() {
            found = find_binding(&v[k]);
        }
        k = k + 1;
    }
    assert(v@.take(n as int) =~= v@);
    found
}

fn find_binding(e: &MIRExpression) -> (res: Option<Span>)
    ensures
        res == first_binding(postorder(*e)),
    decreases expr_size(*e), 1nat,
{
    proof {
        lemma_first_binding_concat(children_postorder(e.inner), seq![*e]);
        assert(seq![*e].drop_last() =~= Seq::<MIRExpression>::empty());
        assert(first_binding(Seq::<MIRExpression>::empty()) == None::<Span>);
        assert(postorder(*e) == children_postorder(e.inner) + seq![*e]);
    }
    match binding_in_children(&e.inner) {
        Some(sp) => Some(sp),
        None => match &e.inner {
            MIRExpressionInner::Binding(..) => Some(e.span.clone()),
            _ => None,
        },
    }
}

/// Checks that an expression, standing where markers are not allowed,
/// holds no binding. Returns the span of the first binding, in the order
/// in which the expression is explored, as the error.
pub fn ensure_no_markers_expression(expr: &MIRExpression) -> (res: Result<(), Span>)
    ensures
        res == match first_binding(postorder(*expr)) {
            Some(sp) => Err(sp),
            None => Ok(()),
        },
{
    match find_binding(expr) {
        Some(sp) => Err(sp),
        None => Ok(()),
    }
}

fn binding_in_vec_args(v: &Vec<MIRExpression>, go: Option<Span>) -> (res: Option<Span>)
    ensures
        res == first_of(
            go,
            first_binding_in(v@.map_values(|a: MIRExpression| (a, false))),
        ),
{
    let ghost s = v@.map_values(|a: MIRExpression| (a, false));
    let n = v.len();
    let mut k: usize = 0;
    let mut found = go;
    assert(s.take(0) =~= Seq::<(MIRExpression, bool)>::empty());
    while k < n
        invariant
            n == v.len(),
            k <= n,
            s == v@.map_values(|a: MIRExpression| (a, false)),
            found == first_of(go, first_binding_in(s.take(k as int))),
        decreases n - k,
    {
        assert(s.take(k as int + 1).drop_last() =~= s.take(k as int));
        assert(s.take(k as int + 1).last() == (v@[k as int], false));
        if found.is_none() {
            found = find_binding(&v[k]);
        }
        k = k + 1;
    }
    assert(s.take(n as int) =~= s);
    found
}

proof fn lemma_first_binding_in_single(e: MIRExpression, w: bool)
    ensures
        first_binding_in(seq![(e, w)]) == first_binding(postorder(e)),
{
    assert(seq![(e, w)].drop_last() =~= Seq::<(MIRExpression, bool)>::empty());
    assert(first_binding_in(Seq::<(MIRExpression, bool)>::empty()) == None::<Span>);
}

fn binding_in_stmt_exprs(s: &MIRStatement) -> (res: Option<Span>)
    ensures
        res == first_binding_in(stmt_exprs(*s)),
{
    let ghost es = stmt_exprs(*s);
    assert(first_binding_in(Seq::<(MIRExpression, bool)>::empty()) == None::<Span>);
    match s {
        MIRStatement::CreateVariable { value: Some(e), .. } => {
            proof {
                lemma_first_binding_in_single(*e, es[0].1);
                assert(es == seq![(*e, es[0].1)]);
            }
            find_binding(e)
        },
        MIRStatement::LoopStatement { condition: Some(e), .. } => {
            proof {
                lemma_first_binding_in_single(*e, es[0].1);
                assert(es == seq![(*e, es[0].1)]);
            }
            find_binding(e)
        },
        MIRStatement::IfStatement { condition: e, .. } => {
            proof {
                lemma_first_binding_in_single(*e, es[0].1);
                assert(es == seq![(*e, es[0].1)]);
            }
            find_binding(e)
        },
        MIRStatement::GotoNotEqual { condition: e, .. } => {
            proof {
                lemma_first_binding_in_single(*e, es[0].1);
                assert(es == seq![(*e, es[0].1)]);
            }
            find_binding(e)
        },
        MIRStatement::IncrementVariable { place: e, .. } => {
            proof {
                lemma_first_binding_in_single(*e, es[0].1);
                assert(es == seq![(*e, es[0].1)]);
            }
            find_binding(e)
        },
        MIRStatement::DecrementVariable { place: e, .. } => {
            proof {
                lemma_first_binding_in_single(*e, es[0].1);
                assert(es == seq![(*e, es[0].1)]);
            }
            find_binding(e)
        },
        MIRStatement::Return { expr: Some(e), .. } => {
            proof {
                lemma_first_binding_in_single(*e, es[0].1);
                assert(es == seq![(*e, es[0].1)]);
            }
            find_binding(e)
        },
        MIRStatement::SetVariable { place, value, .. } | MIRStatement::AddAssign { place, value, .. } | MIRStatement::SubAssign { place, value, .. } | MIRStatement::MulAssign { place, value, .. } | MIRStatement::DivAssign { place, value, .. } => {
            assert(es.drop_last().drop_last() =~= Seq::<(MIRExpression, bool)>::empty());
            assert(es.drop_last().last().0 == *place);
            assert(es.last().0 == *value);
            assert(es.drop_last().drop_last() =~= Seq::<(MIRExpression, bool)>::empty());
            assert(first_binding_in(es.drop_last()) == first_binding(postorder(*place)));
            let a = find_binding(place);
            let r = match a {
                Some(sp) => Some(sp),
                None => find_binding(value),
            };
            assert(r == first_binding_in(es));
            r
        },
        MIRStatement::FunctionCall(c) => {
            let ghost args = c.args@.map_values(|a: MIRExpression| (a, false));
            match &c.source {
                MIRFnSource::Indirect(e) => {
                    proof {
                        lemma_first_binding_in_concat(seq![(*e, false)], args);
                        assert(seq![(*e, false)].drop_last() =~= Seq::<(MIRExpression, bool)>::empty());
                        assert(seq![(*e, false)].last().0 == *e);
                        assert(es == seq![(*e, false)] + args);
                    }
                    let a = find_binding(e);
                    binding_in_vec_args(&c.args, a)
                },
                MIRFnSource::Direct(_, _) => {
                    assert(es == args);
                    binding_in_vec_args(&c.args, None)
                },
            }
        },
        _ => None,
    }
}

proof fn lemma_first_binding_in_concat(a: Seq<(MIRExpression, bool)>, b: Seq<(MIRExpression, bool)>)
    ensures
        first_binding_in(a + b) == first_of(first_binding_in(a), first_binding_in(b)),
    decreases b.len(),
{
    if b.len() == 0 {
        assert(a + b =~= a);
    } else {
        assert((a + b).drop_last() =~= a + b.drop_last());
        lemma_first_binding_in_concat(a, b.drop_last());
    }
}

fn marker_in_stmt(s: &MIRStatement) -> (res: Option<Span>)
    ensures
        res == first_marker_stmt(*s),
    decreases stmt_size(*s), 1nat,
{
    let own = match s {
        MIRStatement::MarkerStatement { span, .. } => Some(span.clone()),
        _ => binding_in_stmt_exprs(s),
    };
    match s {
        MIRStatement::IfStatement { on_true, on_false, .. } => match marker_in_block(on_true) {
            Some(sp) => Some(sp),
            None => match marker_in_block(on_false) {
                Some(sp) => Some(sp),
                None => own,
            },
        },
        MIRStatement::LoopStatement { body, iterate, .. } => match marker_in_block(body) {
            Some(sp) => Some(sp),
            None => match marker_in_block(iterate) {
                Some(sp) => Some(sp),
                None => own,
            },
        },
        MIRStatement::ScopeStatement { body, .. } => match marker_in_block(body) {
            Some(sp) => Some(sp),
            None => own,
        },
        _ => own,
    }
}

fn marker_in_block(v: &Vec<MIRStatement>) -> (res: Option<Span>)
    ensures
        res == first_marker_block(v@),
    decreases stmts_size(v@), 0nat,
{
    let n = v.len();
    let mut k: usize = 0;
    let mut found: Option<Span> = None;
    proof {
        lemma_stmts_size_elems(v@);
        assert(v@.take(0) =~= Seq::<MIRStatement>::empty());
    }
    while k < n
        invariant
            n == v.len(),
            k <= n,
            found == first_marker_block(v@.take(k as int)),
            forall|i: int| 0 <= i < v.len() ==> stmt_size(#[trigger] v@[i]) < stmts_size(v@),
        decreases n - k,
    {
        assert(v@.take(k as int + 1).drop_last() =~= v@.take(k as int));
        assert(v@.take(k as int + 1).last() == v@[k as int]);
        if found.is_none() {
            found = marker_in_stmt(&v[k]);
        }
        k = k + 1;
    }
    assert(v@.take(n as int) =~= v@);
    found
}

/// Checks that a block, standing where markers are not allowed, holds no
/// marker statement and no binding, nested blocks included. Returns the
/// span of the first one found as the error.
pub fn ensure_no_markers_block(block: &Vec<MIRStatement>) -> (res: Result<(), Span>)
    ensures
        res == match first_marker_block(block@) {
            Some(sp) => Err(sp),
            None => Ok(()),
        },
{
    match marker_in_block(block) {
        Some(sp) => Err(sp),
        None => Ok(()),
    }
}


// ---------------------------------------------------------------------------
// Whole program
// ---------------------------------------------------------------------------

/// The first invalid marker among the functions `fs`: in an inline or
/// helper function (the first may be copied, the second may be left out).
pub open spec fn first_marker_in_functions(fs: Seq<MIRFunction>) -> Option<Span>
    decreases fs.len(),
{
    if fs.len() == 0 {
        None
    } else {
        let own = if fs[0].fn_type == MIRFunctionType::Inline || fs[0].fn_type
            == MIRFunctionType::Helper {
            first_marker_block(fs[0].body@)
        } else {
            None
        };
        first_of(own, first_marker_in_functions(fs.drop_first()))
    }
}

/// The first binding in the values of the constants `cs` (they are copied
/// wherever they are used).
pub open spec fn first_marker_in_constants(cs: Seq<MIRConstant>) -> Option<Span>
    decreases cs.len(),
{
    if cs.len() == 0 {
        None
    } else {
        first_of(first_binding(postorder(cs[0].value)), first_marker_in_constants(cs.drop_first()))
    }
}

/// Checks that no marker or binding stands where it could be copied or
/// left out: in inline and helper functions, and in constants' values.
/// Returns the span of the first one found (functions first) as the error.
pub fn check_markers(program: &MIRProgram) -> (res: Result<(), Span>)
    ensures
        res == match first_of(
            first_marker_in_functions(program.functions@),
            first_marker_in_constants(program.constants@),
        ) {
            Some(sp) => Err(sp),
            None => Ok(()),
        },
{
    let fs = &program.functions;
    let mut i: usize = 0;
    assert(fs@.skip(0) =~= fs@);
    while i < fs.len()
        invariant
            i <= fs@.len(),
            fs@ == program.functions@,
            first_marker_in_functions(fs@) == first_marker_in_functions(fs@.skip(i as int)),
        decreases fs.len() - i,
    {
        let f = &fs[i];
        proof {
            assert(fs@.skip(i as int).drop_first() =~= fs@.skip(i as int + 1));
            assert(fs@.skip(i as int)[0] == fs@[i as int]);
        }
        let check = match f.fn_type {
            MIRFunctionType::Inline | MIRFunctionType::Helper => true,
            _ => false,
        };
        if check {
            match ensure_no_markers_block(&f.body) {
                Err(sp) => {
                    assert(first_marker_in_functions(fs@.skip(i as int)) == Some(sp));
                    assert(first_marker_in_functions(program.functions@) == Some(sp));
                    assert(first_of(
                        first_marker_in_functions(program.functions@),
                        first_marker_in_constants(program.constants@),
                    ) == Some(sp));
                    return Err(sp);
                },
                Ok(()) => {},
            }
        }
        i = i + 1;
    }
    assert(fs@.skip(fs@.len() as int) =~= Seq::<MIRFunction>::empty());
    let cs = &program.constants;
    let mut j: usize = 0;
    assert(cs@.skip(0) =~= cs@);
    while j < cs.len()
        invariant
            j <= cs@.len(),
            cs@ == program.constants@,
            fs@ == program.functions@,
            first_marker_in_functions(fs@) == None::<Span>,
            first_marker_in_constants(cs@) == first_marker_in_constants(cs@.skip(j as int)),
        decreases cs.len() - j,
    {
        proof {
            assert(cs@.skip(j as int).drop_first() =~= cs@.skip(j as int + 1));
            assert(cs@.skip(j as int)[0] == cs@[j as int]);
        }
        match ensure_no_markers_expression(&cs[j].value) {
            Err(sp) => {
                assert(first_marker_in_constants(cs@.skip(j as int)) == Some(sp));
                assert(first_marker_in_constants(program.constants@) == Some(sp));
                assert(first_of(
                    first_marker_in_functions(program.functions@),
                    first_marker_in_constants(program.constants@),
                ) == Some(sp));
                return Err(sp);
            },
            Ok(()) => {},
        }
        j = j + 1;
    }
    assert(cs@.skip(cs@.len() as int) =~= Seq::<MIRConstant>::empty());
    Ok(())
}

/// Checks that the output does not start with a marker (marker positions
/// count from the output before the first marker). Returns the marker's
/// span as the error.
pub fn ensure_no_first_marker(program: &MIRProgram) -> (res: Result<(), Span>)
    requires
        program.wf(),
    ensures
        res == if program.decls@.len() > 0 {
            match program.decls@[0] {
                MIRDeclarationKey::Marker(k) => Err(program.markers@[k.0 as int].span),
                _ => Ok(()),
            }
        } else {
            Ok(())
        },
{
    if program.decls.len() > 0 {
        match program.decls[0] {
            MIRDeclarationKey::Marker(k) => {
                assert(program.has_key(program.decls@[0]));
                return Err(program.markers[k.0].span.clone());
            },
            _ => {},
        }
    }
    Ok(())
}

} // verus!
