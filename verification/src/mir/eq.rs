//! Structural equality of MIR values, as derived equality compares them.

use super::expr::{call_size, expr_size, exprs_size, inner_size, lemma_exprs_size_elems};
use super::types::same_type;
use super::types::types_same;
use super::view::{exprs_view, lemma_exprs_view_index, type_view, types_view};
use super::{
    MIRExpression, MIRExpressionInner, MIRFnCall, MIRFnSource, MIRFunctionArgs, MIRMarker, MIRType,
    MIRTypeInner,
};
use crate::parser::span::Span;
use vstd::prelude::*;

verus! {

/// The view of a sequence of types has one element per type.
pub proof fn lemma_types_view_index(s: Seq<MIRTypeInner>)
    ensures
        types_view(s).len() == s.len(),
        forall|i: int| 0 <= i < s.len() ==> #[trigger] types_view(s)[i] == type_view(s[i]),
    decreases s.len(),
{
    if s.len() > 0 {
        lemma_types_view_index(s.drop_last());
    }
}

/// Two types are the same type exactly when their views are equal.
pub proof fn lemma_same_type_view(a: MIRTypeInner, b: MIRTypeInner)
    ensures
        same_type(a, b) == (type_view(a) == type_view(b)),
    decreases a,
{
    match (a, b) {
        (MIRTypeInner::FunctionPtr(args_a, ret_a), MIRTypeInner::FunctionPtr(args_b, ret_b)) => {
            lemma_same_type_view(*ret_a, *ret_b);
            lemma_types_view_index(args_a.args@);
            lemma_types_view_index(args_b.args@);
            assert forall|i: int| 0 <= i < args_a.args.len() && i < args_b.args.len() implies same_type(
                #[trigger] args_a.args@[i],
                args_b.args@[i],
            ) == (type_view(args_a.args@[i]) == type_view(args_b.args@[i])) by {
                assert(decreases_to!(a => args_a.args@[i]));
                lemma_same_type_view(args_a.args@[i], args_b.args@[i]);
            }
            if same_type(a, b) {
                assert(types_view(args_a.args@) =~= types_view(args_b.args@));
            }
            if type_view(a) == type_view(b) {
                assert forall|i: int| 0 <= i < args_a.args.len() implies same_type(
                    #[trigger] args_a.args@[i],
                    args_b.args@[i],
                ) by {
                    assert(types_view(args_a.args@)[i] == types_view(args_b.args@)[i]);
                }
            }
        },
        (MIRTypeInner::Ref(x), MIRTypeInner::Ref(y)) => lemma_same_type_view(*x, *y),
        (MIRTypeInner::Array(x), MIRTypeInner::Array(y)) => lemma_same_type_view(*x, *y),
        (MIRTypeInner::ArrayFixed(x, _), MIRTypeInner::ArrayFixed(y, _)) => lemma_same_type_view(*x, *y),
        _ => {},
    }
}

/// Whether two spans are equal.
pub fn span_eq(a: &Span, b: &Span) -> (res: bool)
    ensures
        res == (a@ == b@),
{
    a.file.eq(&b.file) && a.start == b.start && a.end == b.end && a.text.eq(&b.text)
}

/// Whether two types are equal, names compared by their characters.
pub fn type_eq(a: &MIRTypeInner, b: &MIRTypeInner) -> (res: bool)
    ensures
        res == (a@ == b@),
{
    proof {
        lemma_same_type_view(*a, *b);
    }
    types_same(a, b)
}

/// Whether two types with their spans are equal.
pub fn ty_eq(a: &MIRType, b: &MIRType) -> (res: bool)
    ensures
        res == (a@ == b@),
{
    let same_span = match (&a.span, &b.span) {
        (Some(x), Some(y)) => span_eq(x, y),
        (None, None) => true,
        _ => false,
    };
    same_span && type_eq(&a.ty, &b.ty)
}

/// Whether two optional types are equal.
pub fn opt_ty_eq(a: &Option<MIRType>, b: &Option<MIRType>) -> (res: bool)
    ensures
        res == (super::view::opt_ty_view(*a) == super::view::opt_ty_view(*b)),
{
    match (a, b) {
        (Some(x), Some(y)) => ty_eq(x, y),
        (None, None) => true,
        _ => false,
    }
}

/// Whether two argument lists are equal.
pub fn args_eq(a: &MIRFunctionArgs, b: &MIRFunctionArgs) -> (res: bool)
    ensures
        res == (a@ == b@),
{
    proof {
        lemma_types_view_index(a.args@);
        lemma_types_view_index(b.args@);
    }
    if a.variadic != b.variadic || a.args.len() != b.args.len() {
        return false;
    }
    let mut i: usize = 0;
    while i < a.args.len()
        invariant
            i <= a.args@.len(),
            a.args@.len() == b.args@.len(),
            types_view(a.args@).len() == a.args@.len(),
            types_view(b.args@).len() == b.args@.len(),
            forall|j: int| 0 <= j < a.args@.len() ==> #[trigger] types_view(a.args@)[j] == type_view(a.args@[j]),
            forall|j: int| 0 <= j < b.args@.len() ==> #[trigger] types_view(b.args@)[j] == type_view(b.args@[j]),
            forall|j: int| 0 <= j < i ==> types_view(a.args@)[j] == types_view(b.args@)[j],
        decreases a.args@.len() - i,
    {
        if !type_eq(&a.args[i], &b.args[i]) {
            assert(types_view(a.args@)[i as int] != types_view(b.args@)[i as int]);
            return false;
        }
        i = i + 1;
    }
    assert(types_view(a.args@) =~= types_view(b.args@));
    true
}

/// Whether two markers are equal.
pub fn marker_eq(a: &MIRMarker, b: &MIRMarker) -> (res: bool)
    ensures
        res == (a@ == b@),
{
    a.name.eq(&b.name) && span_eq(&a.span, &b.span)
}

/// Whether two expressions are equal: same structure, literals, names,
/// types and spans.
pub fn expr_eq(a: &MIRExpression, b: &MIRExpression) -> (res: bool)
    ensures
        res == (a@ == b@),
    decreases expr_size(*a), 1nat,
{
    span_eq(&a.span, &b.span) && opt_ty_eq(&a.ty, &b.ty) && inner_eq(&a.inner, &b.inner)
}

fn inner_eq(a: &MIRExpressionInner, b: &MIRExpressionInner) -> (res: bool)
    ensures
        res == (a@ == b@),
    decreases inner_size(*a), 0nat,
{
    match (a, b) {
        (MIRExpressionInner::Add(l1, r1), MIRExpressionInner::Add(l2, r2)) => expr_eq(l1, l2) && expr_eq(r1, r2),
        (MIRExpressionInner::Sub(l1, r1), MIRExpressionInner::Sub(l2, r2)) => expr_eq(l1, l2) && expr_eq(r1, r2),
        (MIRExpressionInner::Mul(l1, r1), MIRExpressionInner::Mul(l2, r2)) => expr_eq(l1, l2) && expr_eq(r1, r2),
        (MIRExpressionInner::Div(l1, r1), MIRExpressionInner::Div(l2, r2)) => expr_eq(l1, l2) && expr_eq(r1, r2),
        (MIRExpressionInner::Equal(l1, r1), MIRExpressionInner::Equal(l2, r2)) => expr_eq(l1, l2) && expr_eq(r1, r2),
        (MIRExpressionInner::NotEqual(l1, r1), MIRExpressionInner::NotEqual(l2, r2)) => expr_eq(l1, l2) && expr_eq(r1, r2),
        (MIRExpressionInner::Less(l1, r1), MIRExpressionInner::Less(l2, r2)) => expr_eq(l1, l2) && expr_eq(r1, r2),
        (MIRExpressionInner::Greater(l1, r1), MIRExpressionInner::Greater(l2, r2)) => expr_eq(l1, l2) && expr_eq(r1, r2),
        (MIRExpressionInner::LessEq(l1, r1), MIRExpressionInner::LessEq(l2, r2)) => expr_eq(l1, l2) && expr_eq(r1, r2),
        (MIRExpressionInner::GreaterEq(l1, r1), MIRExpressionInner::GreaterEq(l2, r2)) => expr_eq(l1, l2) && expr_eq(r1, r2),
        (MIRExpressionInner::BoolAnd(l1, r1), MIRExpressionInner::BoolAnd(l2, r2)) => expr_eq(l1, l2) && expr_eq(r1, r2),
        (MIRExpressionInner::BoolOr(l1, r1), MIRExpressionInner::BoolOr(l2, r2)) => expr_eq(l1, l2) && expr_eq(r1, r2),
        (MIRExpressionInner::Index(l1, r1), MIRExpressionInner::Index(l2, r2)) => expr_eq(l1, l2) && expr_eq(r1, r2),
        (MIRExpressionInner::Ref(x1), MIRExpressionInner::Ref(x2)) => expr_eq(x1, x2),
        (MIRExpressionInner::Deref(x1), MIRExpressionInner::Deref(x2)) => expr_eq(x1, x2),
        (MIRExpressionInner::Neg(x1), MIRExpressionInner::Neg(x2)) => expr_eq(x1, x2),
        (MIRExpressionInner::Not(x1), MIRExpressionInner::Not(x2)) => expr_eq(x1, x2),
        (MIRExpressionInner::Quine, MIRExpressionInner::Quine) => true,
        (MIRExpressionInner::QuineLen, MIRExpressionInner::QuineLen) => true,
        (MIRExpressionInner::QuineSpace, MIRExpressionInner::QuineSpace) => true,
        (MIRExpressionInner::QuineLine, MIRExpressionInner::QuineLine) => true,
        (MIRExpressionInner::Unit, MIRExpressionInner::Unit) => true,
        (MIRExpressionInner::Number(x), MIRExpressionInner::Number(y)) => *x == *y,
        (MIRExpressionInner::String(x), MIRExpressionInner::String(y)) => x.eq(y),
        (MIRExpressionInner::Char(x), MIRExpressionInner::Char(y)) => *x == *y,
        (MIRExpressionInner::Bool(x), MIRExpressionInner::Bool(y)) => *x == *y,
        (MIRExpressionInner::Variable(x, i), MIRExpressionInner::Variable(y, j)) => x.eq(y) && match (i, j) {
            (Some(p), Some(q)) => *p == *q,
            (None, None) => true,
            _ => false,
        },
        (MIRExpressionInner::Member(x1, f1), MIRExpressionInner::Member(x2, f2)) => f1.eq(f2) && expr_eq(x1, x2),
        (MIRExpressionInner::Ternary(c1, x1, y1), MIRExpressionInner::Ternary(c2, x2, y2)) => expr_eq(c1, c2)
            && expr_eq(x1, x2) && expr_eq(y1, y2),
        (MIRExpressionInner::Binding(l1, x1, r1), MIRExpressionInner::Binding(l2, x2, r2)) => marker_eq(l1, l2)
            && marker_eq(r1, r2) && expr_eq(x1, x2),
        (MIRExpressionInner::Array(v1), MIRExpressionInner::Array(v2)) => exprs_eq(v1, v2),
        (MIRExpressionInner::FunctionCall(c1), MIRExpressionInner::FunctionCall(c2)) => call_eq(c1, c2),
        _ => false,
    }
}

fn exprs_eq(a: &Vec<MIRExpression>, b: &Vec<MIRExpression>) -> (res: bool)
    ensures
        res == (exprs_view(a@) == exprs_view(b@)),
    decreases exprs_size(a@), 0nat,
{
    proof {
        lemma_exprs_view_index(a@);
        lemma_exprs_view_index(b@);
        lemma_exprs_size_elems(a@);
    }
    if a.len() != b.len() {
        return false;
    }
    let mut i: usize = 0;
    while i < a.len()
        invariant
            i <= a@.len(),
            a@.len() == b@.len(),
            exprs_view(a@).len() == a@.len(),
            exprs_view(b@).len() == b@.len(),
            forall|j: int| 0 <= j < a@.len() ==> #[trigger] exprs_view(a@)[j] == a@[j]@,
            forall|j: int| 0 <= j < b@.len() ==> #[trigger] exprs_view(b@)[j] == b@[j]@,
            forall|j: int| 0 <= j < i ==> exprs_view(a@)[j] == exprs_view(b@)[j],
            forall|j: int| 0 <= j < a@.len() ==> expr_size(#[trigger] a@[j]) < exprs_size(a@),
        decreases a@.len() - i,
    {
        if !expr_eq(&a[i], &b[i]) {
            assert(exprs_view(a@)[i as int] != exprs_view(b@)[i as int]);
            return false;
        }
        i = i + 1;
    }
    assert(exprs_view(a@) =~= exprs_view(b@));
    true
}

fn call_eq(a: &MIRFnCall, b: &MIRFnCall) -> (res: bool)
    ensures
        res == (a@ == b@),
    decreases call_size(*a), 0nat,
{
    let same_source = match (&a.source, &b.source) {
        (MIRFnSource::Direct(x, sx), MIRFnSource::Direct(y, sy)) => x.eq(y) && span_eq(sx, sy),
        (MIRFnSource::Indirect(x), MIRFnSource::Indirect(y)) => expr_eq(x, y),
        _ => false,
    };
    let same_args_ty = match (&a.args_ty, &b.args_ty) {
        (Some(x), Some(y)) => args_eq(x, y),
        (None, None) => true,
        _ => false,
    };
    same_source && same_args_ty && opt_ty_eq(&a.ret_ty, &b.ret_ty) && span_eq(&a.span, &b.span)
        && exprs_eq(&a.args, &b.args)
}

} // verus!
