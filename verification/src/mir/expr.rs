//! Traversal of expressions and simplification of constant expressions.

use super::opt::same_but_body;
use super::view::{
    exprs_view, lemma_exprs_view_index, lemma_exprs_view_push, lemma_stmts_size_elems,
    lemma_stmts_view_push, stmt_size, stmts_size, stmts_view, CallV, ExprV, InnerV, SourceV, StmtV,
};
use super::{MIRExpression, MIRExpressionInner, MIRFnCall, MIRFnSource, MIRFunction, MIRStatement};
use crate::parser::span::Span;
use crate::targets::Target;
use vstd::prelude::*;
use vstd::seq::axiom_seq_len_decreases;

verus! {

// ---------------------------------------------------------------------------
// Constant folding: what one node becomes
// ---------------------------------------------------------------------------

/// The integer held by a number literal.
pub open spec fn spec_number(i: InnerV) -> Option<i128> {
    match i {
        InnerV::Number(n) => Some(n),
        _ => None,
    }
}

/// A value that the target treats as false: `false`, and where the target
/// coerces to truth values, `0` and the NUL character.
pub open spec fn is_falsy(e: ExprV, truthy: bool) -> bool {
    match e.inner {
        InnerV::Bool(b) => !b,
        InnerV::Number(n) => truthy && n == 0,
        InnerV::Char(c) => truthy && c == '\0',
        _ => false,
    }
}

/// An integer result that fits in the literal type.
pub open spec fn int_result(x: int) -> Option<i128> {
    if i128::MIN <= x <= i128::MAX {
        Some(x as i128)
    } else {
        None
    }
}

/// Integer division rounding toward zero.
pub open spec fn trunc_div(x: int, d: int) -> int {
    if x == 0 {
        0
    } else if x > 0 && d > 0 {
        x / d
    } else if x < 0 && d < 0 {
        (x * -1) / (d * -1)
    } else if x < 0 {
        ((x * -1) / d) * -1
    } else {
        (x / (d * -1)) * -1
    }
}

/// Comparison operators that fold over literals.
#[derive(Debug, Clone, Copy, PartialEq, Eq, Structural)]
pub enum Relation {
    Eq,
    Ne,
    Lt,
    Gt,
    Le,
    Ge,
}

/// Compares two number or two boolean literals (`false < true`).
pub open spec fn spec_compare(op: Relation, l: InnerV, r: InnerV) -> Option<bool> {
    match (l, r) {
        (InnerV::Number(a), InnerV::Number(b)) => Some(
            match op {
                Relation::Eq => a == b,
                Relation::Ne => a != b,
                Relation::Lt => a < b,
                Relation::Gt => a > b,
                Relation::Le => a <= b,
                Relation::Ge => a >= b,
            },
        ),
        (InnerV::Bool(a), InnerV::Bool(b)) => Some(
            match op {
                Relation::Eq => a == b,
                Relation::Ne => a != b,
                Relation::Lt => !a && b,
                Relation::Gt => a && !b,
                Relation::Le => !a || b,
                Relation::Ge => a || !b,
            },
        ),
        _ => None,
    }
}

/// Combines two boolean literals with `&&` (`and`) or `||`.
pub open spec fn spec_logic(and: bool, l: InnerV, r: InnerV) -> Option<bool> {
    match (l, r) {
        (InnerV::Bool(a), InnerV::Bool(b)) => Some(
            if and {
                a && b
            } else {
                a || b
            },
        ),
        _ => None,
    }
}

/// The truth value of a literal condition: booleans, and where the target
/// coerces to truth values, numbers and characters (zero and NUL are false).
pub open spec fn cond_truth(e: ExprV, truthy: bool) -> Option<bool> {
    match e.inner {
        InnerV::Bool(b) => Some(b),
        InnerV::Number(n) => if truthy {
            Some(n != 0)
        } else {
            None
        },
        InnerV::Char(c) => if truthy {
            Some(c != '\0')
        } else {
            None
        },
        _ => None,
    }
}

/// What folding one node does.
pub enum FoldV {
    /// The node stays as it is.
    Keep,
    /// The node's contents are replaced (its type and span stay).
    Replace(InnerV),
    /// The node cannot be evaluated: a constant index is out of range.
    Fail,
}

pub open spec fn number_fold(o: Option<i128>) -> FoldV {
    match o {
        Some(n) => FoldV::Replace(InnerV::Number(n)),
        None => FoldV::Keep,
    }
}

pub open spec fn bool_fold(o: Option<bool>) -> FoldV {
    match o {
        Some(b) => FoldV::Replace(InnerV::Bool(b)),
        None => FoldV::Keep,
    }
}

pub open spec fn arith_fold(l: InnerV, r: InnerV, f: spec_fn(int, int) -> Option<i128>) -> FoldV {
    match (l, r) {
        (InnerV::Number(a), InnerV::Number(b)) => number_fold(f(a as int, b as int)),
        _ => FoldV::Keep,
    }
}

/// Folds one node whose children are already folded, as the target's
/// truth coercion (`truthy`) and array representation (`aref`) allow.
pub open spec fn fold_spec(i: InnerV, truthy: bool, aref: bool) -> FoldV {
    match i {
        InnerV::Add(l, r) => arith_fold(l.inner, r.inner, |a: int, b: int| int_result(a + b)),
        InnerV::Sub(l, r) => arith_fold(l.inner, r.inner, |a: int, b: int| int_result(a - b)),
        InnerV::Mul(l, r) => {
            if spec_number(l.inner) is Some && spec_number(r.inner) is Some {
                number_fold(
                    int_result(spec_number(l.inner)->0 * spec_number(r.inner)->0),
                )
            } else if l.inner == InnerV::Number(-1i128) {
                FoldV::Replace(InnerV::Neg(r))
            } else if r.inner == InnerV::Number(-1i128) {
                FoldV::Replace(InnerV::Neg(l))
            } else {
                FoldV::Keep
            }
        },
        InnerV::Div(l, r) => arith_fold(
            l.inner,
            r.inner,
            |a: int, b: int|
                if b == 0 {
                    None
                } else {
                    int_result(trunc_div(a, b))
                },
        ),
        InnerV::Equal(l, r) => {
            if is_falsy(*r, truthy) {
                FoldV::Replace(InnerV::Not(l))
            } else if is_falsy(*l, truthy) {
                FoldV::Replace(InnerV::Not(r))
            } else if r.inner == InnerV::Bool(true) {
                FoldV::Replace(l.inner)
            } else if l.inner == InnerV::Bool(true) {
                FoldV::Replace(r.inner)
            } else {
                bool_fold(spec_compare(Relation::Eq, l.inner, r.inner))
            }
        },
        InnerV::NotEqual(l, r) => {
            if is_falsy(*r, truthy) {
                FoldV::Replace(l.inner)
            } else if is_falsy(*l, truthy) {
                FoldV::Replace(r.inner)
            } else if r.inner == InnerV::Bool(true) {
                FoldV::Replace(InnerV::Not(l))
            } else if l.inner == InnerV::Bool(true) {
                FoldV::Replace(InnerV::Not(r))
            } else {
                bool_fold(spec_compare(Relation::Ne, l.inner, r.inner))
            }
        },
        InnerV::Greater(l, r) => bool_fold(spec_compare(Relation::Gt, l.inner, r.inner)),
        InnerV::Less(l, r) => bool_fold(spec_compare(Relation::Lt, l.inner, r.inner)),
        InnerV::GreaterEq(l, r) => bool_fold(spec_compare(Relation::Ge, l.inner, r.inner)),
        InnerV::LessEq(l, r) => bool_fold(spec_compare(Relation::Le, l.inner, r.inner)),
        InnerV::BoolAnd(l, r) => bool_fold(spec_logic(true, l.inner, r.inner)),
        InnerV::BoolOr(l, r) => bool_fold(spec_logic(false, l.inner, r.inner)),
        InnerV::Neg(x) => match x.inner {
            InnerV::Number(n) => number_fold(int_result(-n)),
            _ => FoldV::Keep,
        },
        InnerV::Not(x) => match cond_truth(*x, truthy) {
            Some(v) => FoldV::Replace(InnerV::Bool(!v)),
            None => FoldV::Keep,
        },
        InnerV::Ref(x) => match x.inner {
            InnerV::Deref(y) => FoldV::Replace(y.inner),
            InnerV::Index(base, offset) => if aref {
                FoldV::Replace(InnerV::Add(base, offset))
            } else {
                FoldV::Keep
            },
            _ => FoldV::Keep,
        },
        InnerV::Deref(x) => match x.inner {
            InnerV::Ref(y) => FoldV::Replace(y.inner),
            _ => FoldV::Keep,
        },
        InnerV::Index(base, idx) => match idx.inner {
            InnerV::Number(n) => match base.inner {
                InnerV::Array(elems) => if 0 <= n < elems.len() {
                    FoldV::Replace(elems[n as int].inner)
                } else {
                    FoldV::Fail
                },
                InnerV::String(s) => if 0 <= n < s.len() {
                    FoldV::Replace(InnerV::Char(s[n as int]))
                } else {
                    FoldV::Fail
                },
                _ => if n == 0 && aref {
                    FoldV::Replace(InnerV::Deref(base))
                } else {
                    FoldV::Keep
                },
            },
            _ => FoldV::Keep,
        },
        InnerV::Ternary(c, t, f) => match cond_truth(*c, truthy) {
            Some(v) => FoldV::Replace(
                if v {
                    t.inner
                } else {
                    f.inner
                },
            ),
            None => FoldV::Keep,
        },
        _ => FoldV::Keep,
    }
}


// ---------------------------------------------------------------------------
// Constant folding: executable side
// ---------------------------------------------------------------------------

fn number_of(e: &MIRExpression) -> (res: Option<i128>)
    ensures
        res == spec_number(e@.inner),
{
    match &e.inner {
        MIRExpressionInner::Number(n) => Some(*n),
        _ => None,
    }
}

fn falsy(e: &MIRExpression, truthy: bool) -> (res: bool)
    ensures
        res == is_falsy(e@, truthy),
{
    match &e.inner {
        MIRExpressionInner::Bool(b) => !*b,
        MIRExpressionInner::Number(n) => truthy && *n == 0,
        MIRExpressionInner::Char(c) => truthy && *c == '\0',
        _ => false,
    }
}

fn is_true(e: &MIRExpression) -> (res: bool)
    ensures
        res == (e@.inner == InnerV::Bool(true)),
{
    match &e.inner {
        MIRExpressionInner::Bool(b) => *b,
        _ => false,
    }
}

fn truth_of(e: &MIRExpression, truthy: bool) -> (res: Option<bool>)
    ensures
        res == cond_truth(e@, truthy),
{
    match &e.inner {
        MIRExpressionInner::Bool(b) => Some(*b),
        MIRExpressionInner::Number(n) => if truthy {
            Some(*n != 0)
        } else {
            None
        },
        MIRExpressionInner::Char(c) => if truthy {
            Some(*c != '\0')
        } else {
            None
        },
        _ => None,
    }
}

fn compare(op: Relation, l: &MIRExpression, r: &MIRExpression) -> (res: Option<bool>)
    ensures
        res == spec_compare(op, l@.inner, r@.inner),
{
    match (&l.inner, &r.inner) {
        (MIRExpressionInner::Number(a), MIRExpressionInner::Number(b)) => {
            let (a, b) = (*a, *b);
            Some(
                match op {
                    Relation::Eq => a == b,
                    Relation::Ne => a != b,
                    Relation::Lt => a < b,
                    Relation::Gt => a > b,
                    Relation::Le => a <= b,
                    Relation::Ge => a >= b,
                },
            )
        },
        (MIRExpressionInner::Bool(a), MIRExpressionInner::Bool(b)) => {
            let (a, b) = (*a, *b);
            Some(
                match op {
                    Relation::Eq => a == b,
                    Relation::Ne => a != b,
                    Relation::Lt => !a && b,
                    Relation::Gt => a && !b,
                    Relation::Le => !a || b,
                    Relation::Ge => a || !b,
                },
            )
        },
        _ => None,
    }
}

fn logic(and: bool, l: &MIRExpression, r: &MIRExpression) -> (res: Option<bool>)
    ensures
        res == spec_logic(and, l@.inner, r@.inner),
{
    match (&l.inner, &r.inner) {
        (MIRExpressionInner::Bool(a), MIRExpressionInner::Bool(b)) => Some(
            if and {
                *a && *b
            } else {
                *a || *b
            },
        ),
        _ => None,
    }
}

/// The outcome of folding one node.
enum NodeFold {
    Kept(MIRExpressionInner),
    Replaced(MIRExpressionInner),
    Failed(MIRExpressionInner),
}

spec fn fold_matches(res: NodeFold, i: MIRExpressionInner, truthy: bool, aref: bool) -> bool {
    match fold_spec(i@, truthy, aref) {
        FoldV::Keep => res == NodeFold::Kept(i),
        FoldV::Fail => res == NodeFold::Failed(i),
        FoldV::Replace(n) => res is Replaced && res->Replaced_0@ == n,
    }
}

fn bool_node(o: Option<bool>, keep: MIRExpressionInner) -> (res: NodeFold)
    ensures
        match o {
            Some(b) => res is Replaced && res->Replaced_0@ == InnerV::Bool(b),
            None => res == NodeFold::Kept(keep),
        },
{
    match o {
        Some(b) => NodeFold::Replaced(MIRExpressionInner::Bool(b)),
        None => NodeFold::Kept(keep),
    }
}

fn number_node(o: Option<i128>, keep: MIRExpressionInner) -> (res: NodeFold)
    ensures
        match o {
            Some(n) => res is Replaced && res->Replaced_0@ == InnerV::Number(n),
            None => res == NodeFold::Kept(keep),
        },
{
    match o {
        Some(n) => NodeFold::Replaced(MIRExpressionInner::Number(n)),
        None => NodeFold::Kept(keep),
    }
}

fn fold_ref(x: Box<MIRExpression>, aref: bool) -> (res: NodeFold)
    ensures
        forall|t: bool| fold_matches(res, MIRExpressionInner::Ref(x), t, aref),
{
    let ghost xv = x@;
    let MIRExpression { inner: xi, ty: xt, span: xs } = *x;
    assert(xv.inner == xi@);
    match xi {
        MIRExpressionInner::Deref(y) => {
            let ghost yv = y@;
            let MIRExpression { inner: yi, .. } = *y;
            assert(yv.inner == yi@);
            NodeFold::Replaced(yi)
        },
        MIRExpressionInner::Index(base, offset) => if aref {
            NodeFold::Replaced(MIRExpressionInner::Add(base, offset))
        } else {
            NodeFold::Kept(
                MIRExpressionInner::Ref(
                    Box::new(
                        MIRExpression {
                            inner: MIRExpressionInner::Index(base, offset),
                            ty: xt,
                            span: xs,
                        },
                    ),
                ),
            )
        },
        other => NodeFold::Kept(
            MIRExpressionInner::Ref(Box::new(MIRExpression { inner: other, ty: xt, span: xs })),
        ),
    }
}

fn fold_deref(x: Box<MIRExpression>) -> (res: NodeFold)
    ensures
        forall|t: bool, a: bool| fold_matches(res, MIRExpressionInner::Deref(x), t, a),
{
    let ghost xv = x@;
    let MIRExpression { inner: xi, ty: xt, span: xs } = *x;
    assert(xv.inner == xi@);
    match xi {
        MIRExpressionInner::Ref(y) => {
            let ghost yv = y@;
            let MIRExpression { inner: yi, .. } = *y;
            assert(yv.inner == yi@);
            NodeFold::Replaced(yi)
        },
        other => NodeFold::Kept(
            MIRExpressionInner::Deref(Box::new(MIRExpression { inner: other, ty: xt, span: xs })),
        ),
    }
}

fn fold_index(base: Box<MIRExpression>, idx: Box<MIRExpression>, aref: bool) -> (res: NodeFold)
    ensures
        forall|t: bool| fold_matches(res, MIRExpressionInner::Index(base, idx), t, aref),
{
    match number_of(&idx) {
        None => NodeFold::Kept(MIRExpressionInner::Index(base, idx)),
        Some(n) => {
            let ghost bv = base@;
            let MIRExpression { inner: bi, ty: bt, span: bs } = *base;
            assert(bv.inner == bi@);
            match bi {
                MIRExpressionInner::Array(mut elems) => {
                    proof {
                        lemma_exprs_view_index(elems@);
                    }
                    let len = elems.len();
                    if n < 0 || n >= len as i128 {
                        NodeFold::Failed(
                            MIRExpressionInner::Index(
                                Box::new(
                                    MIRExpression {
                                        inner: MIRExpressionInner::Array(elems),
                                        ty: bt,
                                        span: bs,
                                    },
                                ),
                                idx,
                            ),
                        )
                    } else {
                        let el = elems.remove(n as usize);
                        let ghost ev = el@;
                        let MIRExpression { inner: ei, .. } = el;
                        assert(ev.inner == ei@);
                        NodeFold::Replaced(ei)
                    }
                },
                MIRExpressionInner::String(text) => {
                    let len = text.as_str().unicode_len();
                    if n < 0 || n >= len as i128 {
                        NodeFold::Failed(
                            MIRExpressionInner::Index(
                                Box::new(
                                    MIRExpression {
                                        inner: MIRExpressionInner::String(text),
                                        ty: bt,
                                        span: bs,
                                    },
                                ),
                                idx,
                            ),
                        )
                    } else {
                        let c = text.as_str().get_char(n as usize);
                        NodeFold::Replaced(MIRExpressionInner::Char(c))
                    }
                },
                other => {
                    let b = Box::new(MIRExpression { inner: other, ty: bt, span: bs });
                    if n == 0 && aref {
                        NodeFold::Replaced(MIRExpressionInner::Deref(b))
                    } else {
                        NodeFold::Kept(MIRExpressionInner::Index(b, idx))
                    }
                },
            }
        },
    }
}

fn fold_node(inner: MIRExpressionInner, truthy: bool, aref: bool) -> (res: NodeFold)
    ensures
        fold_matches(res, inner, truthy, aref),
{
    match inner {
        MIRExpressionInner::Add(l, r) => {
            let folded = match (number_of(&l), number_of(&r)) {
                (Some(a), Some(b)) => a.checked_add(b),
                _ => None,
            };
            number_node(folded, MIRExpressionInner::Add(l, r))
        },
        MIRExpressionInner::Sub(l, r) => {
            let folded = match (number_of(&l), number_of(&r)) {
                (Some(a), Some(b)) => a.checked_sub(b),
                _ => None,
            };
            number_node(folded, MIRExpressionInner::Sub(l, r))
        },
        MIRExpressionInner::Mul(l, r) => {
            match (number_of(&l), number_of(&r)) {
                (Some(a), Some(b)) => number_node(a.checked_mul(b), MIRExpressionInner::Mul(l, r)),
                (Some(a), None) => if a == -1 {
                    NodeFold::Replaced(MIRExpressionInner::Neg(r))
                } else {
                    NodeFold::Kept(MIRExpressionInner::Mul(l, r))
                },
                (None, Some(b)) => if b == -1 {
                    NodeFold::Replaced(MIRExpressionInner::Neg(l))
                } else {
                    NodeFold::Kept(MIRExpressionInner::Mul(l, r))
                },
                (None, None) => NodeFold::Kept(MIRExpressionInner::Mul(l, r)),
            }
        },
        MIRExpressionInner::Div(l, r) => {
            let folded = match (number_of(&l), number_of(&r)) {
                (Some(a), Some(b)) => a.checked_div(b),
                _ => None,
            };
            number_node(folded, MIRExpressionInner::Div(l, r))
        },
        MIRExpressionInner::Equal(l, r) => {
            if falsy(&r, truthy) {
                NodeFold::Replaced(MIRExpressionInner::Not(l))
            } else if falsy(&l, truthy) {
                NodeFold::Replaced(MIRExpressionInner::Not(r))
            } else if is_true(&r) {
                let MIRExpression { inner: li, .. } = *l;
                NodeFold::Replaced(li)
            } else if is_true(&l) {
                let MIRExpression { inner: ri, .. } = *r;
                NodeFold::Replaced(ri)
            } else {
                bool_node(compare(Relation::Eq, &l, &r), MIRExpressionInner::Equal(l, r))
            }
        },
        MIRExpressionInner::NotEqual(l, r) => {
            if falsy(&r, truthy) {
                let MIRExpression { inner: li, .. } = *l;
                NodeFold::Replaced(li)
            } else if falsy(&l, truthy) {
                let MIRExpression { inner: ri, .. } = *r;
                NodeFold::Replaced(ri)
            } else if is_true(&r) {
                NodeFold::Replaced(MIRExpressionInner::Not(l))
            } else if is_true(&l) {
                NodeFold::Replaced(MIRExpressionInner::Not(r))
            } else {
                bool_node(compare(Relation::Ne, &l, &r), MIRExpressionInner::NotEqual(l, r))
            }
        },
        MIRExpressionInner::Greater(l, r) => bool_node(
            compare(Relation::Gt, &l, &r),
            MIRExpressionInner::Greater(l, r),
        ),
        MIRExpressionInner::Less(l, r) => bool_node(
            compare(Relation::Lt, &l, &r),
            MIRExpressionInner::Less(l, r),
        ),
        MIRExpressionInner::GreaterEq(l, r) => bool_node(
            compare(Relation::Ge, &l, &r),
            MIRExpressionInner::GreaterEq(l, r),
        ),
        MIRExpressionInner::LessEq(l, r) => bool_node(
            compare(Relation::Le, &l, &r),
            MIRExpressionInner::LessEq(l, r),
        ),
        MIRExpressionInner::BoolAnd(l, r) => bool_node(
            logic(true, &l, &r),
            MIRExpressionInner::BoolAnd(l, r),
        ),
        MIRExpressionInner::BoolOr(l, r) => bool_node(
            logic(false, &l, &r),
            MIRExpressionInner::BoolOr(l, r),
        ),
        MIRExpressionInner::Neg(x) => {
            let folded = match number_of(&x) {
                Some(n) => if n == i128::MIN {
                    None
                } else {
                    Some(-n)
                },
                None => None,
            };
            number_node(folded, MIRExpressionInner::Neg(x))
        },
        MIRExpressionInner::Not(x) => {
            let folded = match truth_of(&x, truthy) {
                Some(v) => Some(!v),
                None => None,
            };
            bool_node(folded, MIRExpressionInner::Not(x))
        },
        MIRExpressionInner::Ref(x) => fold_ref(x, aref),
        MIRExpressionInner::Deref(x) => fold_deref(x),
        MIRExpressionInner::Index(base, idx) => fold_index(base, idx, aref),
        MIRExpressionInner::Ternary(c, t, f) => {
            match truth_of(&c, truthy) {
                Some(v) => if v {
                    let MIRExpression { inner: ti, .. } = *t;
                    NodeFold::Replaced(ti)
                } else {
                    let MIRExpression { inner: fi, .. } = *f;
                    NodeFold::Replaced(fi)
                },
                None => NodeFold::Kept(MIRExpressionInner::Ternary(c, t, f)),
            }
        },
        other => NodeFold::Kept(other),
    }
}


// ---------------------------------------------------------------------------
// Constant folding of whole trees
// ---------------------------------------------------------------------------

/// Combines the folding of a left and a right child: the right child is
/// only folded if the left one succeeded.
pub open spec fn pair_step(r: ExprV, rl: (bool, bool, ExprV), rr: (bool, bool, ExprV)) -> (
    bool,
    bool,
    Box<ExprV>,
    Box<ExprV>,
) {
    if !rl.0 {
        (false, rl.1, Box::new(rl.2), Box::new(r))
    } else {
        (rr.0, rl.1 || rr.1, Box::new(rl.2), Box::new(rr.2))
    }
}

/// Folds an expression tree bottom-up: the children first, from left to
/// right, then the node itself. Yields whether folding succeeded, whether
/// any node was replaced, and the resulting tree; folding stops at the
/// first failure and leaves the rest of the tree as it was.
pub open spec fn reduce_spec(e: ExprV, t: bool, a: bool) -> (bool, bool, ExprV)
    decreases e, 0nat,
{
    let c = reduce_children(e.inner, t, a);
    let kept = ExprV { inner: c.2, ty: e.ty, span: e.span };
    if !c.0 {
        (false, c.1, kept)
    } else {
        match fold_spec(c.2, t, a) {
            FoldV::Keep => (true, c.1, kept),
            FoldV::Replace(n) => (true, true, ExprV { inner: n, ty: e.ty, span: e.span }),
            FoldV::Fail => (false, c.1, kept),
        }
    }
}

/// Folds the children of a node, from left to right.
pub open spec fn reduce_children(i: InnerV, t: bool, a: bool) -> (bool, bool, InnerV)
    decreases i, 0nat,
{
    match i {
        InnerV::Add(l, r) => {
            let p = pair_step(*r, reduce_spec(*l, t, a), reduce_spec(*r, t, a));
            (p.0, p.1, InnerV::Add(p.2, p.3))
        },
        InnerV::Sub(l, r) => {
            let p = pair_step(*r, reduce_spec(*l, t, a), reduce_spec(*r, t, a));
            (p.0, p.1, InnerV::Sub(p.2, p.3))
        },
        InnerV::Mul(l, r) => {
            let p = pair_step(*r, reduce_spec(*l, t, a), reduce_spec(*r, t, a));
            (p.0, p.1, InnerV::Mul(p.2, p.3))
        },
        InnerV::Div(l, r) => {
            let p = pair_step(*r, reduce_spec(*l, t, a), reduce_spec(*r, t, a));
            (p.0, p.1, InnerV::Div(p.2, p.3))
        },
        InnerV::Equal(l, r) => {
            let p = pair_step(*r, reduce_spec(*l, t, a), reduce_spec(*r, t, a));
            (p.0, p.1, InnerV::Equal(p.2, p.3))
        },
        InnerV::NotEqual(l, r) => {
            let p = pair_step(*r, reduce_spec(*l, t, a), reduce_spec(*r, t, a));
            (p.0, p.1, InnerV::NotEqual(p.2, p.3))
        },
        InnerV::Less(l, r) => {
            let p = pair_step(*r, reduce_spec(*l, t, a), reduce_spec(*r, t, a));
            (p.0, p.1, InnerV::Less(p.2, p.3))
        },
        InnerV::Greater(l, r) => {
            let p = pair_step(*r, reduce_spec(*l, t, a), reduce_spec(*r, t, a));
            (p.0, p.1, InnerV::Greater(p.2, p.3))
        },
        InnerV::LessEq(l, r) => {
            let p = pair_step(*r, reduce_spec(*l, t, a), reduce_spec(*r, t, a));
            (p.0, p.1, InnerV::LessEq(p.2, p.3))
        },
        InnerV::GreaterEq(l, r) => {
            let p = pair_step(*r, reduce_spec(*l, t, a), reduce_spec(*r, t, a));
            (p.0, p.1, InnerV::GreaterEq(p.2, p.3))
        },
        InnerV::BoolAnd(l, r) => {
            let p = pair_step(*r, reduce_spec(*l, t, a), reduce_spec(*r, t, a));
            (p.0, p.1, InnerV::BoolAnd(p.2, p.3))
        },
        InnerV::BoolOr(l, r) => {
            let p = pair_step(*r, reduce_spec(*l, t, a), reduce_spec(*r, t, a));
            (p.0, p.1, InnerV::BoolOr(p.2, p.3))
        },
        InnerV::Index(l, r) => {
            let p = pair_step(*r, reduce_spec(*l, t, a), reduce_spec(*r, t, a));
            (p.0, p.1, InnerV::Index(p.2, p.3))
        },
        InnerV::Ref(x) => {
            let q = reduce_spec(*x, t, a);
            (q.0, q.1, InnerV::Ref(Box::new(q.2)))
        },
        InnerV::Deref(x) => {
            let q = reduce_spec(*x, t, a);
            (q.0, q.1, InnerV::Deref(Box::new(q.2)))
        },
        InnerV::Neg(x) => {
            let q = reduce_spec(*x, t, a);
            (q.0, q.1, InnerV::Neg(Box::new(q.2)))
        },
        InnerV::Not(x) => {
            let q = reduce_spec(*x, t, a);
            (q.0, q.1, InnerV::Not(Box::new(q.2)))
        },
        InnerV::Member(x, field) => {
            let q = reduce_spec(*x, t, a);
            (q.0, q.1, InnerV::Member(Box::new(q.2), field))
        },
        InnerV::Binding(lm, x, rm) => {
            let q = reduce_spec(*x, t, a);
            (q.0, q.1, InnerV::Binding(lm, Box::new(q.2), rm))
        },
        InnerV::Ternary(c, x, y) => {
            let qc = reduce_spec(*c, t, a);
            if !qc.0 {
                (false, qc.1, InnerV::Ternary(Box::new(qc.2), x, y))
            } else {
                let p = pair_step(*y, reduce_spec(*x, t, a), reduce_spec(*y, t, a));
                (p.0, qc.1 || p.1, InnerV::Ternary(Box::new(qc.2), p.2, p.3))
            }
        },
        InnerV::Array(s) => {
            let q = reduce_seq(s, t, a);
            (q.0, q.1, InnerV::Array(q.2))
        },
        InnerV::FunctionCall(c) => {
            let q = reduce_call(*c, t, a);
            (q.0, q.1, InnerV::FunctionCall(Box::new(q.2)))
        },
        _ => (true, false, i),
    }
}

/// Folds a sequence of expressions from left to right; after the first
/// failure the remaining expressions are left as they are.
pub open spec fn reduce_seq(s: Seq<ExprV>, t: bool, a: bool) -> (bool, bool, Seq<ExprV>)
    decreases s, s.len(),
{
    if s.len() == 0 {
        (true, false, Seq::empty())
    } else {
        proof {
            axiom_seq_len_decreases(s, s.drop_last());
        }
        let p = reduce_seq(s.drop_last(), t, a);
        if !p.0 {
            (false, p.1, p.2.push(s.last()))
        } else {
            let x = reduce_spec(s.last(), t, a);
            (x.0, p.1 || x.1, p.2.push(x.2))
        }
    }
}

/// Folds a call: an indirect callee first, then the arguments.
pub open spec fn reduce_call(c: CallV, t: bool, a: bool) -> (bool, bool, CallV)
    decreases c, 0nat,
{
    match c.source {
        SourceV::Indirect(e) => {
            let q = reduce_spec(e, t, a);
            if !q.0 {
                (false, q.1, CallV { source: SourceV::Indirect(q.2), ..c })
            } else {
                let r = reduce_seq(c.args, t, a);
                (r.0, q.1 || r.1, CallV { source: SourceV::Indirect(q.2), args: r.2, ..c })
            }
        },
        SourceV::Direct(_, _) => {
            let r = reduce_seq(c.args, t, a);
            (r.0, r.1, CallV { args: r.2, ..c })
        },
    }
}

proof fn lemma_reduce_seq_push(s: Seq<ExprV>, y: ExprV, t: bool, a: bool)
    ensures
        reduce_seq(s.push(y), t, a) == ({
            let p = reduce_seq(s, t, a);
            if !p.0 {
                (false, p.1, p.2.push(y))
            } else {
                let x = reduce_spec(y, t, a);
                (x.0, p.1 || x.1, p.2.push(x.2))
            }
        }),
{
    assert(s.push(y).drop_last() =~= s);
}

pub open spec fn expr_size(e: MIRExpression) -> nat
    decreases e, 0nat,
{
    1 + inner_size(e.inner)
}

pub open spec fn inner_size(i: MIRExpressionInner) -> nat
    decreases i, 0nat,
{
    match i {
        MIRExpressionInner::Add(l, r) => 1 + expr_size(*l) + expr_size(*r),
        MIRExpressionInner::Sub(l, r) => 1 + expr_size(*l) + expr_size(*r),
        MIRExpressionInner::Mul(l, r) => 1 + expr_size(*l) + expr_size(*r),
        MIRExpressionInner::Div(l, r) => 1 + expr_size(*l) + expr_size(*r),
        MIRExpressionInner::Equal(l, r) => 1 + expr_size(*l) + expr_size(*r),
        MIRExpressionInner::NotEqual(l, r) => 1 + expr_size(*l) + expr_size(*r),
        MIRExpressionInner::Less(l, r) => 1 + expr_size(*l) + expr_size(*r),
        MIRExpressionInner::Greater(l, r) => 1 + expr_size(*l) + expr_size(*r),
        MIRExpressionInner::LessEq(l, r) => 1 + expr_size(*l) + expr_size(*r),
        MIRExpressionInner::GreaterEq(l, r) => 1 + expr_size(*l) + expr_size(*r),
        MIRExpressionInner::BoolAnd(l, r) => 1 + expr_size(*l) + expr_size(*r),
        MIRExpressionInner::BoolOr(l, r) => 1 + expr_size(*l) + expr_size(*r),
        MIRExpressionInner::Index(l, r) => 1 + expr_size(*l) + expr_size(*r),
        MIRExpressionInner::Ref(x) => 1 + expr_size(*x),
        MIRExpressionInner::Deref(x) => 1 + expr_size(*x),
        MIRExpressionInner::Neg(x) => 1 + expr_size(*x),
        MIRExpressionInner::Not(x) => 1 + expr_size(*x),
        MIRExpressionInner::Member(x, _) => 1 + expr_size(*x),
        MIRExpressionInner::Binding(_, x, _) => 1 + expr_size(*x),
        MIRExpressionInner::Ternary(c, x, y) => 1 + expr_size(*c) + expr_size(*x) + expr_size(*y),
        MIRExpressionInner::Array(v) => 1 + exprs_size(v@),
        MIRExpressionInner::FunctionCall(c) => 1 + call_size(*c),
        _ => 1,
    }
}

pub open spec fn exprs_size(s: Seq<MIRExpression>) -> nat
    decreases s, s.len(),
{
    if s.len() == 0 {
        1
    } else {
        proof {
            axiom_seq_len_decreases(s, s.drop_last());
        }
        exprs_size(s.drop_last()) + expr_size(s.last())
    }
}

pub open spec fn call_size(c: MIRFnCall) -> nat
    decreases c, 0nat,
{
    1 + exprs_size(c.args@) + match c.source {
        MIRFnSource::Indirect(e) => expr_size(e),
        MIRFnSource::Direct(_, _) => 0,
    }
}

pub proof fn lemma_exprs_size_elems(s: Seq<MIRExpression>)
    ensures
        forall|i: int| 0 <= i < s.len() ==> expr_size(#[trigger] s[i]) < exprs_size(s),
    decreases s.len(),
{
    if s.len() > 0 {
        lemma_exprs_size_elems(s.drop_last());
        assert forall|i: int| 0 <= i < s.len() implies expr_size(#[trigger] s[i]) < exprs_size(s) by {
            if i < s.len() - 1 {
                assert(s[i] == s.drop_last()[i]);
            }
        }
    }
}

fn reduce_two(l: Box<MIRExpression>, r: Box<MIRExpression>, t: bool, a: bool) -> (res: (
    Box<MIRExpression>,
    Box<MIRExpression>,
    bool,
    bool,
))
    ensures
        pair_step(r@, reduce_spec(l@, t, a), reduce_spec(r@, t, a)) == (
            res.2,
            res.3,
            Box::new(res.0@),
            Box::new(res.1@),
        ),
    decreases expr_size(*l) + expr_size(*r), 0nat,
{
    let (l2, ok, m) = reduce_owned(*l, t, a);
    if !ok {
        return (Box::new(l2), r, false, m);
    }
    let (r2, ok2, m2) = reduce_owned(*r, t, a);
    (Box::new(l2), Box::new(r2), ok2, m || m2)
}

fn reduce_owned(e: MIRExpression, t: bool, a: bool) -> (res: (MIRExpression, bool, bool))
    ensures
        (res.1, res.2, res.0@) == reduce_spec(e@, t, a),
    decreases expr_size(e), 0nat,
{
    let MIRExpression { inner, ty, span } = e;
    let (inner2, ok, m) = reduce_inner(inner, t, a);
    if !ok {
        return (MIRExpression { inner: inner2, ty, span }, false, m);
    }
    match fold_node(inner2, t, a) {
        NodeFold::Kept(i) => (MIRExpression { inner: i, ty, span }, true, m),
        NodeFold::Replaced(i) => (MIRExpression { inner: i, ty, span }, true, true),
        NodeFold::Failed(i) => (MIRExpression { inner: i, ty, span }, false, m),
    }
}

/// The binary operators whose folding is handled by [`reduce_binary`].
spec fn simple_binary(i: MIRExpressionInner) -> bool {
    ||| i is Add
    ||| i is Sub
    ||| i is Mul
    ||| i is Div
    ||| i is Equal
    ||| i is NotEqual
    ||| i is Less
    ||| i is Greater
    ||| i is LessEq
    ||| i is GreaterEq
}

fn is_simple_binary(i: &MIRExpressionInner) -> (res: bool)
    ensures
        res == simple_binary(*i),
{
    match i {
        MIRExpressionInner::Add(..) | MIRExpressionInner::Sub(..) | MIRExpressionInner::Mul(..)
        | MIRExpressionInner::Div(..) | MIRExpressionInner::Equal(..)
        | MIRExpressionInner::NotEqual(..) | MIRExpressionInner::Less(..)
        | MIRExpressionInner::Greater(..) | MIRExpressionInner::LessEq(..)
        | MIRExpressionInner::GreaterEq(..) => true,
        _ => false,
    }
}

fn reduce_binary(i: MIRExpressionInner, t: bool, a: bool) -> (res: (MIRExpressionInner, bool, bool))
    requires
        simple_binary(i),
    ensures
        (res.1, res.2, res.0@) == reduce_children(i@, t, a),
    decreases inner_size(i), 0nat,
{
    match i {
        MIRExpressionInner::Add(l, r) => {
            let (l2, r2, ok, m) = reduce_two(l, r, t, a);
            (MIRExpressionInner::Add(l2, r2), ok, m)
        },
        MIRExpressionInner::Sub(l, r) => {
            let (l2, r2, ok, m) = reduce_two(l, r, t, a);
            (MIRExpressionInner::Sub(l2, r2), ok, m)
        },
        MIRExpressionInner::Mul(l, r) => {
            let (l2, r2, ok, m) = reduce_two(l, r, t, a);
            (MIRExpressionInner::Mul(l2, r2), ok, m)
        },
        MIRExpressionInner::Div(l, r) => {
            let (l2, r2, ok, m) = reduce_two(l, r, t, a);
            (MIRExpressionInner::Div(l2, r2), ok, m)
        },
        MIRExpressionInner::Equal(l, r) => {
            let (l2, r2, ok, m) = reduce_two(l, r, t, a);
            (MIRExpressionInner::Equal(l2, r2), ok, m)
        },
        MIRExpressionInner::NotEqual(l, r) => {
            let (l2, r2, ok, m) = reduce_two(l, r, t, a);
            (MIRExpressionInner::NotEqual(l2, r2), ok, m)
        },
        MIRExpressionInner::Less(l, r) => {
            let (l2, r2, ok, m) = reduce_two(l, r, t, a);
            (MIRExpressionInner::Less(l2, r2), ok, m)
        },
        MIRExpressionInner::Greater(l, r) => {
            let (l2, r2, ok, m) = reduce_two(l, r, t, a);
            (MIRExpressionInner::Greater(l2, r2), ok, m)
        },
        MIRExpressionInner::LessEq(l, r) => {
            let (l2, r2, ok, m) = reduce_two(l, r, t, a);
            (MIRExpressionInner::LessEq(l2, r2), ok, m)
        },
        MIRExpressionInner::GreaterEq(l, r) => {
            let (l2, r2, ok, m) = reduce_two(l, r, t, a);
            (MIRExpressionInner::GreaterEq(l2, r2), ok, m)
        },
        other => (other, true, false),
    }
}

fn reduce_inner(i: MIRExpressionInner, t: bool, a: bool) -> (res: (MIRExpressionInner, bool, bool))
    ensures
        (res.1, res.2, res.0@) == reduce_children(i@, t, a),
    decreases inner_size(i), 1nat,
{
    if is_simple_binary(&i) {
        return reduce_binary(i, t, a);
    }
    match i {
        MIRExpressionInner::BoolAnd(l, r) => {
            let (l2, r2, ok, m) = reduce_two(l, r, t, a);
            (MIRExpressionInner::BoolAnd(l2, r2), ok, m)
        },
        MIRExpressionInner::BoolOr(l, r) => {
            let (l2, r2, ok, m) = reduce_two(l, r, t, a);
            (MIRExpressionInner::BoolOr(l2, r2), ok, m)
        },
        MIRExpressionInner::Index(l, r) => {
            let (l2, r2, ok, m) = reduce_two(l, r, t, a);
            (MIRExpressionInner::Index(l2, r2), ok, m)
        },
        MIRExpressionInner::Ref(x) => {
            let (x2, ok, m) = reduce_owned(*x, t, a);
            (MIRExpressionInner::Ref(Box::new(x2)), ok, m)
        },
        MIRExpressionInner::Deref(x) => {
            let (x2, ok, m) = reduce_owned(*x, t, a);
            (MIRExpressionInner::Deref(Box::new(x2)), ok, m)
        },
        MIRExpressionInner::Neg(x) => {
            let (x2, ok, m) = reduce_owned(*x, t, a);
            (MIRExpressionInner::Neg(Box::new(x2)), ok, m)
        },
        MIRExpressionInner::Not(x) => {
            let (x2, ok, m) = reduce_owned(*x, t, a);
            (MIRExpressionInner::Not(Box::new(x2)), ok, m)
        },
        MIRExpressionInner::Member(x, field) => {
            let (x2, ok, m) = reduce_owned(*x, t, a);
            (MIRExpressionInner::Member(Box::new(x2), field), ok, m)
        },
        MIRExpressionInner::Binding(lm, x, rm) => {
            let (x2, ok, m) = reduce_owned(*x, t, a);
            (MIRExpressionInner::Binding(lm, Box::new(x2), rm), ok, m)
        },
        MIRExpressionInner::Ternary(c, x, y) => {
            let (c2, okc, mc) = reduce_owned(*c, t, a);
            if !okc {
                return (MIRExpressionInner::Ternary(Box::new(c2), x, y), false, mc);
            }
            let (x2, okx, mx) = reduce_owned(*x, t, a);
            if !okx {
                return (MIRExpressionInner::Ternary(Box::new(c2), Box::new(x2), y), false, mc || mx);
            }
            let (y2, oky, my) = reduce_owned(*y, t, a);
            (
                MIRExpressionInner::Ternary(Box::new(c2), Box::new(x2), Box::new(y2)),
                oky,
                mc || (mx || my),
            )
        },
        MIRExpressionInner::Array(v) => {
            let (v2, ok, m) = reduce_vec(v, t, a);
            (MIRExpressionInner::Array(v2), ok, m)
        },
        MIRExpressionInner::FunctionCall(c) => {
            let (c2, ok, m) = reduce_fn_call(*c, t, a);
            (MIRExpressionInner::FunctionCall(Box::new(c2)), ok, m)
        },
        other => (other, true, false),
    }
}

fn reduce_vec(v: Vec<MIRExpression>, t: bool, a: bool) -> (res: (Vec<MIRExpression>, bool, bool))
    ensures
        (res.1, res.2, exprs_view(res.0@)) == reduce_seq(exprs_view(v@), t, a),
    decreases exprs_size(v@), 0nat,
{
    let ghost orig = v@;
    proof {
        lemma_exprs_size_elems(orig);
    }
    let n = v.len();
    let mut rest = v;
    let mut out: Vec<MIRExpression> = Vec::new();
    let mut ok = true;
    let mut m = false;
    let mut k: usize = 0;
    assert(orig.take(0) =~= Seq::<MIRExpression>::empty());
    while k < n
        invariant
            n == orig.len(),
            k <= n,
            rest@ =~= orig.subrange(k as int, n as int),
            (ok, m, exprs_view(out@)) == reduce_seq(exprs_view(orig.take(k as int)), t, a),
            forall|i: int| 0 <= i < orig.len() ==> expr_size(#[trigger] orig[i]) < exprs_size(orig),
            exprs_size(orig) == exprs_size(v@),
        decreases n - k,
    {
        let x = rest.remove(0);
        assert(x == orig[k as int]);
        assert(orig.take(k as int + 1) =~= orig.take(k as int).push(x));
        proof {
            lemma_exprs_view_push(orig.take(k as int), x);
            lemma_reduce_seq_push(exprs_view(orig.take(k as int)), x@, t, a);
        }
        if ok {
            let (x2, ok2, m2) = reduce_owned(x, t, a);
            proof {
                lemma_exprs_view_push(out@, x2);
            }
            out.push(x2);
            ok = ok2;
            m = m || m2;
        } else {
            proof {
                lemma_exprs_view_push(out@, x);
            }
            out.push(x);
        }
        k = k + 1;
    }
    assert(orig.take(n as int) =~= orig);
    (out, ok, m)
}

fn reduce_fn_call(c: MIRFnCall, t: bool, a: bool) -> (res: (MIRFnCall, bool, bool))
    ensures
        (res.1, res.2, res.0@) == reduce_call(c@, t, a),
    decreases call_size(c), 0nat,
{
    let MIRFnCall { source, args, args_ty, ret_ty, span } = c;
    match source {
        MIRFnSource::Indirect(e) => {
            let (e2, ok, m) = reduce_owned(e, t, a);
            if !ok {
                return (MIRFnCall { source: MIRFnSource::Indirect(e2), args, args_ty, ret_ty, span }, false, m);
            }
            let (args2, ok2, m2) = reduce_vec(args, t, a);
            (MIRFnCall { source: MIRFnSource::Indirect(e2), args: args2, args_ty, ret_ty, span }, ok2, m || m2)
        },
        MIRFnSource::Direct(name, nspan) => {
            let (args2, ok2, m2) = reduce_vec(args, t, a);
            (MIRFnCall { source: MIRFnSource::Direct(name, nspan), args: args2, args_ty, ret_ty, span }, ok2, m2)
        },
    }
}

/// Folds the constant parts of an expression, bottom-up, as the target's
/// truth coercion and array representation allow. Returns
/// `(success, modified)`: success is false when a constant index is out of
/// range (the expression is then left as far as folding got), and modified
/// tells whether any node was replaced.
pub fn reduce_expr<T: Target>(expr: &mut MIRExpression, target: &T) -> (res: (bool, bool))
    ensures
        ({
            let r = reduce_spec(old(expr)@, target.spec_truthy_coercion(), target.spec_array_as_ref());
            &&& res.0 == r.0
            &&& res.1 == (r.0 && r.1)
            &&& final(expr)@ == r.2
        }),
{
    let truthy = target.truthy_coercion();
    let aref = target.array_as_ref();
    let mut taken = MIRExpression { inner: MIRExpressionInner::Unit, ty: None, span: Span::empty() };
    std::mem::swap(expr, &mut taken);
    let (folded, ok, modified) = reduce_owned(taken, truthy, aref);
    *expr = folded;
    (ok, ok && modified)
}

// ---------------------------------------------------------------------------
// Folding every expression of a function
// ---------------------------------------------------------------------------

/// Folds one expression of a statement if `go` (no earlier expression of
/// the statement failed). Yields (success, modified, result), where a failed
/// fold counts as no modification.
pub open spec fn opt_one(e: ExprV, go: bool, t: bool, a: bool) -> (bool, bool, ExprV) {
    if go {
        let r = reduce_spec(e, t, a);
        (r.0, r.0 && r.1, r.2)
    } else {
        (false, false, e)
    }
}

/// Folds a sequence of expressions of one statement in order, stopping at
/// the first failure.
pub open spec fn opt_seq(s: Seq<ExprV>, go: bool, t: bool, a: bool) -> (bool, bool, Seq<ExprV>)
    decreases s.len(),
{
    if s.len() == 0 {
        (go, false, Seq::empty())
    } else {
        let p = opt_seq(s.drop_last(), go, t, a);
        let x = opt_one(s.last(), p.0, t, a);
        (x.0, p.1 || x.1, p.2.push(x.2))
    }
}

/// Folds the expressions of a call statement: the callee, then the arguments.
pub open spec fn opt_call(c: CallV, t: bool, a: bool) -> (bool, CallV) {
    match c.source {
        SourceV::Indirect(e) => {
            let x = opt_one(e, true, t, a);
            let r = opt_seq(c.args, x.0, t, a);
            (x.1 || r.1, CallV { source: SourceV::Indirect(x.2), args: r.2, ..c })
        },
        SourceV::Direct(_, _) => {
            let r = opt_seq(c.args, true, t, a);
            (r.1, CallV { args: r.2, ..c })
        },
    }
}

/// Folds the expressions of a statement, in the order in which the
/// statement holds them (a failure stops the rest of that statement), and
/// the statements of its nested blocks. Yields whether anything changed.
pub open spec fn opt_stmt(s: StmtV, t: bool, a: bool) -> (bool, StmtV)
    decreases s, 0nat,
{
    match s {
        StmtV::CreateVariable { var, value, span } => match value {
            Some(v) => {
                let x = opt_one(v, true, t, a);
                (x.1, StmtV::CreateVariable { var, value: Some(x.2), span })
            },
            None => (false, s),
        },
        StmtV::SetVariable { place, value, span } => {
            let p = opt_one(place, true, t, a);
            let x = opt_one(value, p.0, t, a);
            (p.1 || x.1, StmtV::SetVariable { place: p.2, value: x.2, span })
        },
        StmtV::AddAssign { place, value, span } => {
            let p = opt_one(place, true, t, a);
            let x = opt_one(value, p.0, t, a);
            (p.1 || x.1, StmtV::AddAssign { place: p.2, value: x.2, span })
        },
        StmtV::SubAssign { place, value, span } => {
            let p = opt_one(place, true, t, a);
            let x = opt_one(value, p.0, t, a);
            (p.1 || x.1, StmtV::SubAssign { place: p.2, value: x.2, span })
        },
        StmtV::MulAssign { place, value, span } => {
            let p = opt_one(place, true, t, a);
            let x = opt_one(value, p.0, t, a);
            (p.1 || x.1, StmtV::MulAssign { place: p.2, value: x.2, span })
        },
        StmtV::DivAssign { place, value, span } => {
            let p = opt_one(place, true, t, a);
            let x = opt_one(value, p.0, t, a);
            (p.1 || x.1, StmtV::DivAssign { place: p.2, value: x.2, span })
        },
        StmtV::IncrementVariable { place, span } => {
            let p = opt_one(place, true, t, a);
            (p.1, StmtV::IncrementVariable { place: p.2, span })
        },
        StmtV::DecrementVariable { place, span } => {
            let p = opt_one(place, true, t, a);
            (p.1, StmtV::DecrementVariable { place: p.2, span })
        },
        StmtV::FunctionCall(c) => {
            let r = opt_call(c, t, a);
            (r.0, StmtV::FunctionCall(r.1))
        },
        StmtV::Return { expr, span } => match expr {
            Some(e) => {
                let x = opt_one(e, true, t, a);
                (x.1, StmtV::Return { expr: Some(x.2), span })
            },
            None => (false, s),
        },
        StmtV::GotoNotEqual { name, index, condition, span } => {
            let x = opt_one(condition, true, t, a);
            (x.1, StmtV::GotoNotEqual { name, index, condition: x.2, span })
        },
        StmtV::IfStatement { condition, on_true, on_false, span } => {
            let c = opt_one(condition, true, t, a);
            let bt = opt_block(on_true, t, a);
            let bf = opt_block(on_false, t, a);
            (
                c.1 || bt.0 || bf.0,
                StmtV::IfStatement { condition: c.2, on_true: bt.1, on_false: bf.1, span },
            )
        },
        StmtV::LoopStatement { condition, body, iterate, span } => {
            let c = match condition {
                Some(e) => {
                    let x = opt_one(e, true, t, a);
                    (x.1, Some(x.2))
                },
                None => (false, None),
            };
            let bb = opt_block(body, t, a);
            let bi = opt_block(iterate, t, a);
            (
                c.0 || bb.0 || bi.0,
                StmtV::LoopStatement { condition: c.1, body: bb.1, iterate: bi.1, span },
            )
        },
        StmtV::ScopeStatement { body, span } => {
            let bb = opt_block(body, t, a);
            (bb.0, StmtV::ScopeStatement { body: bb.1, span })
        },
        _ => (false, s),
    }
}

/// Folds every statement of a block, nested blocks included.
pub open spec fn opt_block(b: Seq<StmtV>, t: bool, a: bool) -> (bool, Seq<StmtV>)
    decreases b, b.len(),
{
    if b.len() == 0 {
        (false, Seq::empty())
    } else {
        proof {
            axiom_seq_len_decreases(b, b.drop_last());
        }
        let p = opt_block(b.drop_last(), t, a);
        let x = opt_stmt(b.last(), t, a);
        (p.0 || x.0, p.1.push(x.1))
    }
}

fn opt_one_exec(e: MIRExpression, go: bool, t: bool, a: bool) -> (res: (MIRExpression, bool, bool))
    ensures
        (res.1, res.2, res.0@) == opt_one(e@, go, t, a),
{
    if go {
        let (e2, ok, m) = reduce_owned(e, t, a);
        (e2, ok, ok && m)
    } else {
        (e, false, false)
    }
}

fn opt_vec_exec(v: Vec<MIRExpression>, go: bool, t: bool, a: bool) -> (res: (
    Vec<MIRExpression>,
    bool,
    bool,
))
    ensures
        (res.1, res.2, exprs_view(res.0@)) == opt_seq(exprs_view(v@), go, t, a),
{
    let ghost orig = v@;
    let n = v.len();
    let mut rest = v;
    let mut out: Vec<MIRExpression> = Vec::new();
    let mut ok = go;
    let mut m = false;
    let mut k: usize = 0;
    assert(orig.take(0) =~= Seq::<MIRExpression>::empty());
    while k < n
        invariant
            n == orig.len(),
            k <= n,
            rest@ =~= orig.subrange(k as int, n as int),
            (ok, m, exprs_view(out@)) == opt_seq(exprs_view(orig.take(k as int)), go, t, a),
        decreases n - k,
    {
        let x = rest.remove(0);
        assert(x == orig[k as int]);
        assert(orig.take(k as int + 1) =~= orig.take(k as int).push(x));
        proof {
            lemma_exprs_view_push(orig.take(k as int), x);
            assert(exprs_view(orig.take(k as int)).push(x@).drop_last() =~= exprs_view(
                orig.take(k as int),
            ));
        }
        let (x2, ok2, m2) = opt_one_exec(x, ok, t, a);
        proof {
            lemma_exprs_view_push(out@, x2);
        }
        out.push(x2);
        ok = ok2;
        m = m || m2;
        k = k + 1;
    }
    assert(orig.take(n as int) =~= orig);
    (out, ok, m)
}

fn opt_call_exec(c: MIRFnCall, t: bool, a: bool) -> (res: (MIRFnCall, bool))
    ensures
        (res.1, res.0@) == opt_call(c@, t, a),
{
    let MIRFnCall { source, args, args_ty, ret_ty, span } = c;
    match source {
        MIRFnSource::Indirect(e) => {
            let (e2, ok, m) = opt_one_exec(e, true, t, a);
            let (args2, _ok2, m2) = opt_vec_exec(args, ok, t, a);
            (
                MIRFnCall { source: MIRFnSource::Indirect(e2), args: args2, args_ty, ret_ty, span },
                m || m2,
            )
        },
        MIRFnSource::Direct(name, nspan) => {
            let (args2, _ok2, m2) = opt_vec_exec(args, true, t, a);
            (
                MIRFnCall {
                    source: MIRFnSource::Direct(name, nspan),
                    args: args2,
                    args_ty,
                    ret_ty,
                    span,
                },
                m2,
            )
        },
    }
}

fn opt_stmt_exec(s: MIRStatement, t: bool, a: bool) -> (res: (MIRStatement, bool))
    ensures
        (res.1, res.0@) == opt_stmt(s@, t, a),
    decreases stmt_size(s), 0nat,
{
    match s {
        MIRStatement::CreateVariable { var, value, span } => match value {
            Some(v) => {
                let (v2, _ok, m) = opt_one_exec(v, true, t, a);
                (MIRStatement::CreateVariable { var, value: Some(v2), span }, m)
            },
            None => (MIRStatement::CreateVariable { var, value: None, span }, false),
        },
        MIRStatement::SetVariable { place, value, span } => {
            let (p2, okp, mp) = opt_one_exec(place, true, t, a);
            let (v2, _okv, mv) = opt_one_exec(value, okp, t, a);
            (MIRStatement::SetVariable { place: p2, value: v2, span }, mp || mv)
        },
        MIRStatement::AddAssign { place, value, span } => {
            let (p2, okp, mp) = opt_one_exec(place, true, t, a);
            let (v2, _okv, mv) = opt_one_exec(value, okp, t, a);
            (MIRStatement::AddAssign { place: p2, value: v2, span }, mp || mv)
        },
        MIRStatement::SubAssign { place, value, span } => {
            let (p2, okp, mp) = opt_one_exec(place, true, t, a);
            let (v2, _okv, mv) = opt_one_exec(value, okp, t, a);
            (MIRStatement::SubAssign { place: p2, value: v2, span }, mp || mv)
        },
        MIRStatement::MulAssign { place, value, span } => {
            let (p2, okp, mp) = opt_one_exec(place, true, t, a);
            let (v2, _okv, mv) = opt_one_exec(value, okp, t, a);
            (MIRStatement::MulAssign { place: p2, value: v2, span }, mp || mv)
        },
        MIRStatement::DivAssign { place, value, span } => {
            let (p2, okp, mp) = opt_one_exec(place, true, t, a);
            let (v2, _okv, mv) = opt_one_exec(value, okp, t, a);
            (MIRStatement::DivAssign { place: p2, value: v2, span }, mp || mv)
        },
        MIRStatement::IncrementVariable { place, span } => {
            let (p2, _ok, m) = opt_one_exec(place, true, t, a);
            (MIRStatement::IncrementVariable { place: p2, span }, m)
        },
        MIRStatement::DecrementVariable { place, span } => {
            let (p2, _ok, m) = opt_one_exec(place, true, t, a);
            (MIRStatement::DecrementVariable { place: p2, span }, m)
        },
        MIRStatement::FunctionCall(c) => {
            let (c2, m) = opt_call_exec(c, t, a);
            (MIRStatement::FunctionCall(c2), m)
        },
        MIRStatement::Return { expr, span } => match expr {
            Some(e) => {
                let (e2, _ok, m) = opt_one_exec(e, true, t, a);
                (MIRStatement::Return { expr: Some(e2), span }, m)
            },
            None => (MIRStatement::Return { expr: None, span }, false),
        },
        MIRStatement::GotoNotEqual { name, index, condition, span } => {
            let (c2, _ok, m) = opt_one_exec(condition, true, t, a);
            (MIRStatement::GotoNotEqual { name, index, condition: c2, span }, m)
        },
        MIRStatement::IfStatement { condition, on_true, on_false, span } => {
            let (c2, _ok, mc) = opt_one_exec(condition, true, t, a);
            let (bt, mt) = opt_block_exec(on_true, t, a);
            let (bf, mf) = opt_block_exec(on_false, t, a);
            (MIRStatement::IfStatement { condition: c2, on_true: bt, on_false: bf, span }, mc || mt || mf)
        },
        MIRStatement::LoopStatement { condition, body, iterate, span } => {
            let (c2, mc) = match condition {
                Some(e) => {
                    let (e2, _ok, m) = opt_one_exec(e, true, t, a);
                    (Some(e2), m)
                },
                None => (None, false),
            };
            let (bb, mb) = opt_block_exec(body, t, a);
            let (bi, mi) = opt_block_exec(iterate, t, a);
            (MIRStatement::LoopStatement { condition: c2, body: bb, iterate: bi, span }, mc || mb || mi)
        },
        MIRStatement::ScopeStatement { body, span } => {
            let (bb, mb) = opt_block_exec(body, t, a);
            (MIRStatement::ScopeStatement { body: bb, span }, mb)
        },
        other => (other, false),
    }
}

fn opt_block_exec(v: Vec<MIRStatement>, t: bool, a: bool) -> (res: (Vec<MIRStatement>, bool))
    ensures
        (res.1, stmts_view(res.0@)) == opt_block(stmts_view(v@), t, a),
    decreases stmts_size(v@), 0nat,
{
    let ghost orig = v@;
    proof {
        lemma_stmts_size_elems(orig);
    }
    let n = v.len();
    let mut rest = v;
    let mut out: Vec<MIRStatement> = Vec::new();
    let mut m = false;
    let mut k: usize = 0;
    assert(orig.take(0) =~= Seq::<MIRStatement>::empty());
    while k < n
        invariant
            n == orig.len(),
            k <= n,
            rest@ =~= orig.subrange(k as int, n as int),
            (m, stmts_view(out@)) == opt_block(stmts_view(orig.take(k as int)), t, a),
            forall|i: int| 0 <= i < orig.len() ==> stmt_size(#[trigger] orig[i]) < stmts_size(orig),
            stmts_size(orig) == stmts_size(v@),
        decreases n - k,
    {
        let x = rest.remove(0);
        assert(x == orig[k as int]);
        assert(orig.take(k as int + 1) =~= orig.take(k as int).push(x));
        proof {
            lemma_stmts_view_push(orig.take(k as int), x);
            assert(stmts_view(orig.take(k as int)).push(x@).drop_last() =~= stmts_view(
                orig.take(k as int),
            ));
        }
        let (x2, mx) = opt_stmt_exec(x, t, a);
        proof {
            lemma_stmts_view_push(out@, x2);
        }
        out.push(x2);
        m = m || mx;
        k = k + 1;
    }
    assert(orig.take(n as int) =~= orig);
    (out, m)
}

/// Folds the constant parts of every expression in the function's body.
/// Within a statement, folding stops at the first expression whose folding
/// fails; other statements are folded regardless. Returns
/// `(success, modified)`; it always succeeds.
pub fn optimize_exprs<T: Target>(function: &mut MIRFunction, target: &T) -> (res: (bool, bool))
    ensures
        ({
            let r = opt_block(
                stmts_view(old(function).body@),
                target.spec_truthy_coercion(),
                target.spec_array_as_ref(),
            );
            &&& res.0
            &&& res.1 == r.0
            &&& stmts_view(final(function).body@) == r.1
        }),
        same_but_body(*final(function), *old(function)),
{
    let truthy = target.truthy_coercion();
    let aref = target.array_as_ref();
    let mut body = Vec::new();
    std::mem::swap(&mut function.body, &mut body);
    let (new_body, modified) = opt_block_exec(body, truthy, aref);
    function.body = new_body;
    (true, modified)
}

// ---------------------------------------------------------------------------
// Visiting expressions
// ---------------------------------------------------------------------------

/// The subexpressions of `e`, `e` included, in the order in which
/// [`explore_expr`] visits them: children first, from left to right.
pub open spec fn postorder(e: MIRExpression) -> Seq<MIRExpression>
    decreases e, 1nat,
{
    children_postorder(e.inner) + seq![e]
}

/// The subexpressions below a node, in visiting order.
pub open spec fn children_postorder(i: MIRExpressionInner) -> Seq<MIRExpression>
    decreases i, 0nat,
{
    match i {
        MIRExpressionInner::Add(l, r) => postorder(*l) + postorder(*r),
        MIRExpressionInner::Sub(l, r) => postorder(*l) + postorder(*r),
        MIRExpressionInner::Mul(l, r) => postorder(*l) + postorder(*r),
        MIRExpressionInner::Div(l, r) => postorder(*l) + postorder(*r),
        MIRExpressionInner::Equal(l, r) => postorder(*l) + postorder(*r),
        MIRExpressionInner::NotEqual(l, r) => postorder(*l) + postorder(*r),
        MIRExpressionInner::Less(l, r) => postorder(*l) + postorder(*r),
        MIRExpressionInner::Greater(l, r) => postorder(*l) + postorder(*r),
        MIRExpressionInner::LessEq(l, r) => postorder(*l) + postorder(*r),
        MIRExpressionInner::GreaterEq(l, r) => postorder(*l) + postorder(*r),
        MIRExpressionInner::BoolAnd(l, r) => postorder(*l) + postorder(*r),
        MIRExpressionInner::BoolOr(l, r) => postorder(*l) + postorder(*r),
        MIRExpressionInner::Index(l, r) => postorder(*l) + postorder(*r),
        MIRExpressionInner::Ref(x) => postorder(*x),
        MIRExpressionInner::Deref(x) => postorder(*x),
        MIRExpressionInner::Neg(x) => postorder(*x),
        MIRExpressionInner::Not(x) => postorder(*x),
        MIRExpressionInner::Member(x, _) => postorder(*x),
        MIRExpressionInner::Binding(_, x, _) => postorder(*x),
        MIRExpressionInner::Ternary(c, x, y) => postorder(*c) + postorder(*x) + postorder(*y),
        MIRExpressionInner::Array(v) => postorder_seq(v@),
        MIRExpressionInner::FunctionCall(c) => call_postorder(*c),
        _ => Seq::empty(),
    }
}

/// The subexpressions of a sequence of expressions, one after the other.
pub open spec fn postorder_seq(s: Seq<MIRExpression>) -> Seq<MIRExpression>
    decreases s, s.len(),
{
    if s.len() == 0 {
        Seq::empty()
    } else {
        proof {
            axiom_seq_len_decreases(s, s.drop_last());
        }
        postorder_seq(s.drop_last()) + postorder(s.last())
    }
}

/// The subexpressions of a call: an indirect callee's, then the arguments'.
pub open spec fn call_postorder(c: MIRFnCall) -> Seq<MIRExpression>
    decreases c, 0nat,
{
    match c.source {
        MIRFnSource::Indirect(e) => postorder(e) + postorder_seq(c.args@),
        MIRFnSource::Direct(_, _) => postorder_seq(c.args@),
    }
}

/// `f` may be called on every expression of `s`.
pub open spec fn can_visit<F: Fn(&MIRExpression) -> bool>(f: F, s: Seq<MIRExpression>) -> bool {
    forall|i: int| 0 <= i < s.len() ==> call_requires(f, (&s[i],))
}

/// What visiting `s` in order, stopping at the first rejection, returns:
/// `true` when `f` accepted every expression, `false` when it rejected one
/// after accepting all before it.
pub open spec fn visited<F: Fn(&MIRExpression) -> bool>(
    f: F,
    s: Seq<MIRExpression>,
    res: bool,
) -> bool {
    if res {
        forall|i: int| 0 <= i < s.len() ==> call_ensures(f, (&s[i],), true)
    } else {
        exists|i: int|
            0 <= i < s.len() && call_ensures(f, (&s[i],), false) && forall|j: int|
                0 <= j < i ==> call_ensures(f, (&s[j],), true)
    }
}

proof fn lemma_visited_concat<F: Fn(&MIRExpression) -> bool>(
    f: F,
    a: Seq<MIRExpression>,
    b: Seq<MIRExpression>,
    ra: bool,
    rb: bool,
)
    requires
        visited(f, a, ra),
        ra ==> visited(f, b, rb),
    ensures
        visited(f, a + b, ra && rb),
{
    if !ra {
        let i = choose|i: int|
            0 <= i < a.len() && call_ensures(f, (&a[i],), false) && forall|j: int|
                0 <= j < i ==> call_ensures(f, (&a[j],), true);
        assert((a + b)[i] == a[i]);
        assert forall|j: int| 0 <= j < i implies call_ensures(f, (&(a + b)[j],), true) by {
            assert((a + b)[j] == a[j]);
        }
    } else if !rb {
        let i = choose|i: int|
            0 <= i < b.len() && call_ensures(f, (&b[i],), false) && forall|j: int|
                0 <= j < i ==> call_ensures(f, (&b[j],), true);
        assert((a + b)[a.len() + i] == b[i]);
        assert forall|j: int| 0 <= j < a.len() + i implies call_ensures(f, (&(a + b)[j],), true) by {
            if j < a.len() {
                assert((a + b)[j] == a[j]);
            } else {
                assert((a + b)[j] == b[j - a.len()]);
            }
        }
    } else {
        assert forall|j: int| 0 <= j < (a + b).len() implies call_ensures(f, (&(a + b)[j],), true) by {
            if j < a.len() {
                assert((a + b)[j] == a[j]);
            } else {
                assert((a + b)[j] == b[j - a.len()]);
            }
        }
    }
}

proof fn lemma_can_visit_split<F: Fn(&MIRExpression) -> bool>(
    f: F,
    a: Seq<MIRExpression>,
    b: Seq<MIRExpression>,
)
    requires
        can_visit(f, a + b),
    ensures
        can_visit(f, a),
        can_visit(f, b),
{
    assert forall|i: int| 0 <= i < a.len() implies call_requires(f, (&a[i],)) by {
        assert((a + b)[i] == a[i]);
    }
    assert forall|i: int| 0 <= i < b.len() implies call_requires(f, (&b[i],)) by {
        assert((a + b)[a.len() + i] == b[i]);
    }
}

fn visit_one<F: Fn(&MIRExpression) -> bool>(e: &MIRExpression, visit: &F) -> (res: bool)
    requires
        call_requires(*visit, (e,)),
    ensures
        visited(*visit, seq![*e], res),
{
    let r = visit(e);
    assert(seq![*e][0] == *e);
    r
}

fn explore_two<F: Fn(&MIRExpression) -> bool>(
    l: &MIRExpression,
    r: &MIRExpression,
    visit: &F,
) -> (res: bool)
    requires
        can_visit(*visit, postorder(*l) + postorder(*r)),
    ensures
        visited(*visit, postorder(*l) + postorder(*r), res),
    decreases expr_size(*l) + expr_size(*r), 2nat,
{
    proof {
        lemma_can_visit_split(*visit, postorder(*l), postorder(*r));
    }
    let a = explore_expr(l, visit);
    if !a {
        proof {
            lemma_visited_concat(*visit, postorder(*l), postorder(*r), false, false);
        }
        return false;
    }
    let b = explore_expr(r, visit);
    proof {
        lemma_visited_concat(*visit, postorder(*l), postorder(*r), true, b);
    }
    b
}

fn explore_children<F: Fn(&MIRExpression) -> bool>(
    inner: &MIRExpressionInner,
    visit: &F,
) -> (res: bool)
    requires
        can_visit(*visit, children_postorder(*inner)),
    ensures
        visited(*visit, children_postorder(*inner), res),
    decreases inner_size(*inner), 0nat,
{
    match inner {
        MIRExpressionInner::Add(l, r) | MIRExpressionInner::Sub(l, r) | MIRExpressionInner::Mul(l, r) | MIRExpressionInner::Div(l, r) | MIRExpressionInner::Equal(l, r) | MIRExpressionInner::NotEqual(l, r) | MIRExpressionInner::Less(l, r) | MIRExpressionInner::Greater(l, r) | MIRExpressionInner::LessEq(l, r) | MIRExpressionInner::GreaterEq(l, r) | MIRExpressionInner::BoolAnd(l, r) | MIRExpressionInner::BoolOr(l, r) | MIRExpressionInner::Index(l, r) => explore_two(l, r, visit),
        MIRExpressionInner::Ref(x) | MIRExpressionInner::Deref(x) | MIRExpressionInner::Neg(x) | MIRExpressionInner::Not(x) => explore_expr(x, visit),
        MIRExpressionInner::Member(x, _) => explore_expr(x, visit),
        MIRExpressionInner::Binding(_, x, _) => explore_expr(x, visit),
        MIRExpressionInner::Ternary(c, x, y) => {
            proof {
                assert(postorder(**c) + postorder(**x) + postorder(**y) =~= postorder(**c) + (
                postorder(**x) + postorder(**y)));
                lemma_can_visit_split(*visit, postorder(**c), postorder(**x) + postorder(**y));
            }
            let a = explore_expr(c, visit);
            if !a {
                proof {
                    lemma_visited_concat(
                        *visit,
                        postorder(**c),
                        postorder(**x) + postorder(**y),
                        false,
                        false,
                    );
                }
                return false;
            }
            let b = explore_two(x, y, visit);
            proof {
                lemma_visited_concat(*visit, postorder(**c), postorder(**x) + postorder(**y), true, b);
            }
            b
        },
        MIRExpressionInner::Array(v) => explore_seq(v, visit),
        MIRExpressionInner::FunctionCall(c) => match &c.source {
            MIRFnSource::Indirect(e) => {
                proof {
                    lemma_can_visit_split(*visit, postorder(*e), postorder_seq(c.args@));
                }
                let a = explore_expr(e, visit);
                if !a {
                    proof {
                        lemma_visited_concat(*visit, postorder(*e), postorder_seq(c.args@), false, false);
                    }
                    return false;
                }
                let b = explore_seq(&c.args, visit);
                proof {
                    lemma_visited_concat(*visit, postorder(*e), postorder_seq(c.args@), true, b);
                }
                b
            },
            MIRFnSource::Direct(_, _) => explore_seq(&c.args, visit),
        },
        _ => true,
    }
}

fn explore_seq<F: Fn(&MIRExpression) -> bool>(v: &Vec<MIRExpression>, visit: &F) -> (res: bool)
    requires
        can_visit(*visit, postorder_seq(v@)),
    ensures
        visited(*visit, postorder_seq(v@), res),
    decreases exprs_size(v@), 0nat,
{
    let n = v.len();
    let mut k: usize = 0;
    proof {
        lemma_exprs_size_elems(v@);
        assert(v@.take(0) =~= Seq::<MIRExpression>::empty());
    }
    while k < n
        invariant
            n == v.len(),
            k <= n,
            can_visit(*visit, postorder_seq(v@)),
            visited(*visit, postorder_seq(v@.take(k as int)), true),
            forall|i: int| 0 <= i < v.len() ==> expr_size(#[trigger] v@[i]) < exprs_size(v@),
        decreases n - k,
    {
        assert(v@.take(k as int + 1).drop_last() =~= v@.take(k as int));
        assert(v@.take(k as int + 1).last() == v@[k as int]);
        proof {
            lemma_postorder_seq_prefix(v@, k as int + 1);
            lemma_can_visit_split(
                *visit,
                postorder_seq(v@.take(k as int + 1)),
                postorder_seq(v@).subrange(
                    postorder_seq(v@.take(k as int + 1)).len() as int,
                    postorder_seq(v@).len() as int,
                ),
            );
            lemma_can_visit_split(*visit, postorder_seq(v@.take(k as int)), postorder(v@[k as int]));
        }
        let ok = explore_expr(&v[k], visit);
        proof {
            lemma_visited_concat(
                *visit,
                postorder_seq(v@.take(k as int)),
                postorder(v@[k as int]),
                true,
                ok,
            );
        }
        if !ok {
            proof {
                lemma_postorder_seq_prefix(v@, k as int + 1);
                lemma_visited_concat(
                    *visit,
                    postorder_seq(v@.take(k as int + 1)),
                    postorder_seq(v@).subrange(postorder_seq(v@.take(k as int + 1)).len() as int, postorder_seq(v@).len() as int),
                    false,
                    false,
                );
            }
            return false;
        }
        k = k + 1;
    }
    assert(v@.take(n as int) =~= v@);
    true
}

proof fn lemma_postorder_seq_prefix(s: Seq<MIRExpression>, k: int)
    requires
        0 <= k <= s.len(),
    ensures
        postorder_seq(s.take(k)).len() <= postorder_seq(s).len(),
        postorder_seq(s) =~= postorder_seq(s.take(k)) + postorder_seq(s).subrange(
            postorder_seq(s.take(k)).len() as int,
            postorder_seq(s).len() as int,
        ),
    decreases s.len(),
{
    if k < s.len() {
        assert(s.drop_last().take(k) =~= s.take(k));
        lemma_postorder_seq_prefix(s.drop_last(), k);
    } else {
        assert(s.take(k) =~= s);
    }
}

/// Visits every subexpression of `expr`, `expr` included, children first,
/// calling `visit` on each, and stops at the first visit that returns
/// false. Returns whether every visit returned true.
pub fn explore_expr<F: Fn(&MIRExpression) -> bool>(expr: &MIRExpression, visit: &F) -> (res: bool)
    requires
        can_visit(*visit, postorder(*expr)),
    ensures
        visited(*visit, postorder(*expr), res),
    decreases expr_size(*expr), 1nat,
{
    proof {
        lemma_can_visit_split(*visit, children_postorder(expr.inner), seq![*expr]);
    }
    let a = explore_children(&expr.inner, visit);
    if !a {
        proof {
            lemma_visited_concat(*visit, children_postorder(expr.inner), seq![*expr], false, false);
        }
        return false;
    }
    assert(seq![*expr][0] == *expr);
    let b = visit_one(expr, visit);
    proof {
        lemma_visited_concat(*visit, children_postorder(expr.inner), seq![*expr], true, b);
    }
    b
}

/// The outer part of a place expression, innermost first: the chain of
/// references, dereferences, member and index bases (not the index itself)
/// down to a variable, and both branches of a conditional (not its
/// condition). Expressions that are no places end the chain.
pub open spec fn outer_places(e: MIRExpression) -> Seq<MIRExpression>
    decreases e,
{
    match e.inner {
        MIRExpressionInner::Ref(x) => outer_places(*x) + seq![e],
        MIRExpressionInner::Deref(x) => outer_places(*x) + seq![e],
        MIRExpressionInner::Member(x, _) => outer_places(*x) + seq![e],
        MIRExpressionInner::Index(x, _) => outer_places(*x) + seq![e],
        MIRExpressionInner::Ternary(_, x, y) => outer_places(*x) + outer_places(*y) + seq![e],
        MIRExpressionInner::Variable(_, _) => seq![e],
        _ => Seq::empty(),
    }
}

fn explore_place_then<F: Fn(&MIRExpression) -> bool>(
    x: &MIRExpression,
    e: &MIRExpression,
    visit: &F,
) -> (res: bool)
    requires
        expr_size(*x) < expr_size(*e),
        can_visit(*visit, outer_places(*x) + seq![*e]),
    ensures
        visited(*visit, outer_places(*x) + seq![*e], res),
    decreases expr_size(*e), 0nat,
{
    proof {
        lemma_can_visit_split(*visit, outer_places(*x), seq![*e]);
    }
    let a = explore_outer_place(x, visit);
    if !a {
        proof {
            lemma_visited_concat(*visit, outer_places(*x), seq![*e], false, false);
        }
        return false;
    }
    assert(seq![*e][0] == *e);
    let b = visit_one(e, visit);
    proof {
        lemma_visited_concat(*visit, outer_places(*x), seq![*e], true, b);
    }
    b
}

/// Visits the outer part of a place expression (see [`outer_places`]),
/// innermost first, and stops at the first visit that returns false.
/// Returns whether every visit returned true.
pub fn explore_outer_place<F: Fn(&MIRExpression) -> bool>(expr: &MIRExpression, visit: &F) -> (res: bool)
    requires
        can_visit(*visit, outer_places(*expr)),
    ensures
        visited(*visit, outer_places(*expr), res),
    decreases expr_size(*expr), 1nat,
{
    match &expr.inner {
        MIRExpressionInner::Ref(x) | MIRExpressionInner::Deref(x) | MIRExpressionInner::Member(x, _)
        | MIRExpressionInner::Index(x, _) => explore_place_then(x, expr, visit),
        MIRExpressionInner::Ternary(_, x, y) => {
            let ghost px = outer_places(**x);
            let ghost py = outer_places(**y);
            let ghost pe = seq![*expr];
            proof {
                assert(px + py + pe =~= px + (py + pe));
                lemma_can_visit_split(*visit, px, py + pe);
                lemma_can_visit_split(*visit, py, pe);
            }
            let a = explore_outer_place(x, visit);
            if !a {
                proof {
                    lemma_visited_concat(*visit, px, py + pe, false, false);
                }
                return false;
            }
            let b = explore_outer_place(y, visit);
            if !b {
                proof {
                    lemma_visited_concat(*visit, py, pe, false, false);
                    lemma_visited_concat(*visit, px, py + pe, true, false);
                }
                return false;
            }
            assert(pe[0] == *expr);
            let c = visit_one(expr, visit);
            proof {
                lemma_visited_concat(*visit, py, pe, true, c);
                lemma_visited_concat(*visit, px, py + pe, true, c);
            }
            c
        },
        MIRExpressionInner::Variable(_, _) => {
            assert(seq![*expr][0] == *expr);
            visit_one(expr, visit)
        },
        _ => true,
    }
}

/// The expressions a statement holds directly (not those of nested
/// blocks), in order, each with whether it is a place written to.
pub open spec fn stmt_exprs(s: MIRStatement) -> Seq<(MIRExpression, bool)> {
    match s {
        MIRStatement::CreateVariable { value: Some(v), .. } => seq![(v, false)],
        MIRStatement::LoopStatement { condition: Some(c), .. } => seq![(c, false)],
        MIRStatement::IfStatement { condition, .. } => seq![(condition, false)],
        MIRStatement::GotoNotEqual { condition, .. } => seq![(condition, false)],
        MIRStatement::SetVariable { place, value, .. } => seq![(place, true), (value, false)],
        MIRStatement::AddAssign { place, value, .. } => seq![(place, true), (value, false)],
        MIRStatement::SubAssign { place, value, .. } => seq![(place, true), (value, false)],
        MIRStatement::MulAssign { place, value, .. } => seq![(place, true), (value, false)],
        MIRStatement::DivAssign { place, value, .. } => seq![(place, true), (value, false)],
        MIRStatement::IncrementVariable { place, .. } => seq![(place, true)],
        MIRStatement::DecrementVariable { place, .. } => seq![(place, true)],
        MIRStatement::FunctionCall(c) => call_exprs(c),
        MIRStatement::Return { expr: Some(e), .. } => seq![(e, false)],
        _ => Seq::empty(),
    }
}

/// The expressions of a call statement: an indirect callee, then the
/// arguments, none of them written to.
pub open spec fn call_exprs(c: MIRFnCall) -> Seq<(MIRExpression, bool)> {
    let args = c.args@.map_values(|a: MIRExpression| (a, false));
    match c.source {
        MIRFnSource::Indirect(e) => seq![(e, false)] + args,
        MIRFnSource::Direct(_, _) => args,
    }
}

/// `f` may be called on every pair of `s`.
pub open spec fn can_visit_each<F: Fn(&MIRExpression, bool) -> bool>(
    f: F,
    s: Seq<(MIRExpression, bool)>,
) -> bool {
    forall|i: int| 0 <= i < s.len() ==> call_requires(f, (&s[i].0, s[i].1))
}

/// What calling `f` on each pair of `s` in order, stopping at the first
/// rejection, returns.
pub open spec fn visited_each<F: Fn(&MIRExpression, bool) -> bool>(
    f: F,
    s: Seq<(MIRExpression, bool)>,
    res: bool,
) -> bool {
    if res {
        forall|i: int| 0 <= i < s.len() ==> call_ensures(f, (&s[i].0, s[i].1), true)
    } else {
        exists|i: int|
            0 <= i < s.len() && call_ensures(f, (&s[i].0, s[i].1), false) && forall|j: int|
                0 <= j < i ==> call_ensures(f, (&s[j].0, s[j].1), true)
    }
}

fn visit_each_vec<F: Fn(&MIRExpression, bool) -> bool>(
    v: &Vec<MIRExpression>,
    write: bool,
    for_each: &F,
) -> (res: bool)
    requires
        can_visit_each(*for_each, v@.map_values(|a: MIRExpression| (a, write))),
    ensures
        visited_each(*for_each, v@.map_values(|a: MIRExpression| (a, write)), res),
{
    let ghost s = v@.map_values(|a: MIRExpression| (a, write));
    let n = v.len();
    let mut k: usize = 0;
    while k < n
        invariant
            n == v.len(),
            k <= n,
            s == v@.map_values(|a: MIRExpression| (a, write)),
            can_visit_each(*for_each, s),
            forall|j: int| 0 <= j < k ==> call_ensures(*for_each, (&s[j].0, s[j].1), true),
        decreases n - k,
    {
        assert(s[k as int] == (v@[k as int], write));
        let ok = for_each(&v[k], write);
        if !ok {
            return false;
        }
        k = k + 1;
    }
    true
}

/// Calls `for_each` on each expression the statement holds directly (see
/// [`stmt_exprs`]) with whether it is a place written to, and stops at the
/// first call that returns false. Returns whether every call returned true.
pub fn find_exprs<F: Fn(&MIRExpression, bool) -> bool>(statement: &MIRStatement, for_each: &F) -> (res: bool)
    requires
        can_visit_each(*for_each, stmt_exprs(*statement)),
    ensures
        visited_each(*for_each, stmt_exprs(*statement), res),
{
    let ghost s = stmt_exprs(*statement);
    match statement {
        MIRStatement::CreateVariable { value: Some(v), .. } => {
            assert(s[0] == (*v, false));
            for_each(v, false)
        },
        MIRStatement::LoopStatement { condition: Some(c), .. } => {
            assert(s[0] == (*c, false));
            for_each(c, false)
        },
        MIRStatement::IfStatement { condition, .. } | MIRStatement::GotoNotEqual {
            condition,
            ..
        } => {
            assert(s[0] == (*condition, false));
            for_each(condition, false)
        },
        MIRStatement::SetVariable { place, value, .. } | MIRStatement::AddAssign { place, value, .. } | MIRStatement::SubAssign { place, value, .. } | MIRStatement::MulAssign { place, value, .. } | MIRStatement::DivAssign { place, value, .. } => {
            assert(s[0] == (*place, true));
            assert(s[1] == (*value, false));
            if !for_each(place, true) {
                return false;
            }
            for_each(value, false)
        },
        MIRStatement::IncrementVariable { place, .. } | MIRStatement::DecrementVariable {
            place,
            ..
        } => {
            assert(s[0] == (*place, true));
            for_each(place, true)
        },
        MIRStatement::FunctionCall(c) => {
            let ghost args = c.args@.map_values(|a: MIRExpression| (a, false));
            match &c.source {
                MIRFnSource::Indirect(e) => {
                    assert(s == seq![(*e, false)] + args);
                    assert(s[0] == (*e, false));
                    if !for_each(e, false) {
                        return false;
                    }
                    assert forall|i: int| 0 <= i < args.len() implies call_requires(
                        *for_each,
                        (&args[i].0, args[i].1),
                    ) by {
                        assert(s[i + 1] == args[i]);
                    }
                    let r = visit_each_vec(&c.args, false, for_each);
                    proof {
                        if r {
                            assert forall|i: int| 0 <= i < s.len() implies call_ensures(
                                *for_each,
                                (&s[i].0, s[i].1),
                                true,
                            ) by {
                                if i > 0 {
                                    assert(s[i] == args[i - 1]);
                                }
                            }
                        } else {
                            let i = choose|i: int|
                                0 <= i < args.len() && call_ensures(
                                    *for_each,
                                    (&args[i].0, args[i].1),
                                    false,
                                ) && forall|j: int|
                                    0 <= j < i ==> call_ensures(*for_each, (&args[j].0, args[j].1), true);
                            assert(s[i + 1] == args[i]);
                            assert forall|j: int| 0 <= j < i + 1 implies call_ensures(
                                *for_each,
                                (&s[j].0, s[j].1),
                                true,
                            ) by {
                                if j > 0 {
                                    assert(s[j] == args[j - 1]);
                                }
                            }
                        }
                    }
                    r
                },
                MIRFnSource::Direct(_, _) => visit_each_vec(&c.args, false, for_each),
            }
        },
        MIRStatement::Return { expr: Some(e), .. } => {
            assert(s[0] == (*e, false));
            for_each(e, false)
        },
        _ => true,
    }
}

// ---------------------------------------------------------------------------
// Laws of folding
// ---------------------------------------------------------------------------

proof fn lemma_literal_stays(l: ExprV, t: bool, a: bool)
    requires
        l.inner is Number || l.inner is Bool,
    ensures
        reduce_spec(l, t, a) == (true, false, l),
{
}

/// Folding a comparison of two number literals gives the truth value of
/// the comparison of the two numbers; folding `+`, `-` and `*` of two
/// number literals gives the sum, difference and product where it fits in
/// an `i128`, and leaves the node as it is where it does not; a division
/// by the literal zero is left as it is.
pub proof fn lemma_fold_number_literals(e: ExprV, l: ExprV, r: ExprV, a: i128, b: i128, t: bool, ar: bool)
    requires
        l.inner == InnerV::Number(a),
        r.inner == InnerV::Number(b),
    ensures
        reduce_spec(ExprV { inner: InnerV::Greater(Box::new(l), Box::new(r)), ..e }, t, ar) == (
            true,
            true,
            ExprV { inner: InnerV::Bool(a > b), ..e },
        ),
        reduce_spec(ExprV { inner: InnerV::Less(Box::new(l), Box::new(r)), ..e }, t, ar) == (
            true,
            true,
            ExprV { inner: InnerV::Bool(a < b), ..e },
        ),
        reduce_spec(ExprV { inner: InnerV::GreaterEq(Box::new(l), Box::new(r)), ..e }, t, ar) == (
            true,
            true,
            ExprV { inner: InnerV::Bool(a >= b), ..e },
        ),
        reduce_spec(ExprV { inner: InnerV::LessEq(Box::new(l), Box::new(r)), ..e }, t, ar) == (
            true,
            true,
            ExprV { inner: InnerV::Bool(a <= b), ..e },
        ),
        a != 0 && b != 0 ==> reduce_spec(ExprV { inner: InnerV::Equal(Box::new(l), Box::new(r)), ..e }, t, ar) == (
            true,
            true,
            ExprV { inner: InnerV::Bool(a == b), ..e },
        ),
        a != 0 && b != 0 ==> reduce_spec(ExprV { inner: InnerV::NotEqual(Box::new(l), Box::new(r)), ..e }, t, ar)
            == (true, true, ExprV { inner: InnerV::Bool(a != b), ..e }),
        i128::MIN <= a + b <= i128::MAX ==> reduce_spec(
            ExprV { inner: InnerV::Add(Box::new(l), Box::new(r)), ..e },
            t,
            ar,
        ) == (true, true, ExprV { inner: InnerV::Number((a + b) as i128), ..e }),
        i128::MIN <= a - b <= i128::MAX ==> reduce_spec(
            ExprV { inner: InnerV::Sub(Box::new(l), Box::new(r)), ..e },
            t,
            ar,
        ) == (true, true, ExprV { inner: InnerV::Number((a - b) as i128), ..e }),
        i128::MIN <= a * b <= i128::MAX ==> reduce_spec(
            ExprV { inner: InnerV::Mul(Box::new(l), Box::new(r)), ..e },
            t,
            ar,
        ) == (true, true, ExprV { inner: InnerV::Number((a * b) as i128), ..e }),
        !(i128::MIN <= a - b <= i128::MAX) ==> reduce_spec(
            ExprV { inner: InnerV::Sub(Box::new(l), Box::new(r)), ..e },
            t,
            ar,
        ) == (true, false, ExprV { inner: InnerV::Sub(Box::new(l), Box::new(r)), ..e }),
        b == 0 ==> reduce_spec(ExprV { inner: InnerV::Div(Box::new(l), Box::new(r)), ..e }, t, ar) == (
            true,
            false,
            ExprV { inner: InnerV::Div(Box::new(l), Box::new(r)), ..e },
        ),
{
    lemma_literal_stays(l, t, ar);
    lemma_literal_stays(r, t, ar);
}

/// Folding a comparison of two boolean literals orders `false` before
/// `true`, and `&&` and `||` of two boolean literals give the conjunction
/// and the disjunction.
pub proof fn lemma_fold_bool_literals(e: ExprV, l: ExprV, r: ExprV, a: bool, b: bool, t: bool, ar: bool)
    requires
        l.inner == InnerV::Bool(a),
        r.inner == InnerV::Bool(b),
    ensures
        reduce_spec(ExprV { inner: InnerV::Greater(Box::new(l), Box::new(r)), ..e }, t, ar) == (
            true,
            true,
            ExprV { inner: InnerV::Bool(a && !b), ..e },
        ),
        reduce_spec(ExprV { inner: InnerV::Less(Box::new(l), Box::new(r)), ..e }, t, ar) == (
            true,
            true,
            ExprV { inner: InnerV::Bool(!a && b), ..e },
        ),
        reduce_spec(ExprV { inner: InnerV::BoolAnd(Box::new(l), Box::new(r)), ..e }, t, ar) == (
            true,
            true,
            ExprV { inner: InnerV::Bool(a && b), ..e },
        ),
        reduce_spec(ExprV { inner: InnerV::BoolOr(Box::new(l), Box::new(r)), ..e }, t, ar) == (
            true,
            true,
            ExprV { inner: InnerV::Bool(a || b), ..e },
        ),
{
    lemma_literal_stays(l, t, ar);
    lemma_literal_stays(r, t, ar);
}

/// Folding the negation of a number literal gives its opposite where it
/// fits; the logical not of a boolean literal gives its opposite; a
/// conditional on a boolean literal gives the chosen branch once both
/// branches are literals.
pub proof fn lemma_fold_unary_literals(e: ExprV, x: ExprV, y: ExprV, z: ExprV, n: i128, b: bool, t: bool, ar: bool)
    requires
        x.inner == InnerV::Number(n),
        y.inner is Number || y.inner is Bool,
        z.inner is Number || z.inner is Bool,
    ensures
        n != i128::MIN ==> reduce_spec(ExprV { inner: InnerV::Neg(Box::new(x)), ..e }, t, ar) == (
            true,
            true,
            ExprV { inner: InnerV::Number((-n) as i128), ..e },
        ),
        reduce_spec(
            ExprV { inner: InnerV::Not(Box::new(ExprV { inner: InnerV::Bool(b), ..x })), ..e },
            t,
            ar,
        ) == (true, true, ExprV { inner: InnerV::Bool(!b), ..e }),
        reduce_spec(
            ExprV {
                inner: InnerV::Ternary(Box::new(ExprV { inner: InnerV::Bool(b), ..x }), Box::new(y), Box::new(z)),
                ..e
            },
            t,
            ar,
        ) == (
            true,
            true,
            ExprV {
                inner: if b {
                    y.inner
                } else {
                    z.inner
                },
                ..e
            },
        ),
{
    lemma_literal_stays(x, t, ar);
    lemma_literal_stays(y, t, ar);
    lemma_literal_stays(z, t, ar);
    lemma_literal_stays(ExprV { inner: InnerV::Bool(b), ..x }, t, ar);
}

} // verus!
