//! Inlining primitive values: a read of a local variable whose value is a
//! known primitive (a number, boolean, string, unit or reference) becomes
//! that value.
//!
//! Values are learned from assignments and declarations, in order through a
//! block. They are forgotten when the variable is written otherwise, when a
//! reference to it is taken (for good: it can then change behind the
//! analysis's back), and after a nested block for every variable the block
//! writes. A loop forgets what its body and step write before its condition
//! is read, since they run before the condition does again.

use super::expr::{call_size, expr_size, exprs_size, inner_size, lemma_exprs_size_elems};
use super::inline::copy_inner;
use super::view::{
    exprs_view, lemma_exprs_view_push, lemma_stmts_size_elems, lemma_stmts_view_index,
    lemma_stmts_view_push, stmt_size, stmts_size, stmts_view, CallV, ExprV, InnerV, SourceV, StmtV,
};
use super::{MIRExpression, MIRExpressionInner, MIRFnCall, MIRFnSource, MIRFunction, MIRStatement};
use vstd::prelude::*;
use vstd::seq::axiom_seq_len_decreases;

verus! {

/// Known values of variables by index; a later entry for an index counts.
pub type PrimVals = Seq<(usize, InnerV)>;

/// What the analysis knows at a point of a block: the known values, and
/// the variables that a reference was taken to.
pub struct PrimData {
    pub vals: PrimVals,
    pub perm: Seq<usize>,
}

/// The known value of variable `i`.
pub open spec fn find_prim(vals: PrimVals, i: usize) -> Option<InnerV>
    decreases vals.len(),
{
    if vals.len() == 0 {
        None
    } else if vals.last().0 == i {
        Some(vals.last().1)
    } else {
        find_prim(vals.drop_last(), i)
    }
}

/// The known values without those of the variables in `ks`.
pub open spec fn drop_keys(vals: PrimVals, ks: Seq<usize>) -> PrimVals
    decreases vals.len(),
{
    if vals.len() == 0 {
        vals
    } else if ks.contains(vals.last().0) {
        drop_keys(vals.drop_last(), ks)
    } else {
        drop_keys(vals.drop_last(), ks).push(vals.last())
    }
}

/// A value that is inlined: a number, boolean, string, unit or reference.
pub open spec fn is_primitive(i: InnerV) -> bool {
    i is Number || i is Bool || i is String || i is Unit || i is Ref
}

/// Forgets the variables in `ws` and in `rs`; the latter for good.
pub open spec fn forget(d: PrimData, ws: Seq<usize>, rs: Seq<usize>) -> PrimData {
    PrimData { vals: drop_keys(d.vals, ws + rs), perm: d.perm + rs }
}

// ---------------------------------------------------------------------------
// Expressions
// ---------------------------------------------------------------------------

/// An expression with every read of a variable of known value replaced by
/// the value; the direct operand of `&` is left alone.
pub open spec fn prim_expr(vals: PrimVals, e: ExprV) -> ExprV
    decreases e, 1nat,
{
    match e.inner {
        InnerV::Variable(_, Some(i)) => match find_prim(vals, i) {
            Some(v) => ExprV { inner: v, ..e },
            None => e,
        },
        InnerV::Ref(x) => if x.inner is Variable {
            e
        } else {
            ExprV { inner: InnerV::Ref(Box::new(prim_expr(vals, *x))), ..e }
        },
        _ => ExprV { inner: prim_inner(vals, e.inner), ..e },
    }
}

/// [`prim_expr`] on the parts of an expression.
pub open spec fn prim_inner(vals: PrimVals, i: InnerV) -> InnerV
    decreases i, 0nat,
{
    match i {
        InnerV::Add(l, r) => InnerV::Add(Box::new(prim_expr(vals, *l)), Box::new(prim_expr(vals, *r))),
        InnerV::Sub(l, r) => InnerV::Sub(Box::new(prim_expr(vals, *l)), Box::new(prim_expr(vals, *r))),
        InnerV::Mul(l, r) => InnerV::Mul(Box::new(prim_expr(vals, *l)), Box::new(prim_expr(vals, *r))),
        InnerV::Div(l, r) => InnerV::Div(Box::new(prim_expr(vals, *l)), Box::new(prim_expr(vals, *r))),
        InnerV::Equal(l, r) => InnerV::Equal(Box::new(prim_expr(vals, *l)), Box::new(prim_expr(vals, *r))),
        InnerV::NotEqual(l, r) => InnerV::NotEqual(Box::new(prim_expr(vals, *l)), Box::new(prim_expr(vals, *r))),
        InnerV::Less(l, r) => InnerV::Less(Box::new(prim_expr(vals, *l)), Box::new(prim_expr(vals, *r))),
        InnerV::Greater(l, r) => InnerV::Greater(Box::new(prim_expr(vals, *l)), Box::new(prim_expr(vals, *r))),
        InnerV::LessEq(l, r) => InnerV::LessEq(Box::new(prim_expr(vals, *l)), Box::new(prim_expr(vals, *r))),
        InnerV::GreaterEq(l, r) => InnerV::GreaterEq(Box::new(prim_expr(vals, *l)), Box::new(prim_expr(vals, *r))),
        InnerV::BoolAnd(l, r) => InnerV::BoolAnd(Box::new(prim_expr(vals, *l)), Box::new(prim_expr(vals, *r))),
        InnerV::BoolOr(l, r) => InnerV::BoolOr(Box::new(prim_expr(vals, *l)), Box::new(prim_expr(vals, *r))),
        InnerV::Index(l, r) => InnerV::Index(Box::new(prim_expr(vals, *l)), Box::new(prim_expr(vals, *r))),
        InnerV::Ref(x) => InnerV::Ref(Box::new(prim_expr(vals, *x))),
        InnerV::Deref(x) => InnerV::Deref(Box::new(prim_expr(vals, *x))),
        InnerV::Neg(x) => InnerV::Neg(Box::new(prim_expr(vals, *x))),
        InnerV::Not(x) => InnerV::Not(Box::new(prim_expr(vals, *x))),
        InnerV::Member(x, f) => InnerV::Member(Box::new(prim_expr(vals, *x)), f),
        InnerV::Binding(l, x, r) => InnerV::Binding(l, Box::new(prim_expr(vals, *x)), r),
        InnerV::Ternary(c, t, f) => InnerV::Ternary(
            Box::new(prim_expr(vals, *c)),
            Box::new(prim_expr(vals, *t)),
            Box::new(prim_expr(vals, *f)),
        ),
        InnerV::Array(s) => InnerV::Array(prim_exprs(vals, s)),
        InnerV::FunctionCall(c) => InnerV::FunctionCall(Box::new(prim_call(vals, *c))),
        _ => i,
    }
}

/// [`prim_expr`] on each expression of a list.
pub open spec fn prim_exprs(vals: PrimVals, s: Seq<ExprV>) -> Seq<ExprV>
    decreases s, s.len(),
{
    if s.len() == 0 {
        s
    } else {
        proof {
            axiom_seq_len_decreases(s, s.drop_last());
        }
        prim_exprs(vals, s.drop_last()).push(prim_expr(vals, s.last()))
    }
}

/// [`prim_expr`] on the callee (when it is an expression) and arguments.
pub open spec fn prim_call(vals: PrimVals, c: CallV) -> CallV
    decreases c, 0nat,
{
    CallV {
        source: match c.source {
            SourceV::Indirect(e) => SourceV::Indirect(prim_expr(vals, e)),
            SourceV::Direct(_, _) => c.source,
        },
        args: prim_exprs(vals, c.args),
        ..c
    }
}

pub open spec fn prim_opt(vals: PrimVals, e: Option<ExprV>) -> Option<ExprV> {
    match e {
        Some(x) => Some(prim_expr(vals, x)),
        None => None,
    }
}

/// The variables that an expression takes a reference to, in order.
pub open spec fn expr_refs(e: ExprV) -> Seq<usize>
    decreases e, 1nat,
{
    match e.inner {
        InnerV::Ref(x) => match x.inner {
            InnerV::Variable(_, Some(i)) => seq![i],
            _ => expr_refs(*x),
        },
        _ => inner_refs(e.inner),
    }
}

pub open spec fn inner_refs(i: InnerV) -> Seq<usize>
    decreases i, 0nat,
{
    match i {
        InnerV::Add(l, r) | InnerV::Sub(l, r) | InnerV::Mul(l, r) | InnerV::Div(l, r)
        | InnerV::Equal(l, r) | InnerV::NotEqual(l, r) | InnerV::Less(l, r)
        | InnerV::Greater(l, r) | InnerV::LessEq(l, r) | InnerV::GreaterEq(l, r)
        | InnerV::BoolAnd(l, r) | InnerV::BoolOr(l, r) | InnerV::Index(l, r) => expr_refs(*l)
            + expr_refs(*r),
        InnerV::Ref(x) | InnerV::Deref(x) | InnerV::Neg(x) | InnerV::Not(x) | InnerV::Member(
            x,
            _,
        ) | InnerV::Binding(_, x, _) => expr_refs(*x),
        InnerV::Ternary(c, t, f) => expr_refs(*c) + expr_refs(*t) + expr_refs(*f),
        InnerV::Array(s) => exprs_refs(s),
        InnerV::FunctionCall(c) => call_refs(*c),
        _ => Seq::empty(),
    }
}

pub open spec fn exprs_refs(s: Seq<ExprV>) -> Seq<usize>
    decreases s, s.len(),
{
    if s.len() == 0 {
        Seq::empty()
    } else {
        proof {
            axiom_seq_len_decreases(s, s.drop_last());
        }
        exprs_refs(s.drop_last()) + expr_refs(s.last())
    }
}

pub open spec fn call_refs(c: CallV) -> Seq<usize>
    decreases c, 0nat,
{
    match c.source {
        SourceV::Indirect(e) => expr_refs(e) + exprs_refs(c.args),
        SourceV::Direct(_, _) => exprs_refs(c.args),
    }
}

pub open spec fn opt_refs(e: Option<ExprV>) -> Seq<usize> {
    match e {
        Some(x) => expr_refs(x),
        None => Seq::empty(),
    }
}

// ---------------------------------------------------------------------------
// Statements
// ---------------------------------------------------------------------------

/// The variable a statement writes directly (not in nested blocks).
pub open spec fn own_write(s: StmtV) -> Option<usize> {
    match s {
        StmtV::CreateVariable { var, .. } => var.var_idx,
        StmtV::SetVariable { place, .. } | StmtV::AddAssign { place, .. }
        | StmtV::SubAssign { place, .. } | StmtV::MulAssign { place, .. }
        | StmtV::DivAssign { place, .. } | StmtV::IncrementVariable { place, .. }
        | StmtV::DecrementVariable { place, .. } => match place.inner {
            InnerV::Variable(_, Some(i)) => Some(i),
            _ => None,
        },
        _ => None,
    }
}

/// The value a statement gives the variable it writes, when that is a
/// plain assignment or an initialized declaration.
pub open spec fn own_value(s: StmtV) -> Option<InnerV> {
    match s {
        StmtV::CreateVariable { value: Some(v), .. } => Some(v.inner),
        StmtV::SetVariable { value, .. } => Some(value.inner),
        _ => None,
    }
}

/// The references a statement takes in its own expressions.
pub open spec fn own_refs(s: StmtV) -> Seq<usize> {
    match s {
        StmtV::CreateVariable { value, .. } => opt_refs(value),
        StmtV::SetVariable { place, value, .. } | StmtV::AddAssign { place, value, .. }
        | StmtV::SubAssign { place, value, .. } | StmtV::MulAssign { place, value, .. }
        | StmtV::DivAssign { place, value, .. } => expr_refs(place) + expr_refs(value),
        StmtV::IncrementVariable { place, .. } | StmtV::DecrementVariable { place, .. } => expr_refs(place),
        StmtV::FunctionCall(c) => call_refs(c),
        StmtV::Return { expr, .. } => opt_refs(expr),
        StmtV::GotoNotEqual { condition, .. } | StmtV::IfStatement { condition, .. } => expr_refs(condition),
        StmtV::LoopStatement { condition, .. } => opt_refs(condition),
        _ => Seq::empty(),
    }
}

/// The variables written anywhere in a statement, nested blocks included.
pub open spec fn stmt_writes(s: StmtV) -> Seq<usize>
    decreases s, 0nat,
{
    let own = match own_write(s) {
        Some(i) => seq![i],
        None => Seq::empty(),
    };
    own + match s {
        StmtV::IfStatement { on_true, on_false, .. } => block_writes(on_true) + block_writes(on_false),
        StmtV::LoopStatement { body, iterate, .. } => block_writes(body) + block_writes(iterate),
        StmtV::ScopeStatement { body, .. } => block_writes(body),
        _ => Seq::empty(),
    }
}

pub open spec fn block_writes(b: Seq<StmtV>) -> Seq<usize>
    decreases b, 1nat,
{
    if b.len() == 0 {
        Seq::empty()
    } else {
        proof {
            axiom_seq_len_decreases(b, b.drop_last());
        }
        block_writes(b.drop_last()) + stmt_writes(b.last())
    }
}

/// The references taken anywhere in a statement, nested blocks included.
pub open spec fn stmt_refs(s: StmtV) -> Seq<usize>
    decreases s, 0nat,
{
    own_refs(s) + match s {
        StmtV::IfStatement { on_true, on_false, .. } => block_refs(on_true) + block_refs(on_false),
        StmtV::LoopStatement { body, iterate, .. } => block_refs(body) + block_refs(iterate),
        StmtV::ScopeStatement { body, .. } => block_refs(body),
        _ => Seq::empty(),
    }
}

pub open spec fn block_refs(b: Seq<StmtV>) -> Seq<usize>
    decreases b, 1nat,
{
    if b.len() == 0 {
        Seq::empty()
    } else {
        proof {
            axiom_seq_len_decreases(b, b.drop_last());
        }
        block_refs(b.drop_last()) + stmt_refs(b.last())
    }
}

/// A statement's own expressions that are read (not the places written)
/// with known values inlined; nested blocks are left for [`prim_stmt`].
pub open spec fn inline_own(vals: PrimVals, s: StmtV) -> StmtV {
    match s {
        StmtV::CreateVariable { var, value, span } => StmtV::CreateVariable { var, value: prim_opt(vals, value), span },
        StmtV::SetVariable { place, value, span } => StmtV::SetVariable { place, value: prim_expr(vals, value), span },
        StmtV::AddAssign { place, value, span } => StmtV::AddAssign { place, value: prim_expr(vals, value), span },
        StmtV::SubAssign { place, value, span } => StmtV::SubAssign { place, value: prim_expr(vals, value), span },
        StmtV::MulAssign { place, value, span } => StmtV::MulAssign { place, value: prim_expr(vals, value), span },
        StmtV::DivAssign { place, value, span } => StmtV::DivAssign { place, value: prim_expr(vals, value), span },
        StmtV::FunctionCall(c) => StmtV::FunctionCall(prim_call(vals, c)),
        StmtV::Return { expr, span } => StmtV::Return { expr: prim_opt(vals, expr), span },
        StmtV::GotoNotEqual { name, index, condition, span } => StmtV::GotoNotEqual {
            name,
            index,
            condition: prim_expr(vals, condition),
            span,
        },
        StmtV::IfStatement { condition, on_true, on_false, span } => StmtV::IfStatement {
            condition: prim_expr(vals, condition),
            on_true,
            on_false,
            span,
        },
        StmtV::LoopStatement { condition, body, iterate, span } => StmtV::LoopStatement {
            condition: prim_opt(vals, condition),
            body,
            iterate,
            span,
        },
        _ => s,
    }
}

/// What is known after a statement's own effect: references it takes are
/// forgotten for good; the variable it writes gets the written value when
/// that is primitive (and no reference to it was ever taken), else it is
/// forgotten.
pub open spec fn after_own(d: PrimData, s: StmtV) -> PrimData {
    let rs = own_refs(s);
    let d1 = PrimData { vals: drop_keys(d.vals, rs), perm: d.perm + rs };
    match own_write(s) {
        Some(i) => match own_value(s) {
            Some(v) => if is_primitive(v) && !d1.perm.contains(i) {
                PrimData { vals: d1.vals.push((i, v)), ..d1 }
            } else {
                PrimData { vals: drop_keys(d1.vals, seq![i]), ..d1 }
            },
            None => PrimData { vals: drop_keys(d1.vals, seq![i]), ..d1 },
        },
        None => d1,
    }
}

/// Inlines known values in a statement and its nested blocks, and what is
/// known after it.
pub open spec fn prim_stmt(s: StmtV, d: PrimData) -> (StmtV, PrimData)
    decreases s, 2nat,
{
    let d0 = match s {
        StmtV::LoopStatement { body, iterate, .. } => forget(
            d,
            block_writes(body) + block_writes(iterate),
            block_refs(body) + block_refs(iterate),
        ),
        _ => d,
    };
    let s1 = inline_own(d0.vals, s);
    let d2 = after_own(d0, s1);
    match s1 {
        StmtV::IfStatement { condition, on_true, on_false, span } => {
            let t = prim_block(on_true, d2).0;
            let f = prim_block(on_false, d2).0;
            (
                StmtV::IfStatement { condition, on_true: t, on_false: f, span },
                forget(d2, block_writes(t) + block_writes(f), block_refs(t) + block_refs(f)),
            )
        },
        StmtV::LoopStatement { condition, body, iterate, span } => {
            let b = prim_block(body, d2).0;
            let it = prim_block(iterate, d2).0;
            (
                StmtV::LoopStatement { condition, body: b, iterate: it, span },
                forget(d2, block_writes(b) + block_writes(it), block_refs(b) + block_refs(it)),
            )
        },
        StmtV::ScopeStatement { body, span } => {
            let b = prim_block(body, d2).0;
            (StmtV::ScopeStatement { body: b, span }, forget(d2, block_writes(b), block_refs(b)))
        },
        _ => (s1, d2),
    }
}

/// [`prim_stmt`] on the statements of a block, in order.
pub open spec fn prim_block(b: Seq<StmtV>, d: PrimData) -> (Seq<StmtV>, PrimData)
    decreases b, 3nat,
{
    if b.len() == 0 {
        (b, d)
    } else {
        proof {
            axiom_seq_len_decreases(b, b.drop_last());
        }
        let (pre, d1) = prim_block(b.drop_last(), d);
        let (s, d2) = prim_stmt(b.last(), d1);
        (pre.push(s), d2)
    }
}

/// A function body with primitive values inlined, from nothing known.
pub open spec fn primitives_inlined(b: Seq<StmtV>) -> Seq<StmtV> {
    prim_block(b, PrimData { vals: Seq::empty(), perm: Seq::empty() }).0
}

/// The model of the inner part of an expression.
pub open spec fn inner_view_of(i: MIRExpressionInner) -> InnerV {
    i@
}

// ---------------------------------------------------------------------------
// Executable side: known values
// ---------------------------------------------------------------------------

/// Known values of variables, by index.
pub struct PrimState {
    pub vals: Vec<(usize, MIRExpressionInner)>,
    pub perm: Vec<usize>,
}

pub open spec fn vals_view(v: Seq<(usize, MIRExpressionInner)>) -> PrimVals {
    v.map_values(|p: (usize, MIRExpressionInner)| (p.0, p.1@))
}

pub open spec fn state_view(st: PrimState) -> PrimData {
    PrimData { vals: vals_view(st.vals@), perm: st.perm@ }
}

/// Every known value is primitive.
pub open spec fn vals_primitive(vals: PrimVals) -> bool {
    forall|i: int| 0 <= i < vals.len() ==> is_primitive(#[trigger] vals[i].1)
}

proof fn lemma_find_prim_primitive(vals: PrimVals, i: usize)
    requires
        vals_primitive(vals),
    ensures
        find_prim(vals, i) matches Some(v) ==> is_primitive(v),
    decreases vals.len(),
{
    if vals.len() > 0 {
        assert(vals_primitive(vals.drop_last())) by {
            assert forall|j: int| 0 <= j < vals.drop_last().len() implies is_primitive(
                #[trigger] vals.drop_last()[j].1,
            ) by {
                assert(vals.drop_last()[j] == vals[j]);
            }
        }
        lemma_find_prim_primitive(vals.drop_last(), i);
        assert(is_primitive(vals[vals.len() - 1].1));
    }
}

proof fn lemma_drop_keys_primitive(vals: PrimVals, ks: Seq<usize>)
    requires
        vals_primitive(vals),
    ensures
        vals_primitive(drop_keys(vals, ks)),
    decreases vals.len(),
{
    if vals.len() > 0 {
        assert(vals_primitive(vals.drop_last())) by {
            assert forall|j: int| 0 <= j < vals.drop_last().len() implies is_primitive(
                #[trigger] vals.drop_last()[j].1,
            ) by {
                assert(vals.drop_last()[j] == vals[j]);
            }
        }
        lemma_drop_keys_primitive(vals.drop_last(), ks);
        assert(is_primitive(vals[vals.len() - 1].1));
    }
}

fn lookup_prim(vals: &Vec<(usize, MIRExpressionInner)>, i: usize) -> (res: Option<MIRExpressionInner>)
    ensures
        match (res, find_prim(vals_view(vals@), i)) {
            (Some(x), Some(y)) => x@ == y,
            (None, None) => true,
            _ => false,
        },
{
    let ghost vv = vals_view(vals@);
    let mut k = vals.len();
    assert(vv.take(k as int) =~= vv);
    while k > 0
        invariant
            k <= vals@.len(),
            vv == vals_view(vals@),
            find_prim(vv, i) == find_prim(vv.take(k as int), i),
        decreases k,
    {
        assert(vv.take(k as int).drop_last() =~= vv.take(k - 1));
        assert(vv.take(k as int).last() == (vals@[k - 1].0, vals@[k - 1].1@));
        if vals[k - 1].0 == i {
            return Some(copy_inner(&vals[k - 1].1));
        }
        k = k - 1;
    }
    None
}

fn contains_idx(v: &Vec<usize>, i: usize) -> (res: bool)
    ensures
        res == v@.contains(i),
{
    let mut k: usize = 0;
    while k < v.len()
        invariant
            k <= v@.len(),
            forall|j: int| 0 <= j < k ==> v@[j] != i,
        decreases v@.len() - k,
    {
        if v[k] == i {
            assert(v@[k as int] == i);
            return true;
        }
        k = k + 1;
    }
    false
}

fn drop_keys_exec(vals: Vec<(usize, MIRExpressionInner)>, ks: &Vec<usize>) -> (res: Vec<(usize, MIRExpressionInner)>)
    ensures
        vals_view(res@) == drop_keys(vals_view(vals@), ks@),
{
    let ghost orig = vals@;
    let n = vals.len();
    let mut rest = vals;
    let mut out: Vec<(usize, MIRExpressionInner)> = Vec::new();
    let mut k: usize = 0;
    assert(vals_view(orig.take(0)) =~= Seq::<(usize, InnerV)>::empty());
    assert(vals_view(out@) =~= Seq::<(usize, InnerV)>::empty());
    while k < n
        invariant
            n == orig.len(),
            k <= n,
            rest@ =~= orig.subrange(k as int, n as int),
            vals_view(out@) == drop_keys(vals_view(orig.take(k as int)), ks@),
        decreases n - k,
    {
        let x = rest.remove(0);
        assert(x == orig[k as int]);
        proof {
            assert(vals_view(orig.take(k as int + 1)).drop_last() =~= vals_view(orig.take(k as int)));
            assert(vals_view(orig.take(k as int + 1)).last() == (x.0, x.1@));
        }
        if !contains_idx(ks, x.0) {
            let ghost before = out@;
            out.push(x);
            assert(vals_view(out@) =~= vals_view(before).push((x.0, x.1@)));
        }
        k = k + 1;
    }
    assert(orig.take(n as int) =~= orig);
    out
}

// ---------------------------------------------------------------------------
// Executable side: expressions
// ---------------------------------------------------------------------------

proof fn lemma_push_differs<A>(a: Seq<A>, x: A, b: Seq<A>, y: A)
    ensures
        (a.push(x) != b.push(y)) == (a != b || x != y),
{
    if a.push(x) == b.push(y) {
        assert(a =~= a.push(x).drop_last());
        assert(b =~= b.push(y).drop_last());
        assert(x == a.push(x).last());
    }
}

/// Computes [`prim_expr`], consuming the expression; says whether anything
/// was inlined.
fn prim_owned(vals: &Vec<(usize, MIRExpressionInner)>, e: MIRExpression) -> (res: (MIRExpression, bool))
    requires
        vals_primitive(vals_view(vals@)),
    ensures
        res.0@ == prim_expr(vals_view(vals@), e@),
        res.1 == (res.0@ != e@),
    decreases expr_size(e), 2nat,
{
    let (is_var, idx) = match &e.inner {
        MIRExpressionInner::Variable(_, Some(i)) => (true, *i),
        _ => (false, 0),
    };
    assert(e@.inner == inner_view_of(e.inner));
    if is_var {
        proof {
            lemma_find_prim_primitive(vals_view(vals@), idx);
        }
        match lookup_prim(vals, idx) {
            Some(v) => {
                let ghost ev = e@;
                let MIRExpression { inner, ty, span } = e;
                let r = MIRExpression { inner: v, ty, span };
                assert(r@ == (ExprV { inner: v@, ..ev }));
                (r, true)
            },
            None => (e, false),
        }
    } else {
        let direct_ref = match &e.inner {
            MIRExpressionInner::Ref(x) => match &x.inner {
                MIRExpressionInner::Variable(..) => {
                    assert(x@.inner == inner_view_of(x.inner));
                    assert(e@.inner == InnerV::Ref(Box::new(x@)));
                    true
                },
                _ => false,
            },
            _ => false,
        };
        if direct_ref {
            (e, false)
        } else {
            let MIRExpression { inner, ty, span } = e;
            let (i2, c) = prim_inner_exec(vals, inner);
            (MIRExpression { inner: i2, ty, span }, c)
        }
    }
}

fn prim_box(vals: &Vec<(usize, MIRExpressionInner)>, x: Box<MIRExpression>) -> (res: (Box<MIRExpression>, bool))
    requires
        vals_primitive(vals_view(vals@)),
    ensures
        (*res.0)@ == prim_expr(vals_view(vals@), (*x)@),
        res.1 == ((*res.0)@ != (*x)@),
    decreases expr_size(*x), 3nat,
{
    let (y, c) = prim_owned(vals, *x);
    (Box::new(y), c)
}

#[verifier::spinoff_prover]
fn prim_inner_exec(vals: &Vec<(usize, MIRExpressionInner)>, i: MIRExpressionInner) -> (res: (MIRExpressionInner, bool))
    requires
        vals_primitive(vals_view(vals@)),
    ensures
        res.0@ == prim_inner(vals_view(vals@), i@),
        res.1 == (res.0@ != i@),
    decreases inner_size(i), 1nat,
{
    match i {
        MIRExpressionInner::Add(l, r) => {
            let (a, ca) = prim_box(vals, l);
            let (b, cb) = prim_box(vals, r);
            (MIRExpressionInner::Add(a, b), ca || cb)
        },
        MIRExpressionInner::Sub(l, r) => {
            let (a, ca) = prim_box(vals, l);
            let (b, cb) = prim_box(vals, r);
            (MIRExpressionInner::Sub(a, b), ca || cb)
        },
        MIRExpressionInner::Mul(l, r) => {
            let (a, ca) = prim_box(vals, l);
            let (b, cb) = prim_box(vals, r);
            (MIRExpressionInner::Mul(a, b), ca || cb)
        },
        MIRExpressionInner::Div(l, r) => {
            let (a, ca) = prim_box(vals, l);
            let (b, cb) = prim_box(vals, r);
            (MIRExpressionInner::Div(a, b), ca || cb)
        },
        MIRExpressionInner::Equal(l, r) => {
            let (a, ca) = prim_box(vals, l);
            let (b, cb) = prim_box(vals, r);
            (MIRExpressionInner::Equal(a, b), ca || cb)
        },
        MIRExpressionInner::NotEqual(l, r) => {
            let (a, ca) = prim_box(vals, l);
            let (b, cb) = prim_box(vals, r);
            (MIRExpressionInner::NotEqual(a, b), ca || cb)
        },
        MIRExpressionInner::Less(l, r) => {
            let (a, ca) = prim_box(vals, l);
            let (b, cb) = prim_box(vals, r);
            (MIRExpressionInner::Less(a, b), ca || cb)
        },
        MIRExpressionInner::Greater(l, r) => {
            let (a, ca) = prim_box(vals, l);
            let (b, cb) = prim_box(vals, r);
            (MIRExpressionInner::Greater(a, b), ca || cb)
        },
        MIRExpressionInner::LessEq(l, r) => {
            let (a, ca) = prim_box(vals, l);
            let (b, cb) = prim_box(vals, r);
            (MIRExpressionInner::LessEq(a, b), ca || cb)
        },
        MIRExpressionInner::GreaterEq(l, r) => {
            let (a, ca) = prim_box(vals, l);
            let (b, cb) = prim_box(vals, r);
            (MIRExpressionInner::GreaterEq(a, b), ca || cb)
        },
        MIRExpressionInner::BoolAnd(l, r) => {
            let (a, ca) = prim_box(vals, l);
            let (b, cb) = prim_box(vals, r);
            (MIRExpressionInner::BoolAnd(a, b), ca || cb)
        },
        MIRExpressionInner::BoolOr(l, r) => {
            let (a, ca) = prim_box(vals, l);
            let (b, cb) = prim_box(vals, r);
            (MIRExpressionInner::BoolOr(a, b), ca || cb)
        },
        MIRExpressionInner::Index(l, r) => {
            let (a, ca) = prim_box(vals, l);
            let (b, cb) = prim_box(vals, r);
            (MIRExpressionInner::Index(a, b), ca || cb)
        },
        MIRExpressionInner::Ref(x) => {
            let (a, ca) = prim_box(vals, x);
            (MIRExpressionInner::Ref(a), ca)
        },
        MIRExpressionInner::Deref(x) => {
            let (a, ca) = prim_box(vals, x);
            (MIRExpressionInner::Deref(a), ca)
        },
        MIRExpressionInner::Neg(x) => {
            let (a, ca) = prim_box(vals, x);
            (MIRExpressionInner::Neg(a), ca)
        },
        MIRExpressionInner::Not(x) => {
            let (a, ca) = prim_box(vals, x);
            (MIRExpressionInner::Not(a), ca)
        },
        MIRExpressionInner::Member(x, f) => {
            let (a, ca) = prim_box(vals, x);
            (MIRExpressionInner::Member(a, f), ca)
        },
        MIRExpressionInner::Binding(l, x, r) => {
            let (a, ca) = prim_box(vals, x);
            (MIRExpressionInner::Binding(l, a, r), ca)
        },
        MIRExpressionInner::Ternary(c, t, f) => {
            let (a, ca) = prim_box(vals, c);
            let (b, cb) = prim_box(vals, t);
            let (d, cd) = prim_box(vals, f);
            (MIRExpressionInner::Ternary(a, b, d), ca || cb || cd)
        },
        MIRExpressionInner::Array(v) => {
            let (w, c) = prim_vec(vals, v);
            (MIRExpressionInner::Array(w), c)
        },
        MIRExpressionInner::FunctionCall(c) => {
            let (d, cc) = prim_call_exec(vals, *c);
            (MIRExpressionInner::FunctionCall(Box::new(d)), cc)
        },
        other => (other, false),
    }
}

fn prim_vec(vals: &Vec<(usize, MIRExpressionInner)>, v: Vec<MIRExpression>) -> (res: (Vec<MIRExpression>, bool))
    requires
        vals_primitive(vals_view(vals@)),
    ensures
        exprs_view(res.0@) == prim_exprs(vals_view(vals@), exprs_view(v@)),
        res.1 == (exprs_view(res.0@) != exprs_view(v@)),
    decreases exprs_size(v@), 0nat,
{
    let ghost orig = v@;
    let ghost t = vals_view(vals@);
    proof {
        lemma_exprs_size_elems(orig);
        assert(orig.take(0) =~= Seq::<MIRExpression>::empty());
        assert(exprs_view(Seq::<MIRExpression>::empty()) =~= Seq::<ExprV>::empty());
    }
    let n = v.len();
    let mut rest = v;
    let mut out: Vec<MIRExpression> = Vec::new();
    let mut changed = false;
    let mut k: usize = 0;
    while k < n
        invariant
            n == orig.len(),
            k <= n,
            t == vals_view(vals@),
            vals_primitive(t),
            rest@ =~= orig.subrange(k as int, n as int),
            exprs_view(out@) == prim_exprs(t, exprs_view(orig.take(k as int))),
            changed == (exprs_view(out@) != exprs_view(orig.take(k as int))),
            forall|i: int| 0 <= i < orig.len() ==> expr_size(#[trigger] orig[i]) < exprs_size(orig),
            exprs_size(orig) == exprs_size(v@),
        decreases n - k,
    {
        let x = rest.remove(0);
        assert(x == orig[k as int]);
        assert(expr_size(x) < exprs_size(v@));
        proof {
            assert(orig.take(k as int + 1) =~= orig.take(k as int).push(x));
            lemma_exprs_view_push(orig.take(k as int), x);
            assert(exprs_view(orig.take(k as int + 1)).drop_last() =~= exprs_view(orig.take(k as int)));
        }
        let (y, c) = prim_owned(vals, x);
        proof {
            lemma_exprs_view_push(out@, y);
            lemma_push_differs(exprs_view(out@), y@, exprs_view(orig.take(k as int)), x@);
        }
        out.push(y);
        changed = changed || c;
        k = k + 1;
    }
    assert(orig.take(n as int) =~= orig);
    (out, changed)
}

fn prim_call_exec(vals: &Vec<(usize, MIRExpressionInner)>, c: MIRFnCall) -> (res: (MIRFnCall, bool))
    requires
        vals_primitive(vals_view(vals@)),
    ensures
        res.0@ == prim_call(vals_view(vals@), c@),
        res.1 == (res.0@ != c@),
    decreases call_size(c), 0nat,
{
    let MIRFnCall { source, args, args_ty, ret_ty, span } = c;
    let (source2, cs) = match source {
        MIRFnSource::Indirect(e) => {
            let (e2, ce) = prim_owned(vals, e);
            (MIRFnSource::Indirect(e2), ce)
        },
        MIRFnSource::Direct(n, sp) => (MIRFnSource::Direct(n, sp), false),
    };
    let (args2, ca) = prim_vec(vals, args);
    (MIRFnCall { source: source2, args: args2, args_ty, ret_ty, span }, cs || ca)
}

fn prim_opt_exec(vals: &Vec<(usize, MIRExpressionInner)>, e: Option<MIRExpression>) -> (res: (Option<MIRExpression>, bool))
    requires
        vals_primitive(vals_view(vals@)),
    ensures
        super::view::opt_expr_view(res.0) == prim_opt(vals_view(vals@), super::view::opt_expr_view(e)),
        res.1 == (super::view::opt_expr_view(res.0) != super::view::opt_expr_view(e)),
{
    match e {
        Some(x) => {
            let (y, c) = prim_owned(vals, x);
            (Some(y), c)
        },
        None => (None, false),
    }
}

// ---------------------------------------------------------------------------
// Executable side: references and writes
// ---------------------------------------------------------------------------

fn refs_expr_exec(e: &MIRExpression, out: &mut Vec<usize>)
    ensures
        final(out)@ == old(out)@ + expr_refs(e@),
    decreases expr_size(*e), 1nat,
{
    assert(e@.inner == inner_view_of(e.inner));
    match &e.inner {
        MIRExpressionInner::Ref(x) => match &x.inner {
            MIRExpressionInner::Variable(_, Some(i)) => {
                assert(x@.inner == inner_view_of(x.inner));
                out.push(*i);
                assert(out@ =~= old(out)@ + seq![*i]);
            },
            _ => {
                assert(x@.inner == inner_view_of(x.inner));
                refs_expr_exec(x, out);
            },
        },
        _ => refs_inner_exec(&e.inner, out),
    }
}

#[verifier::spinoff_prover]
#[verifier::rlimit(40)]
fn refs_inner_exec(i: &MIRExpressionInner, out: &mut Vec<usize>)
    ensures
        final(out)@ == old(out)@ + inner_refs(i@),
    decreases inner_size(*i), 0nat,
{
    let ghost o = out@;
    match i {
        MIRExpressionInner::Add(l, r) => {
            refs_expr_exec(l, out);
            refs_expr_exec(r, out);
        },
        MIRExpressionInner::Sub(l, r) => {
            refs_expr_exec(l, out);
            refs_expr_exec(r, out);
        },
        MIRExpressionInner::Mul(l, r) => {
            refs_expr_exec(l, out);
            refs_expr_exec(r, out);
        },
        MIRExpressionInner::Div(l, r) => {
            refs_expr_exec(l, out);
            refs_expr_exec(r, out);
        },
        MIRExpressionInner::Equal(l, r) => {
            refs_expr_exec(l, out);
            refs_expr_exec(r, out);
        },
        MIRExpressionInner::NotEqual(l, r) => {
            refs_expr_exec(l, out);
            refs_expr_exec(r, out);
        },
        MIRExpressionInner::Less(l, r) => {
            refs_expr_exec(l, out);
            refs_expr_exec(r, out);
        },
        MIRExpressionInner::Greater(l, r) => {
            refs_expr_exec(l, out);
            refs_expr_exec(r, out);
        },
        MIRExpressionInner::LessEq(l, r) => {
            refs_expr_exec(l, out);
            refs_expr_exec(r, out);
        },
        MIRExpressionInner::GreaterEq(l, r) => {
            refs_expr_exec(l, out);
            refs_expr_exec(r, out);
        },
        MIRExpressionInner::BoolAnd(l, r) => {
            refs_expr_exec(l, out);
            refs_expr_exec(r, out);
        },
        MIRExpressionInner::BoolOr(l, r) => {
            refs_expr_exec(l, out);
            refs_expr_exec(r, out);
        },
        MIRExpressionInner::Index(l, r) => {
            refs_expr_exec(l, out);
            refs_expr_exec(r, out);
        },
        MIRExpressionInner::Ref(x) => refs_expr_exec(x, out),
        MIRExpressionInner::Deref(x) => refs_expr_exec(x, out),
        MIRExpressionInner::Neg(x) => refs_expr_exec(x, out),
        MIRExpressionInner::Not(x) => refs_expr_exec(x, out),
        MIRExpressionInner::Member(x, _) => refs_expr_exec(x, out),
        MIRExpressionInner::Binding(_, x, _) => refs_expr_exec(x, out),
        MIRExpressionInner::Ternary(c, t, f) => {
            refs_expr_exec(c, out);
            refs_expr_exec(t, out);
            refs_expr_exec(f, out);
        },
        MIRExpressionInner::Array(v) => refs_vec_exec(v, out),
        MIRExpressionInner::FunctionCall(c) => refs_call_exec(c, out),
        _ => {},
    }
    assert(out@ =~= o + inner_refs(i@));
}

fn refs_vec_exec(v: &Vec<MIRExpression>, out: &mut Vec<usize>)
    ensures
        final(out)@ == old(out)@ + exprs_refs(exprs_view(v@)),
    decreases exprs_size(v@), 0nat,
{
    let ghost o = out@;
    let ghost vv = exprs_view(v@);
    proof {
        lemma_exprs_size_elems(v@);
        super::view::lemma_exprs_view_index(v@);
        assert(vv.take(0) =~= Seq::<ExprV>::empty());
        assert(o + Seq::<usize>::empty() =~= o);
    }
    let mut k: usize = 0;
    while k < v.len()
        invariant
            k <= v@.len(),
            vv == exprs_view(v@),
            vv.len() == v@.len(),
            forall|j: int| 0 <= j < v@.len() ==> #[trigger] vv[j] == v@[j]@,
            out@ == o + exprs_refs(vv.take(k as int)),
            forall|j: int| 0 <= j < v@.len() ==> expr_size(#[trigger] v@[j]) < exprs_size(v@),
        decreases v@.len() - k,
    {
        proof {
            assert(vv.take(k as int + 1).drop_last() =~= vv.take(k as int));
            assert(vv.take(k as int + 1).last() == v@[k as int]@);
        }
        refs_expr_exec(&v[k], out);
        assert(out@ =~= o + exprs_refs(vv.take(k as int + 1)));
        k = k + 1;
    }
    assert(vv.take(k as int) =~= vv);
}

fn refs_call_exec(c: &MIRFnCall, out: &mut Vec<usize>)
    ensures
        final(out)@ == old(out)@ + call_refs(c@),
    decreases call_size(*c), 1nat,
{
    let ghost o = out@;
    match &c.source {
        MIRFnSource::Indirect(e) => refs_expr_exec(e, out),
        MIRFnSource::Direct(..) => {},
    }
    refs_vec_exec(&c.args, out);
    assert(out@ =~= o + call_refs(c@));
}

fn refs_opt_exec(e: &Option<MIRExpression>, out: &mut Vec<usize>)
    ensures
        final(out)@ == old(out)@ + opt_refs(super::view::opt_expr_view(*e)),
{
    match e {
        Some(x) => refs_expr_exec(x, out),
        None => {
            assert(out@ =~= old(out)@ + Seq::<usize>::empty());
        },
    }
}


// ---------------------------------------------------------------------------
// Executable side: statements
// ---------------------------------------------------------------------------

fn own_write_exec(s: &MIRStatement) -> (res: Option<usize>)
    ensures
        res == own_write(s@),
{
    let place = match s {
        MIRStatement::CreateVariable { var, .. } => {
            return var.var_idx;
        },
        MIRStatement::SetVariable { place, .. } | MIRStatement::AddAssign { place, .. }
        | MIRStatement::SubAssign { place, .. } | MIRStatement::MulAssign { place, .. }
        | MIRStatement::DivAssign { place, .. } | MIRStatement::IncrementVariable { place, .. }
        | MIRStatement::DecrementVariable { place, .. } => place,
        _ => {
            return None;
        },
    };
    assert(place@.inner == inner_view_of(place.inner));
    match &place.inner {
        MIRExpressionInner::Variable(_, Some(i)) => Some(*i),
        _ => None,
    }
}

fn own_value_exec(s: &MIRStatement) -> (res: Option<MIRExpressionInner>)
    ensures
        match (res, own_value(s@)) {
            (Some(x), Some(y)) => x@ == y,
            (None, None) => true,
            _ => false,
        },
{
    match s {
        MIRStatement::CreateVariable { value: Some(v), .. } => Some(copy_inner(&v.inner)),
        MIRStatement::SetVariable { value, .. } => Some(copy_inner(&value.inner)),
        _ => None,
    }
}

fn is_primitive_exec(i: &MIRExpressionInner) -> (res: bool)
    ensures
        res == is_primitive(i@),
{
    match i {
        MIRExpressionInner::Number(_) | MIRExpressionInner::Bool(_) | MIRExpressionInner::String(_)
        | MIRExpressionInner::Unit | MIRExpressionInner::Ref(_) => true,
        _ => false,
    }
}

fn own_refs_exec(s: &MIRStatement, out: &mut Vec<usize>)
    ensures
        final(out)@ == old(out)@ + own_refs(s@),
{
    let ghost o = out@;
    match s {
        MIRStatement::CreateVariable { value, .. } => refs_opt_exec(value, out),
        MIRStatement::SetVariable { place, value, .. } | MIRStatement::AddAssign { place, value, .. }
        | MIRStatement::SubAssign { place, value, .. } | MIRStatement::MulAssign { place, value, .. }
        | MIRStatement::DivAssign { place, value, .. } => {
            refs_expr_exec(place, out);
            refs_expr_exec(value, out);
        },
        MIRStatement::IncrementVariable { place, .. } | MIRStatement::DecrementVariable { place, .. } => {
            refs_expr_exec(place, out)
        },
        MIRStatement::FunctionCall(c) => refs_call_exec(c, out),
        MIRStatement::Return { expr, .. } => refs_opt_exec(expr, out),
        MIRStatement::GotoNotEqual { condition, .. } | MIRStatement::IfStatement { condition, .. } => {
            refs_expr_exec(condition, out)
        },
        MIRStatement::LoopStatement { condition, .. } => refs_opt_exec(condition, out),
        _ => {},
    }
    assert(out@ =~= o + own_refs(s@));
}

fn stmt_writes_exec(s: &MIRStatement, out: &mut Vec<usize>)
    ensures
        final(out)@ == old(out)@ + stmt_writes(s@),
    decreases stmt_size(*s), 0nat,
{
    let ghost o = out@;
    match own_write_exec(s) {
        Some(i) => out.push(i),
        None => {},
    }
    let ghost mid = out@;
    match s {
        MIRStatement::IfStatement { on_true, on_false, .. } => {
            proof {
                lemma_stmts_size_elems(on_true@);
            }
            block_writes_exec(on_true, out);
            block_writes_exec(on_false, out);
        },
        MIRStatement::LoopStatement { body, iterate, .. } => {
            block_writes_exec(body, out);
            block_writes_exec(iterate, out);
        },
        MIRStatement::ScopeStatement { body, .. } => block_writes_exec(body, out),
        _ => {},
    }
    assert(out@ =~= o + stmt_writes(s@));
}

fn block_writes_exec(b: &Vec<MIRStatement>, out: &mut Vec<usize>)
    ensures
        final(out)@ == old(out)@ + block_writes(stmts_view(b@)),
    decreases stmts_size(b@), 1nat,
{
    let ghost o = out@;
    let ghost bv = stmts_view(b@);
    proof {
        lemma_stmts_size_elems(b@);
        lemma_stmts_view_index(b@);
        assert(bv.take(0) =~= Seq::<StmtV>::empty());
        assert(o + Seq::<usize>::empty() =~= o);
    }
    let mut k: usize = 0;
    while k < b.len()
        invariant
            k <= b@.len(),
            bv == stmts_view(b@),
            bv.len() == b@.len(),
            forall|j: int| 0 <= j < b@.len() ==> #[trigger] bv[j] == b@[j]@,
            out@ == o + block_writes(bv.take(k as int)),
            forall|j: int| 0 <= j < b@.len() ==> stmt_size(#[trigger] b@[j]) < stmts_size(b@),
        decreases b@.len() - k,
    {
        proof {
            assert(bv.take(k as int + 1).drop_last() =~= bv.take(k as int));
            assert(bv.take(k as int + 1).last() == b@[k as int]@);
        }
        stmt_writes_exec(&b[k], out);
        assert(out@ =~= o + block_writes(bv.take(k as int + 1)));
        k = k + 1;
    }
    assert(bv.take(k as int) =~= bv);
}

fn stmt_refs_exec(s: &MIRStatement, out: &mut Vec<usize>)
    ensures
        final(out)@ == old(out)@ + stmt_refs(s@),
    decreases stmt_size(*s), 0nat,
{
    let ghost o = out@;
    own_refs_exec(s, out);
    match s {
        MIRStatement::IfStatement { on_true, on_false, .. } => {
            proof {
                lemma_stmts_size_elems(on_true@);
            }
            block_refs_exec(on_true, out);
            block_refs_exec(on_false, out);
        },
        MIRStatement::LoopStatement { body, iterate, .. } => {
            block_refs_exec(body, out);
            block_refs_exec(iterate, out);
        },
        MIRStatement::ScopeStatement { body, .. } => block_refs_exec(body, out),
        _ => {},
    }
    assert(out@ =~= o + stmt_refs(s@));
}

fn block_refs_exec(b: &Vec<MIRStatement>, out: &mut Vec<usize>)
    ensures
        final(out)@ == old(out)@ + block_refs(stmts_view(b@)),
    decreases stmts_size(b@), 1nat,
{
    let ghost o = out@;
    let ghost bv = stmts_view(b@);
    proof {
        lemma_stmts_size_elems(b@);
        lemma_stmts_view_index(b@);
        assert(bv.take(0) =~= Seq::<StmtV>::empty());
        assert(o + Seq::<usize>::empty() =~= o);
    }
    let mut k: usize = 0;
    while k < b.len()
        invariant
            k <= b@.len(),
            bv == stmts_view(b@),
            bv.len() == b@.len(),
            forall|j: int| 0 <= j < b@.len() ==> #[trigger] bv[j] == b@[j]@,
            out@ == o + block_refs(bv.take(k as int)),
            forall|j: int| 0 <= j < b@.len() ==> stmt_size(#[trigger] b@[j]) < stmts_size(b@),
        decreases b@.len() - k,
    {
        proof {
            assert(bv.take(k as int + 1).drop_last() =~= bv.take(k as int));
            assert(bv.take(k as int + 1).last() == b@[k as int]@);
        }
        stmt_refs_exec(&b[k], out);
        assert(out@ =~= o + block_refs(bv.take(k as int + 1)));
        k = k + 1;
    }
    assert(bv.take(k as int) =~= bv);
}


/// Computes [`inline_own`], consuming the statement; says whether anything
/// was inlined.
fn inline_own_exec(vals: &Vec<(usize, MIRExpressionInner)>, s: MIRStatement) -> (res: (MIRStatement, bool))
    requires
        vals_primitive(vals_view(vals@)),
    ensures
        res.0@ == inline_own(vals_view(vals@), s@),
        res.1 == (res.0@ != s@),
        stmt_size(res.0) == stmt_size(s),
{
    match s {
        MIRStatement::CreateVariable { var, value, span } => {
            let (v2, c) = prim_opt_exec(vals, value);
            (MIRStatement::CreateVariable { var, value: v2, span }, c)
        },
        MIRStatement::SetVariable { place, value, span } => {
            let (v2, c) = prim_owned(vals, value);
            (MIRStatement::SetVariable { place, value: v2, span }, c)
        },
        MIRStatement::AddAssign { place, value, span } => {
            let (v2, c) = prim_owned(vals, value);
            (MIRStatement::AddAssign { place, value: v2, span }, c)
        },
        MIRStatement::SubAssign { place, value, span } => {
            let (v2, c) = prim_owned(vals, value);
            (MIRStatement::SubAssign { place, value: v2, span }, c)
        },
        MIRStatement::MulAssign { place, value, span } => {
            let (v2, c) = prim_owned(vals, value);
            (MIRStatement::MulAssign { place, value: v2, span }, c)
        },
        MIRStatement::DivAssign { place, value, span } => {
            let (v2, c) = prim_owned(vals, value);
            (MIRStatement::DivAssign { place, value: v2, span }, c)
        },
        MIRStatement::FunctionCall(call) => {
            let (c2, c) = prim_call_exec(vals, call);
            (MIRStatement::FunctionCall(c2), c)
        },
        MIRStatement::Return { expr, span } => {
            let (e2, c) = prim_opt_exec(vals, expr);
            (MIRStatement::Return { expr: e2, span }, c)
        },
        MIRStatement::GotoNotEqual { name, index, condition, span } => {
            let (e2, c) = prim_owned(vals, condition);
            (MIRStatement::GotoNotEqual { name, index, condition: e2, span }, c)
        },
        MIRStatement::IfStatement { condition, on_true, on_false, span } => {
            let (e2, c) = prim_owned(vals, condition);
            (MIRStatement::IfStatement { condition: e2, on_true, on_false, span }, c)
        },
        MIRStatement::LoopStatement { condition, body, iterate, span } => {
            let (e2, c) = prim_opt_exec(vals, condition);
            (MIRStatement::LoopStatement { condition: e2, body, iterate, span }, c)
        },
        other => (other, false),
    }
}

fn forget_exec(st: &mut PrimState, ws: &Vec<usize>, rs: &Vec<usize>)
    requires
        vals_primitive(state_view(*old(st)).vals),
    ensures
        state_view(*final(st)) == forget(state_view(*old(st)), ws@, rs@),
        vals_primitive(state_view(*final(st)).vals),
{
    let mut all: Vec<usize> = Vec::new();
    let mut k: usize = 0;
    while k < ws.len()
        invariant
            k <= ws@.len(),
            all@ == ws@.take(k as int),
        decreases ws@.len() - k,
    {
        assert(ws@.take(k as int + 1) =~= ws@.take(k as int).push(ws@[k as int]));
        all.push(ws[k]);
        k = k + 1;
    }
    let mut k: usize = 0;
    let ghost w = ws@;
    assert(ws@.take(ws@.len() as int) =~= ws@);
    while k < rs.len()
        invariant
            k <= rs@.len(),
            w == ws@,
            all@ == w + rs@.take(k as int),
            st.perm@ == old(st).perm@ + rs@.take(k as int),
            st.vals@ == old(st).vals@,
        decreases rs@.len() - k,
    {
        assert(rs@.take(k as int + 1) =~= rs@.take(k as int).push(rs@[k as int]));
        all.push(rs[k]);
        st.perm.push(rs[k]);
        assert(all@ =~= w + rs@.take(k as int + 1));
        assert(st.perm@ =~= old(st).perm@ + rs@.take(k as int + 1));
        k = k + 1;
    }
    assert(rs@.take(rs@.len() as int) =~= rs@);
    let mut vals: Vec<(usize, MIRExpressionInner)> = Vec::new();
    std::mem::swap(&mut vals, &mut st.vals);
    proof {
        lemma_drop_keys_primitive(vals_view(vals@), all@);
    }
    st.vals = drop_keys_exec(vals, &all);
}

/// Applies [`after_own`] to the known values.
fn after_own_exec(st: &mut PrimState, s: &MIRStatement)
    requires
        vals_primitive(state_view(*old(st)).vals),
    ensures
        state_view(*final(st)) == after_own(state_view(*old(st)), s@),
        vals_primitive(state_view(*final(st)).vals),
{
    let mut rs: Vec<usize> = Vec::new();
    own_refs_exec(s, &mut rs);
    assert(rs@ =~= own_refs(s@));
    let none: Vec<usize> = Vec::new();
    forget_exec(st, &none, &rs);
    assert(none@ + rs@ =~= rs@);
    match own_write_exec(s) {
        Some(i) => {
            let v = own_value_exec(s);
            let keep = match &v {
                Some(x) => is_primitive_exec(x) && !contains_idx(&st.perm, i),
                None => false,
            };
            if keep {
                let x = v.unwrap();
                let ghost before = st.vals@;
                st.vals.push((i, x));
                assert(vals_view(st.vals@) =~= vals_view(before).push((i, x@)));
            } else {
                let mut one: Vec<usize> = Vec::new();
                one.push(i);
                let mut vals: Vec<(usize, MIRExpressionInner)> = Vec::new();
                std::mem::swap(&mut vals, &mut st.vals);
                proof {
                    lemma_drop_keys_primitive(vals_view(vals@), one@);
                }
                st.vals = drop_keys_exec(vals, &one);
                assert(one@ =~= seq![i]);
            }
        },
        None => {},
    }
}

fn copy_state(st: &PrimState) -> (res: PrimState)
    ensures
        state_view(res) == state_view(*st),
{
    let mut vals: Vec<(usize, MIRExpressionInner)> = Vec::new();
    let mut k: usize = 0;
    while k < st.vals.len()
        invariant
            k <= st.vals@.len(),
            vals_view(vals@) == vals_view(st.vals@.take(k as int)),
        decreases st.vals@.len() - k,
    {
        let ghost before = vals@;
        let x = copy_inner(&st.vals[k].1);
        vals.push((st.vals[k].0, x));
        assert(vals_view(vals@) =~= vals_view(before).push((st.vals@[k as int].0, st.vals@[k as int].1@)));
        assert(vals_view(st.vals@.take(k as int + 1)) =~= vals_view(st.vals@.take(k as int)).push((st.vals@[k as int].0, st.vals@[k as int].1@)));
        assert(st.vals@.take(k as int + 1) =~= st.vals@.take(k as int).push(st.vals@[k as int]));
        assert(vals_view(vals@) =~= vals_view(st.vals@.take(k as int + 1)));
        k = k + 1;
    }
    assert(st.vals@.take(k as int) =~= st.vals@);
    let mut perm: Vec<usize> = Vec::new();
    let mut k: usize = 0;
    while k < st.perm.len()
        invariant
            k <= st.perm@.len(),
            perm@ == st.perm@.take(k as int),
        decreases st.perm@.len() - k,
    {
        assert(st.perm@.take(k as int + 1) =~= st.perm@.take(k as int).push(st.perm@[k as int]));
        perm.push(st.perm[k]);
        k = k + 1;
    }
    assert(st.perm@.take(k as int) =~= st.perm@);
    PrimState { vals, perm }
}

/// Computes [`prim_stmt`], consuming the statement and updating what is
/// known; says whether anything was inlined.
#[verifier::spinoff_prover]
#[verifier::rlimit(80)]
fn prim_stmt_exec(st: &mut PrimState, s: MIRStatement) -> (res: (MIRStatement, bool))
    requires
        vals_primitive(state_view(*old(st)).vals),
    ensures
        (res.0@, state_view(*final(st))) == prim_stmt(s@, state_view(*old(st))),
        res.1 == (res.0@ != s@),
        vals_primitive(state_view(*final(st)).vals),
    decreases stmt_size(s), 2nat,
{
    let ghost sv = s@;
    let ghost d = state_view(*st);
    let is_loop = match &s {
        MIRStatement::LoopStatement { .. } => true,
        _ => false,
    };
    if is_loop {
        let mut ws: Vec<usize> = Vec::new();
        let mut rs: Vec<usize> = Vec::new();
        match &s {
            MIRStatement::LoopStatement { body, iterate, .. } => {
                block_writes_exec(body, &mut ws);
                block_writes_exec(iterate, &mut ws);
                block_refs_exec(body, &mut rs);
                block_refs_exec(iterate, &mut rs);
            },
            _ => {},
        }
        forget_exec(st, &ws, &rs);
    }
    let ghost d0 = state_view(*st);
    let (s1, c1) = inline_own_exec(&st.vals, s);
    after_own_exec(st, &s1);
    let ghost d2 = state_view(*st);
    match s1 {
        MIRStatement::IfStatement { condition, on_true, on_false, span } => {
            proof {
                lemma_stmts_size_elems(on_true@);
            }
            let mut st_t = copy_state(st);
            let (t, ct) = prim_block_exec(&mut st_t, on_true);
            let mut st_f = copy_state(st);
            let (f, cf) = prim_block_exec(&mut st_f, on_false);
            let mut ws: Vec<usize> = Vec::new();
            let mut rs: Vec<usize> = Vec::new();
            block_writes_exec(&t, &mut ws);
            block_writes_exec(&f, &mut ws);
            block_refs_exec(&t, &mut rs);
            block_refs_exec(&f, &mut rs);
            forget_exec(st, &ws, &rs);
            (MIRStatement::IfStatement { condition, on_true: t, on_false: f, span }, c1 || ct || cf)
        },
        MIRStatement::LoopStatement { condition, body, iterate, span } => {
            let mut st_b = copy_state(st);
            let (b, cb) = prim_block_exec(&mut st_b, body);
            let mut st_i = copy_state(st);
            let (it, ci) = prim_block_exec(&mut st_i, iterate);
            let mut ws: Vec<usize> = Vec::new();
            let mut rs: Vec<usize> = Vec::new();
            block_writes_exec(&b, &mut ws);
            block_writes_exec(&it, &mut ws);
            block_refs_exec(&b, &mut rs);
            block_refs_exec(&it, &mut rs);
            forget_exec(st, &ws, &rs);
            (MIRStatement::LoopStatement { condition, body: b, iterate: it, span }, c1 || cb || ci)
        },
        MIRStatement::ScopeStatement { body, span } => {
            let mut st_b = copy_state(st);
            let (b, cb) = prim_block_exec(&mut st_b, body);
            let mut ws: Vec<usize> = Vec::new();
            let mut rs: Vec<usize> = Vec::new();
            block_writes_exec(&b, &mut ws);
            block_refs_exec(&b, &mut rs);
            forget_exec(st, &ws, &rs);
            (MIRStatement::ScopeStatement { body: b, span }, c1 || cb)
        },
        other => (other, c1),
    }
}

/// Computes [`prim_block`], consuming the block.
fn prim_block_exec(st: &mut PrimState, v: Vec<MIRStatement>) -> (res: (Vec<MIRStatement>, bool))
    requires
        vals_primitive(state_view(*old(st)).vals),
    ensures
        (stmts_view(res.0@), state_view(*final(st))) == prim_block(stmts_view(v@), state_view(*old(st))),
        res.1 == (stmts_view(res.0@) != stmts_view(v@)),
        vals_primitive(state_view(*final(st)).vals),
    decreases stmts_size(v@), 3nat,
{
    let ghost orig = v@;
    let ghost bv = stmts_view(v@);
    let ghost d = state_view(*st);
    proof {
        lemma_stmts_size_elems(orig);
        lemma_stmts_view_index(orig);
        assert(bv.take(0) =~= Seq::<StmtV>::empty());
        assert(stmts_view(Seq::<MIRStatement>::empty()) =~= Seq::<StmtV>::empty());
    }
    let n = v.len();
    let mut rest = v;
    let mut out: Vec<MIRStatement> = Vec::new();
    let mut changed = false;
    let mut k: usize = 0;
    while k < n
        invariant
            n == orig.len(),
            k <= n,
            bv == stmts_view(orig),
            bv.len() == n,
            forall|j: int| 0 <= j < n ==> #[trigger] bv[j] == orig[j]@,
            rest@ =~= orig.subrange(k as int, n as int),
            (stmts_view(out@), state_view(*st)) == prim_block(bv.take(k as int), d),
            changed == (stmts_view(out@) != bv.take(k as int)),
            vals_primitive(state_view(*st).vals),
            forall|i: int| 0 <= i < orig.len() ==> stmt_size(#[trigger] orig[i]) < stmts_size(orig),
            stmts_size(orig) == stmts_size(v@),
        decreases n - k,
    {
        let x = rest.remove(0);
        assert(x == orig[k as int]);
        proof {
            assert(bv.take(k as int + 1).drop_last() =~= bv.take(k as int));
            assert(bv.take(k as int + 1).last() == x@);
            assert(bv.take(k as int + 1) =~= bv.take(k as int).push(x@));
        }
        let (y, c) = prim_stmt_exec(st, x);
        proof {
            lemma_stmts_view_push(out@, y);
            lemma_push_differs(stmts_view(out@), y@, bv.take(k as int), x@);
        }
        out.push(y);
        changed = changed || c;
        k = k + 1;
    }
    assert(bv.take(n as int) =~= bv);
    (out, changed)
}

/// Inlines primitive values in a function body (see [`primitives_inlined`]):
/// always succeeds, and says whether the body changed.
pub fn inline_primitives(function: &mut MIRFunction) -> (res: (bool, bool))
    ensures
        res.0,
        stmts_view(final(function).body@) == primitives_inlined(stmts_view(old(function).body@)),
        res.1 == (stmts_view(final(function).body@) != stmts_view(old(function).body@)),
        *final(function) == (MIRFunction { body: final(function).body, ..*old(function) }),
{
    let mut body: Vec<MIRStatement> = Vec::new();
    std::mem::swap(&mut body, &mut function.body);
    let mut st = PrimState { vals: Vec::new(), perm: Vec::new() };
    assert(vals_view(st.vals@) =~= Seq::<(usize, InnerV)>::empty());
    let (b2, changed) = prim_block_exec(&mut st, body);
    function.body = b2;
    (true, changed)
}


} // verus!
