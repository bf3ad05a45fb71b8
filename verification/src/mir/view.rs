//! Mathematical models of MIR values: strings become character sequences
//! and vectors become sequences, so that contracts can compare and build them.

use super::{
    MIRExpression, MIRExpressionInner, MIRFnCall, MIRFnSource, MIRFunctionArgs, MIRMarker,
    MIRStatement, MIRType, MIRTypeInner, MIRVariable,
};
use crate::parser::span::Span;
use vstd::prelude::*;
use vstd::seq::axiom_seq_len_decreases;

verus! {

/// Model of a [`Span`].
pub struct SpanV {
    pub file: Seq<char>,
    pub start: usize,
    pub end: usize,
    pub text: Seq<char>,
}

/// Model of a [`MIRTypeInner`].
pub enum TypeV {
    UnknownNumber,
    NotConstructed,
    I32,
    U32,
    Bool,
    Unit,
    String,
    Char,
    FunctionPtr(ArgsV, Box<TypeV>),
    Named(Seq<char>),
    Ref(Box<TypeV>),
    Array(Box<TypeV>),
    ArrayFixed(Box<TypeV>, usize),
}

/// Model of a [`MIRFunctionArgs`].
pub struct ArgsV {
    pub args: Seq<TypeV>,
    pub variadic: bool,
}

/// Model of a [`MIRType`].
pub struct TyV {
    pub ty: TypeV,
    pub span: Option<SpanV>,
}

/// Model of a [`MIRMarker`].
pub struct MarkerV {
    pub name: Seq<char>,
    pub span: SpanV,
}

/// Model of a [`MIRExpression`].
pub struct ExprV {
    pub inner: InnerV,
    pub ty: Option<TyV>,
    pub span: SpanV,
}

/// Model of a [`MIRExpressionInner`].
pub enum InnerV {
    Add(Box<ExprV>, Box<ExprV>),
    Sub(Box<ExprV>, Box<ExprV>),
    Mul(Box<ExprV>, Box<ExprV>),
    Div(Box<ExprV>, Box<ExprV>),
    Equal(Box<ExprV>, Box<ExprV>),
    NotEqual(Box<ExprV>, Box<ExprV>),
    Less(Box<ExprV>, Box<ExprV>),
    Greater(Box<ExprV>, Box<ExprV>),
    LessEq(Box<ExprV>, Box<ExprV>),
    GreaterEq(Box<ExprV>, Box<ExprV>),
    BoolAnd(Box<ExprV>, Box<ExprV>),
    BoolOr(Box<ExprV>, Box<ExprV>),
    Number(i128),
    String(Seq<char>),
    Char(char),
    Bool(bool),
    Unit,
    Variable(Seq<char>, Option<usize>),
    FunctionCall(Box<CallV>),
    Ref(Box<ExprV>),
    Deref(Box<ExprV>),
    Neg(Box<ExprV>),
    Not(Box<ExprV>),
    Member(Box<ExprV>, Seq<char>),
    Index(Box<ExprV>, Box<ExprV>),
    Array(Seq<ExprV>),
    Ternary(Box<ExprV>, Box<ExprV>, Box<ExprV>),
    Quine,
    QuineLen,
    QuineSpace,
    QuineLine,
    Binding(MarkerV, Box<ExprV>, MarkerV),
}

/// Model of a [`MIRFnCall`].
pub struct CallV {
    pub source: SourceV,
    pub args: Seq<ExprV>,
    pub args_ty: Option<ArgsV>,
    pub ret_ty: Option<TyV>,
    pub span: SpanV,
}

/// Model of a [`MIRFnSource`].
pub enum SourceV {
    Direct(Seq<char>, SpanV),
    Indirect(ExprV),
}

/// Model of a [`MIRVariable`].
pub struct VarV {
    pub name: Seq<char>,
    pub ty: TyV,
    pub arg: bool,
    pub var_idx: Option<usize>,
    pub span: SpanV,
}

/// Model of a [`MIRStatement`].
pub enum StmtV {
    CreateVariable { var: VarV, value: Option<ExprV>, span: SpanV },
    DropVariable(Seq<char>, usize, SpanV),
    SetVariable { place: ExprV, value: ExprV, span: SpanV },
    IncrementVariable { place: ExprV, span: SpanV },
    DecrementVariable { place: ExprV, span: SpanV },
    AddAssign { place: ExprV, value: ExprV, span: SpanV },
    SubAssign { place: ExprV, value: ExprV, span: SpanV },
    MulAssign { place: ExprV, value: ExprV, span: SpanV },
    DivAssign { place: ExprV, value: ExprV, span: SpanV },
    FunctionCall(CallV),
    Return { expr: Option<ExprV>, span: SpanV },
    Label { name: Seq<char>, span: SpanV },
    Goto { name: Seq<char>, index: Option<usize>, span: SpanV },
    GotoNotEqual { name: Seq<char>, index: Option<usize>, condition: ExprV, span: SpanV },
    IfStatement { condition: ExprV, on_true: Seq<StmtV>, on_false: Seq<StmtV>, span: SpanV },
    LoopStatement { condition: Option<ExprV>, body: Seq<StmtV>, iterate: Seq<StmtV>, span: SpanV },
    ScopeStatement { body: Seq<StmtV>, span: SpanV },
    ContinueStatement { span: SpanV },
    BreakStatement { span: SpanV },
    MarkerStatement { name: Seq<char>, span: SpanV },
}

pub open spec fn span_view(s: Span) -> SpanV {
    SpanV { file: s.file@, start: s.start, end: s.end, text: s.text@ }
}

impl View for Span {
    type V = SpanV;

    open spec fn view(&self) -> SpanV {
        span_view(*self)
    }
}

pub open spec fn type_view(t: MIRTypeInner) -> TypeV
    decreases t, 0nat,
{
    match t {
        MIRTypeInner::UnknownNumber => TypeV::UnknownNumber,
        MIRTypeInner::NotConstructed => TypeV::NotConstructed,
        MIRTypeInner::I32 => TypeV::I32,
        MIRTypeInner::U32 => TypeV::U32,
        MIRTypeInner::Bool => TypeV::Bool,
        MIRTypeInner::Unit => TypeV::Unit,
        MIRTypeInner::String => TypeV::String,
        MIRTypeInner::Char => TypeV::Char,
        MIRTypeInner::FunctionPtr(args, ret) => TypeV::FunctionPtr(
            ArgsV { args: types_view(args.args@), variadic: args.variadic },
            Box::new(type_view(*ret)),
        ),
        MIRTypeInner::Named(name) => TypeV::Named(name@),
        MIRTypeInner::Ref(inner) => TypeV::Ref(Box::new(type_view(*inner))),
        MIRTypeInner::Array(inner) => TypeV::Array(Box::new(type_view(*inner))),
        MIRTypeInner::ArrayFixed(inner, len) => TypeV::ArrayFixed(Box::new(type_view(*inner)), len),
    }
}

pub open spec fn types_view(s: Seq<MIRTypeInner>) -> Seq<TypeV>
    decreases s, s.len(),
{
    if s.len() == 0 {
        Seq::empty()
    } else {
        proof {
            axiom_seq_len_decreases(s, s.drop_last());
        }
        types_view(s.drop_last()).push(type_view(s.last()))
    }
}

pub open spec fn args_view(a: MIRFunctionArgs) -> ArgsV {
    ArgsV { args: types_view(a.args@), variadic: a.variadic }
}

pub open spec fn ty_view(t: MIRType) -> TyV {
    TyV {
        ty: type_view(t.ty),
        span: match t.span {
            Some(s) => Some(span_view(s)),
            None => None,
        },
    }
}

pub open spec fn opt_ty_view(t: Option<MIRType>) -> Option<TyV> {
    match t {
        Some(t) => Some(ty_view(t)),
        None => None,
    }
}

pub open spec fn marker_view(m: MIRMarker) -> MarkerV {
    MarkerV { name: m.name@, span: span_view(m.span) }
}

pub open spec fn expr_view(e: MIRExpression) -> ExprV
    decreases e, 0nat,
{
    ExprV { inner: inner_view(e.inner), ty: opt_ty_view(e.ty), span: span_view(e.span) }
}

pub open spec fn inner_view(i: MIRExpressionInner) -> InnerV
    decreases i, 0nat,
{
    match i {
        MIRExpressionInner::Add(l, r) => InnerV::Add(Box::new(expr_view(*l)), Box::new(expr_view(*r))),
        MIRExpressionInner::Sub(l, r) => InnerV::Sub(Box::new(expr_view(*l)), Box::new(expr_view(*r))),
        MIRExpressionInner::Mul(l, r) => InnerV::Mul(Box::new(expr_view(*l)), Box::new(expr_view(*r))),
        MIRExpressionInner::Div(l, r) => InnerV::Div(Box::new(expr_view(*l)), Box::new(expr_view(*r))),
        MIRExpressionInner::Equal(l, r) => InnerV::Equal(Box::new(expr_view(*l)), Box::new(expr_view(*r))),
        MIRExpressionInner::NotEqual(l, r) => InnerV::NotEqual(Box::new(expr_view(*l)), Box::new(expr_view(*r))),
        MIRExpressionInner::Less(l, r) => InnerV::Less(Box::new(expr_view(*l)), Box::new(expr_view(*r))),
        MIRExpressionInner::Greater(l, r) => InnerV::Greater(Box::new(expr_view(*l)), Box::new(expr_view(*r))),
        MIRExpressionInner::LessEq(l, r) => InnerV::LessEq(Box::new(expr_view(*l)), Box::new(expr_view(*r))),
        MIRExpressionInner::GreaterEq(l, r) => InnerV::GreaterEq(Box::new(expr_view(*l)), Box::new(expr_view(*r))),
        MIRExpressionInner::BoolAnd(l, r) => InnerV::BoolAnd(Box::new(expr_view(*l)), Box::new(expr_view(*r))),
        MIRExpressionInner::BoolOr(l, r) => InnerV::BoolOr(Box::new(expr_view(*l)), Box::new(expr_view(*r))),
        MIRExpressionInner::Number(n) => InnerV::Number(n),
        MIRExpressionInner::String(s) => InnerV::String(s@),
        MIRExpressionInner::Char(c) => InnerV::Char(c),
        MIRExpressionInner::Bool(b) => InnerV::Bool(b),
        MIRExpressionInner::Unit => InnerV::Unit,
        MIRExpressionInner::Variable(n, idx) => InnerV::Variable(n@, idx),
        MIRExpressionInner::FunctionCall(c) => InnerV::FunctionCall(Box::new(call_view(*c))),
        MIRExpressionInner::Ref(x) => InnerV::Ref(Box::new(expr_view(*x))),
        MIRExpressionInner::Deref(x) => InnerV::Deref(Box::new(expr_view(*x))),
        MIRExpressionInner::Neg(x) => InnerV::Neg(Box::new(expr_view(*x))),
        MIRExpressionInner::Not(x) => InnerV::Not(Box::new(expr_view(*x))),
        MIRExpressionInner::Member(x, f) => InnerV::Member(Box::new(expr_view(*x)), f@),
        MIRExpressionInner::Index(b, i) => InnerV::Index(Box::new(expr_view(*b)), Box::new(expr_view(*i))),
        MIRExpressionInner::Array(elems) => InnerV::Array(exprs_view(elems@)),
        MIRExpressionInner::Ternary(c, t, f) => InnerV::Ternary(
            Box::new(expr_view(*c)),
            Box::new(expr_view(*t)),
            Box::new(expr_view(*f)),
        ),
        MIRExpressionInner::Quine => InnerV::Quine,
        MIRExpressionInner::QuineLen => InnerV::QuineLen,
        MIRExpressionInner::QuineSpace => InnerV::QuineSpace,
        MIRExpressionInner::QuineLine => InnerV::QuineLine,
        MIRExpressionInner::Binding(l, x, r) => InnerV::Binding(
            marker_view(l),
            Box::new(expr_view(*x)),
            marker_view(r),
        ),
    }
}

pub open spec fn exprs_view(s: Seq<MIRExpression>) -> Seq<ExprV>
    decreases s, s.len(),
{
    if s.len() == 0 {
        Seq::empty()
    } else {
        proof {
            axiom_seq_len_decreases(s, s.drop_last());
        }
        exprs_view(s.drop_last()).push(expr_view(s.last()))
    }
}

pub open spec fn call_view(c: MIRFnCall) -> CallV
    decreases c, 0nat,
{
    CallV {
        source: source_view(c.source),
        args: exprs_view(c.args@),
        args_ty: match c.args_ty {
            Some(a) => Some(args_view(a)),
            None => None,
        },
        ret_ty: opt_ty_view(c.ret_ty),
        span: span_view(c.span),
    }
}

pub open spec fn source_view(s: MIRFnSource) -> SourceV
    decreases s, 0nat,
{
    match s {
        MIRFnSource::Direct(name, span) => SourceV::Direct(name@, span_view(span)),
        MIRFnSource::Indirect(e) => SourceV::Indirect(expr_view(e)),
    }
}

pub open spec fn opt_expr_view(e: Option<MIRExpression>) -> Option<ExprV> {
    match e {
        Some(e) => Some(expr_view(e)),
        None => None,
    }
}

pub open spec fn var_view(v: MIRVariable) -> VarV {
    VarV {
        name: v.name@,
        ty: ty_view(v.ty),
        arg: v.arg,
        var_idx: v.var_idx,
        span: span_view(v.span),
    }
}

pub open spec fn stmt_view(s: MIRStatement) -> StmtV
    decreases s, 0nat,
{
    match s {
        MIRStatement::CreateVariable { var, value, span } => StmtV::CreateVariable {
            var: var_view(var),
            value: opt_expr_view(value),
            span: span_view(span),
        },
        MIRStatement::DropVariable(n, i, span) => StmtV::DropVariable(n@, i, span_view(span)),
        MIRStatement::SetVariable { place, value, span } => StmtV::SetVariable {
            place: expr_view(place),
            value: expr_view(value),
            span: span_view(span),
        },
        MIRStatement::IncrementVariable { place, span } => StmtV::IncrementVariable {
            place: expr_view(place),
            span: span_view(span),
        },
        MIRStatement::DecrementVariable { place, span } => StmtV::DecrementVariable {
            place: expr_view(place),
            span: span_view(span),
        },
        MIRStatement::AddAssign { place, value, span } => StmtV::AddAssign {
            place: expr_view(place),
            value: expr_view(value),
            span: span_view(span),
        },
        MIRStatement::SubAssign { place, value, span } => StmtV::SubAssign {
            place: expr_view(place),
            value: expr_view(value),
            span: span_view(span),
        },
        MIRStatement::MulAssign { place, value, span } => StmtV::MulAssign {
            place: expr_view(place),
            value: expr_view(value),
            span: span_view(span),
        },
        MIRStatement::DivAssign { place, value, span } => StmtV::DivAssign {
            place: expr_view(place),
            value: expr_view(value),
            span: span_view(span),
        },
        MIRStatement::FunctionCall(c) => StmtV::FunctionCall(call_view(c)),
        MIRStatement::Return { expr, span } => StmtV::Return {
            expr: opt_expr_view(expr),
            span: span_view(span),
        },
        MIRStatement::Label { name, span } => StmtV::Label { name: name@, span: span_view(span) },
        MIRStatement::Goto { name, index, span } => StmtV::Goto {
            name: name@,
            index,
            span: span_view(span),
        },
        MIRStatement::GotoNotEqual { name, index, condition, span } => StmtV::GotoNotEqual {
            name: name@,
            index,
            condition: expr_view(condition),
            span: span_view(span),
        },
        MIRStatement::IfStatement { condition, on_true, on_false, span } => StmtV::IfStatement {
            condition: expr_view(condition),
            on_true: stmts_view(on_true@),
            on_false: stmts_view(on_false@),
            span: span_view(span),
        },
        MIRStatement::LoopStatement { condition, body, iterate, span } => StmtV::LoopStatement {
            condition: opt_expr_view(condition),
            body: stmts_view(body@),
            iterate: stmts_view(iterate@),
            span: span_view(span),
        },
        MIRStatement::ScopeStatement { body, span } => StmtV::ScopeStatement {
            body: stmts_view(body@),
            span: span_view(span),
        },
        MIRStatement::ContinueStatement { span } => StmtV::ContinueStatement { span: span_view(span) },
        MIRStatement::BreakStatement { span } => StmtV::BreakStatement { span: span_view(span) },
        MIRStatement::MarkerStatement { name, span } => StmtV::MarkerStatement {
            name: name@,
            span: span_view(span),
        },
    }
}

pub open spec fn stmts_view(s: Seq<MIRStatement>) -> Seq<StmtV>
    decreases s, s.len(),
{
    if s.len() == 0 {
        Seq::empty()
    } else {
        proof {
            axiom_seq_len_decreases(s, s.drop_last());
        }
        stmts_view(s.drop_last()).push(stmt_view(s.last()))
    }
}

impl View for MIRTypeInner {
    type V = TypeV;

    open spec fn view(&self) -> TypeV {
        type_view(*self)
    }
}

impl View for MIRType {
    type V = TyV;

    open spec fn view(&self) -> TyV {
        ty_view(*self)
    }
}

impl View for MIRFunctionArgs {
    type V = ArgsV;

    open spec fn view(&self) -> ArgsV {
        args_view(*self)
    }
}

impl View for MIRMarker {
    type V = MarkerV;

    open spec fn view(&self) -> MarkerV {
        marker_view(*self)
    }
}

impl View for MIRExpression {
    type V = ExprV;

    open spec fn view(&self) -> ExprV {
        expr_view(*self)
    }
}

impl View for MIRExpressionInner {
    type V = InnerV;

    open spec fn view(&self) -> InnerV {
        inner_view(*self)
    }
}

impl View for MIRFnCall {
    type V = CallV;

    open spec fn view(&self) -> CallV {
        call_view(*self)
    }
}

impl View for MIRFnSource {
    type V = SourceV;

    open spec fn view(&self) -> SourceV {
        source_view(*self)
    }
}

impl View for MIRVariable {
    type V = VarV;

    open spec fn view(&self) -> VarV {
        var_view(*self)
    }
}

impl View for MIRStatement {
    type V = StmtV;

    open spec fn view(&self) -> StmtV {
        stmt_view(*self)
    }
}

// ---------------------------------------------------------------------------
// Views of sequences
// ---------------------------------------------------------------------------

/// The view of a sequence of expressions has one element per expression.
pub proof fn lemma_exprs_view_index(s: Seq<MIRExpression>)
    ensures
        exprs_view(s).len() == s.len(),
        forall|i: int| 0 <= i < s.len() ==> #[trigger] exprs_view(s)[i] == s[i]@,
    decreases s.len(),
{
    if s.len() > 0 {
        lemma_exprs_view_index(s.drop_last());
    }
}

/// Viewing a sequence with one more expression pushes that expression's view.
pub proof fn lemma_exprs_view_push(s: Seq<MIRExpression>, x: MIRExpression)
    ensures
        exprs_view(s.push(x)) == exprs_view(s).push(x@),
{
    assert(s.push(x).drop_last() =~= s);
}

/// The view of a sequence of statements has one element per statement.
pub proof fn lemma_stmts_view_index(s: Seq<MIRStatement>)
    ensures
        stmts_view(s).len() == s.len(),
        forall|i: int| 0 <= i < s.len() ==> #[trigger] stmts_view(s)[i] == s[i]@,
    decreases s.len(),
{
    if s.len() > 0 {
        lemma_stmts_view_index(s.drop_last());
    }
}

/// Viewing a sequence with one more statement pushes that statement's view.
pub proof fn lemma_stmts_view_push(s: Seq<MIRStatement>, x: MIRStatement)
    ensures
        stmts_view(s.push(x)) == stmts_view(s).push(x@),
{
    assert(s.push(x).drop_last() =~= s);
}

/// Viewing a concatenation concatenates the views.
pub proof fn lemma_stmts_view_add(a: Seq<MIRStatement>, b: Seq<MIRStatement>)
    ensures
        stmts_view(a + b) == stmts_view(a) + stmts_view(b),
{
    lemma_stmts_view_index(a);
    lemma_stmts_view_index(b);
    lemma_stmts_view_index(a + b);
    assert(stmts_view(a + b) =~= stmts_view(a) + stmts_view(b));
}

/// A measure of a statement that shrinks towards nested blocks.
pub open spec fn stmt_size(s: MIRStatement) -> nat
    decreases s, 0nat,
{
    match s {
        MIRStatement::IfStatement { on_true, on_false, .. } => 1 + stmts_size(on_true@) + stmts_size(
            on_false@,
        ),
        MIRStatement::LoopStatement { body, iterate, .. } => 1 + stmts_size(body@) + stmts_size(
            iterate@,
        ),
        MIRStatement::ScopeStatement { body, .. } => 1 + stmts_size(body@),
        _ => 1,
    }
}

/// A measure of a block: more than that of each of its statements.
pub open spec fn stmts_size(s: Seq<MIRStatement>) -> nat
    decreases s, s.len(),
{
    if s.len() == 0 {
        1
    } else {
        proof {
            axiom_seq_len_decreases(s, s.drop_last());
        }
        stmts_size(s.drop_last()) + stmt_size(s.last())
    }
}

/// Each statement of a block measures less than the block.
pub proof fn lemma_stmts_size_elems(s: Seq<MIRStatement>)
    ensures
        forall|i: int| 0 <= i < s.len() ==> stmt_size(#[trigger] s[i]) < stmts_size(s),
    decreases s.len(),
{
    if s.len() > 0 {
        lemma_stmts_size_elems(s.drop_last());
        assert forall|i: int| 0 <= i < s.len() implies stmt_size(#[trigger] s[i]) < stmts_size(s) by {
            if i < s.len() - 1 {
                assert(s[i] == s.drop_last()[i]);
            }
        }
    }
}

} // verus!
