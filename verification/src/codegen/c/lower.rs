//! Lowering of MIR to C tokens.

use super::token::{escape_char, escape_string, spec_escape_char, spec_escape_string};
use crate::codegen::token::{token_views, Token, TokenStyle, TokenView, Tokens};
use crate::mir::expr::{call_size, expr_size, exprs_size, lemma_exprs_size_elems};
use crate::mir::view::{
    exprs_view, lemma_exprs_view_index, CallV, ExprV, InnerV, SourceV, StmtV, TypeV,
};
use crate::mir::eq::expr_eq;
use crate::mir::view::{lemma_stmts_size_elems, lemma_stmts_view_index, stmt_size, stmts_size, stmts_view};
use crate::mir::{
    MIRExpression, MIRExpressionInner, MIRFnCall, MIRFnSource, MIRFunction, MIRStatement, MIRStatic,
    MIRType, MIRTypeInner, MIRVariable,
};
use crate::util::text::{decimal_text, i128_to_decimal, u128_to_decimal};
use vstd::prelude::*;
use vstd::seq::axiom_seq_len_decreases;

verus! {

/// Lowers MIR to C.
#[derive(Debug, Clone, Copy)]
pub struct CLowerer {
    /// The current indentation level, in levels (not spaces).
    pub indent_level: u32,
}

// ---------------------------------------------------------------------------
// Tokens
// ---------------------------------------------------------------------------

/// A required token.
pub open spec fn req(s: Seq<char>) -> TokenView {
    (Some(s), TokenStyle::Required)
}

/// A token for fancy output only.
pub open spec fn fancy(s: Seq<char>) -> TokenView {
    (Some(s), TokenStyle::Fancy)
}

/// A marker token.
pub open spec fn marker(s: Seq<char>) -> TokenView {
    (Some(s), TokenStyle::Marker)
}

/// A line break of fancy output.
pub open spec fn newline() -> TokenView {
    fancy("\n"@)
}

/// `n` levels of indentation.
pub open spec fn indent_tokens(n: nat) -> Seq<TokenView> {
    Seq::new(n, |i: int| fancy("    "@))
}

// ---------------------------------------------------------------------------
// Expressions
// ---------------------------------------------------------------------------

/// How tightly an operator binds in C: lower binds tighter. Literals,
/// names, calls and arrays have none.
pub open spec fn precedence(i: InnerV) -> Option<nat> {
    match i {
        InnerV::Member(..) | InnerV::Index(..) => Some(1),
        InnerV::Ref(..) | InnerV::Deref(..) | InnerV::Neg(..) | InnerV::Not(..) => Some(2),
        InnerV::Mul(..) | InnerV::Div(..) => Some(3),
        InnerV::Add(..) | InnerV::Sub(..) => Some(4),
        InnerV::Less(..) | InnerV::Greater(..) | InnerV::LessEq(..) | InnerV::GreaterEq(..) => Some(6),
        InnerV::Equal(..) | InnerV::NotEqual(..) => Some(7),
        InnerV::BoolAnd(..) => Some(8),
        InnerV::BoolOr(..) => Some(9),
        InnerV::Ternary(..) => Some(13),
        _ => None,
    }
}

/// The precedence of unary operators.
pub open spec fn unary() -> Option<nat> {
    Some(2)
}

/// `0`, `false` or the NUL character: what C reads as false.
pub open spec fn zeroish(e: ExprV) -> bool {
    e.inner == InnerV::Number(0i128) || e.inner == InnerV::Bool(false) || e.inner == InnerV::Char('\0')
}

/// An operand of an operator: a binding (a fenced expression) never stands there.
pub open spec fn operand_ok(e: ExprV) -> bool {
    !(e.inner is Binding)
}

/// An expression whose lowering is defined: no binding stands as the
/// operand of an operator.
pub open spec fn lowerable(e: ExprV) -> bool
    decreases e, 1nat,
{
    lowerable_inner(e.inner)
}

pub open spec fn lowerable_inner(i: InnerV) -> bool
    decreases i, 0nat,
{
    match i {
        InnerV::Add(l, r) => operand_ok(*l) && operand_ok(*r) && lowerable(*l) && lowerable(*r),
        InnerV::Sub(l, r) => operand_ok(*l) && operand_ok(*r) && lowerable(*l) && lowerable(*r),
        InnerV::Div(l, r) => operand_ok(*l) && operand_ok(*r) && lowerable(*l) && lowerable(*r),
        InnerV::Less(l, r) => operand_ok(*l) && operand_ok(*r) && lowerable(*l) && lowerable(*r),
        InnerV::Greater(l, r) => operand_ok(*l) && operand_ok(*r) && lowerable(*l) && lowerable(*r),
        InnerV::LessEq(l, r) => operand_ok(*l) && operand_ok(*r) && lowerable(*l) && lowerable(*r),
        InnerV::GreaterEq(l, r) => operand_ok(*l) && operand_ok(*r) && lowerable(*l) && lowerable(*r),
        InnerV::BoolAnd(l, r) => operand_ok(*l) && operand_ok(*r) && lowerable(*l) && lowerable(*r),
        InnerV::BoolOr(l, r) => operand_ok(*l) && operand_ok(*r) && lowerable(*l) && lowerable(*r),
        InnerV::Mul(l, r) => operand_ok(*l) && operand_ok(*r) && lowerable(*l) && lowerable(*r),
        InnerV::Equal(l, r) => operand_ok(*l) && operand_ok(*r) && lowerable(*l) && lowerable(*r),
        InnerV::NotEqual(l, r) => operand_ok(*l) && operand_ok(*r) && lowerable(*l) && lowerable(*r),
        InnerV::Index(b, x) => operand_ok(*b) && lowerable(*b) && lowerable(*x),
        InnerV::Ref(x) | InnerV::Deref(x) | InnerV::Neg(x) | InnerV::Not(x) | InnerV::Member(x, _) => operand_ok(*x)
            && lowerable(*x),
        InnerV::Ternary(c, t, f) => operand_ok(*c) && operand_ok(*f) && lowerable(*c) && lowerable(*t)
            && lowerable(*f),
        InnerV::Binding(_, x, _) => lowerable(*x),
        InnerV::Array(es) => all_lowerable(es),
        InnerV::FunctionCall(c) => call_lowerable(*c),
        _ => true,
    }
}

pub open spec fn all_lowerable(s: Seq<ExprV>) -> bool
    decreases s, s.len(),
{
    if s.len() == 0 {
        true
    } else {
        proof {
            axiom_seq_len_decreases(s, s.drop_last());
        }
        all_lowerable(s.drop_last()) && lowerable(s.last())
    }
}

pub open spec fn call_lowerable(c: CallV) -> bool
    decreases c, 0nat,
{
    all_lowerable(c.args) && match c.source {
        SourceV::Indirect(e) => lowerable(e),
        SourceV::Direct(_, _) => true,
    }
}

/// An operand lowered, in parentheses where its operator binds less
/// tightly than the one around it (`outer`).
pub open spec fn wrapped(e: ExprV, outer: Option<nat>) -> Seq<TokenView>
    decreases e, 2nat,
{
    let lowered = lower_expr(e);
    match (outer, precedence(e.inner)) {
        (Some(o), Some(i)) => if i > o {
            seq![req("("@)] + lowered + seq![req(")"@)]
        } else {
            lowered
        },
        _ => lowered,
    }
}

/// A right operand lowered for a binary operator of precedence `outer`:
/// in parentheses when its own precedence is greater than or equal to
/// `outer`, since C groups operators of one level from the left (so
/// `a - (b - c)` keeps its parentheses).
pub open spec fn wrapped_right(e: ExprV, outer: Option<nat>) -> Seq<TokenView>
    decreases e, 2nat,
{
    let lowered = lower_expr(e);
    match (outer, precedence(e.inner)) {
        (Some(o), Some(i)) => if i >= o {
            seq![req("("@)] + lowered + seq![req(")"@)]
        } else {
            lowered
        },
        _ => lowered,
    }
}

/// Two lowered operands with an operator between them.
pub open spec fn binary(l: Seq<TokenView>, op: Seq<char>, r: Seq<TokenView>) -> Seq<TokenView> {
    l + seq![req(op)] + r
}

/// The C tokens of an expression.
pub open spec fn lower_expr(e: ExprV) -> Seq<TokenView>
    decreases e, 1nat,
{
    let p = precedence(e.inner);
    match e.inner {
        InnerV::Add(l, r) => binary(wrapped(*l, p), "+"@, wrapped_right(*r, p)),
        InnerV::Sub(l, r) => binary(wrapped(*l, p), "-"@, wrapped_right(*r, p)),
        InnerV::Div(l, r) => binary(wrapped(*l, p), "/"@, wrapped_right(*r, p)),
        InnerV::Less(l, r) => binary(wrapped(*l, p), "<"@, wrapped_right(*r, p)),
        InnerV::Greater(l, r) => binary(wrapped(*l, p), ">"@, wrapped_right(*r, p)),
        InnerV::LessEq(l, r) => binary(wrapped(*l, p), "<="@, wrapped_right(*r, p)),
        InnerV::GreaterEq(l, r) => binary(wrapped(*l, p), ">="@, wrapped_right(*r, p)),
        InnerV::BoolAnd(l, r) => binary(wrapped(*l, p), "&&"@, wrapped_right(*r, p)),
        InnerV::BoolOr(l, r) => binary(wrapped(*l, p), "||"@, wrapped_right(*r, p)),
        InnerV::Mul(l, r) => if l.inner == InnerV::Number(-1i128) {
            seq![req("-"@)] + wrapped(*r, unary())
        } else if r.inner == InnerV::Number(-1i128) {
            seq![req("-"@)] + wrapped(*l, unary())
        } else {
            binary(wrapped(*l, p), "*"@, wrapped_right(*r, p))
        },
        InnerV::NotEqual(l, r) => if zeroish(*r) {
            wrapped(*l, p)
        } else if zeroish(*l) {
            wrapped(*r, p)
        } else {
            binary(wrapped(*l, p), "!="@, wrapped_right(*r, p))
        },
        InnerV::Equal(l, r) => if zeroish(*r) {
            seq![req("!"@)] + wrapped(*l, unary())
        } else if zeroish(*l) {
            seq![req("!"@)] + wrapped(*r, unary())
        } else {
            binary(wrapped(*l, p), "=="@, wrapped_right(*r, p))
        },
        InnerV::Ref(x) => seq![req("&"@)] + wrapped(*x, p),
        InnerV::Deref(x) => seq![req("*"@)] + wrapped(*x, p),
        InnerV::Neg(x) => seq![req("-"@)] + wrapped(*x, p),
        InnerV::Not(x) => seq![req("!"@)] + wrapped(*x, p),
        InnerV::Number(n) => seq![req(decimal_text(n as int))],
        InnerV::String(s) => seq![req("\""@ + spec_escape_string(s) + "\""@)],
        InnerV::Bool(b) => seq![req(if b { "1"@ } else { "0"@ })],
        InnerV::Unit => seq![req("void"@)],
        InnerV::Char(c) => if (c as u32) < 999 {
            seq![req(decimal_text(c as u32 as int))]
        } else {
            seq![req("'"@ + spec_escape_char(decimal_text(c as u32 as int)) + "'"@)]
        },
        InnerV::Variable(name, _) => seq![req(name)],
        InnerV::FunctionCall(c) => lower_call(*c),
        InnerV::Member(b, field) => wrapped(*b, p) + seq![req("."@), req(field)],
        InnerV::Index(b, x) => if x.inner == InnerV::Number(0i128) {
            seq![req("*"@)] + wrapped(*b, unary())
        } else {
            wrapped(*b, p) + seq![req("["@)] + lower_expr(*x) + seq![req("]"@)]
        },
        InnerV::Array(es) => seq![req("{"@)] + lower_list(es, ","@) + seq![req("}"@)],
        InnerV::Ternary(c, t, f) => wrapped(*c, Some(12)) + seq![req("?"@)] + lower_expr(*t) + seq![
            req(":"@),
        ] + wrapped(*f, p),
        InnerV::Quine => seq![req("{"@), marker("$quine"@), req("}"@)],
        InnerV::QuineLen => seq![marker("$quineLen"@)],
        InnerV::QuineSpace => seq![marker("$quineSpace"@)],
        InnerV::QuineLine => seq![marker("$quineLine"@)],
        InnerV::Binding(lm, x, rm) => seq![marker(lm.name)] + lower_expr(*x) + seq![marker(rm.name)],
    }
}

/// Expressions lowered one after the other, `sep` between each two.
pub open spec fn lower_list(es: Seq<ExprV>, sep: Seq<char>) -> Seq<TokenView>
    decreases es, es.len(),
{
    if es.len() == 0 {
        Seq::empty()
    } else if es.len() == 1 {
        lower_expr(es[0])
    } else {
        proof {
            axiom_seq_len_decreases(es, es.drop_last());
        }
        lower_list(es.drop_last(), sep) + seq![req(sep)] + lower_expr(es.last())
    }
}

/// A call used as an expression: its arguments are separated by `, `.
pub open spec fn lower_call(c: CallV) -> Seq<TokenView>
    decreases c, 0nat,
{
    lower_source(c.source) + seq![req("("@)] + lower_list(c.args, ", "@) + seq![req(")"@)]
}

/// What is called: a name, or a function pointer in parentheses.
pub open spec fn lower_source(s: SourceV) -> Seq<TokenView>
    decreases s, 0nat,
{
    match s {
        SourceV::Direct(name, _) => seq![req(name)],
        SourceV::Indirect(e) => seq![req("("@)] + lower_expr(e) + seq![req(")"@)],
    }
}

// ---------------------------------------------------------------------------
// Building token sequences
// ---------------------------------------------------------------------------

/// A required token with the given text.
pub fn text_token(s: &str) -> (res: Token)
    ensures
        res@ == req(s@),
{
    Token::new(s.to_owned())
}

fn marker_token(s: String) -> (res: Token)
    ensures
        res@ == marker(s@),
{
    Token { text: Some(s), style: TokenStyle::Marker }
}

/// Appends a token.
pub fn push_token(out: &mut Tokens, t: Token)
    ensures
        token_views(final(out)@) == token_views(old(out)@).push(t@),
{
    out.push(t);
    assert(token_views(out@) =~= token_views(old(out)@).push(t@));
}

/// Appends a required token with the given text.
pub fn push_text(out: &mut Tokens, s: &str)
    ensures
        token_views(final(out)@) == token_views(old(out)@).push(req(s@)),
{
    push_token(out, text_token(s));
}

/// Appends all tokens of `other`.
pub fn append_tokens(out: &mut Tokens, other: Tokens)
    ensures
        token_views(final(out)@) == token_views(old(out)@) + token_views(other@),
{
    let ghost o = other@;
    out.extend(other);
    assert(token_views(out@) =~= token_views(old(out)@) + token_views(o));
}

/// The precedence as the specification counts it.
pub open spec fn opt_nat(p: Option<usize>) -> Option<nat> {
    match p {
        Some(x) => Some(x as nat),
        None => None,
    }
}

// ---------------------------------------------------------------------------
// Lowering expressions
// ---------------------------------------------------------------------------

/// How tightly an operator binds (see [`precedence`]). A binding has no
/// precedence to give.
pub fn expr_precedence(op: &MIRExpressionInner) -> (res: Option<usize>)
    requires
        !(op@ is Binding),
    ensures
        opt_nat(res) == precedence(op@),
{
    match op {
        MIRExpressionInner::Member(..) | MIRExpressionInner::Index(..) => Some(1),
        MIRExpressionInner::Ref(..) | MIRExpressionInner::Deref(..) | MIRExpressionInner::Neg(..)
        | MIRExpressionInner::Not(..) => Some(2),
        MIRExpressionInner::Mul(..) | MIRExpressionInner::Div(..) => Some(3),
        MIRExpressionInner::Add(..) | MIRExpressionInner::Sub(..) => Some(4),
        MIRExpressionInner::Less(..) | MIRExpressionInner::Greater(..)
        | MIRExpressionInner::LessEq(..) | MIRExpressionInner::GreaterEq(..) => Some(6),
        MIRExpressionInner::Equal(..) | MIRExpressionInner::NotEqual(..) => Some(7),
        MIRExpressionInner::BoolAnd(..) => Some(8),
        MIRExpressionInner::BoolOr(..) => Some(9),
        MIRExpressionInner::Ternary(..) => Some(13),
        _ => None,
    }
}

/// Whether an operand of precedence `inner` needs parentheses under an
/// operator of precedence `outer`.
pub fn needs_wrap(outer: Option<usize>, inner: Option<usize>) -> (res: bool)
    ensures
        res == match (outer, inner) {
            (Some(o), Some(i)) => i > o,
            _ => false,
        },
{
    match (outer, inner) {
        (Some(o), Some(i)) => i > o,
        _ => false,
    }
}

fn is_zeroish(e: &MIRExpression) -> (res: bool)
    ensures
        res == zeroish(e@),
{
    match &e.inner {
        MIRExpressionInner::Number(n) => *n == 0,
        MIRExpressionInner::Bool(b) => !*b,
        MIRExpressionInner::Char(c) => *c == '\0',
        _ => false,
    }
}

fn is_number(e: &MIRExpression, v: i128) -> (res: bool)
    ensures
        res == (e@.inner == InnerV::Number(v)),
{
    match &e.inner {
        MIRExpressionInner::Number(n) => *n == v,
        _ => false,
    }
}

fn lower_wrap(e: &MIRExpression, outer: Option<usize>) -> (res: Tokens)
    requires
        lowerable(e@),
        operand_ok(e@),
    ensures
        token_views(res@) == wrapped(e@, opt_nat(outer)),
    decreases expr_size(*e), 2nat,
{
    let lowered = lower_expr_tokens(e);
    let inner = expr_precedence(&e.inner);
    if needs_wrap(outer, inner) {
        let mut out = Tokens::new();
        push_text(&mut out, "(");
        append_tokens(&mut out, lowered);
        push_text(&mut out, ")");
        assert(token_views(out@) =~= seq![req("("@)] + lower_expr(e@) + seq![req(")"@)]);
        out
    } else {
        lowered
    }
}

fn lower_wrap_right(e: &MIRExpression, outer: Option<usize>) -> (res: Tokens)
    requires
        lowerable(e@),
        operand_ok(e@),
    ensures
        token_views(res@) == wrapped_right(e@, opt_nat(outer)),
    decreases expr_size(*e), 2nat,
{
    let lowered = lower_expr_tokens(e);
    let inner = expr_precedence(&e.inner);
    let wrap = match (outer, inner) {
        (Some(o), Some(i)) => i >= o,
        _ => false,
    };
    if wrap {
        let mut out = Tokens::new();
        push_text(&mut out, "(");
        append_tokens(&mut out, lowered);
        push_text(&mut out, ")");
        assert(token_views(out@) =~= seq![req("("@)] + lower_expr(e@) + seq![req(")"@)]);
        out
    } else {
        lowered
    }
}

fn lower_binary(l: &MIRExpression, op: &str, r: &MIRExpression, p: Option<usize>) -> (res: Tokens)
    requires
        lowerable(l@),
        lowerable(r@),
        operand_ok(l@),
        operand_ok(r@),
    ensures
        token_views(res@) == binary(wrapped(l@, opt_nat(p)), op@, wrapped_right(r@, opt_nat(p))),
    decreases expr_size(*l) + expr_size(*r), 3nat,
{
    let mut out = lower_wrap(l, p);
    push_text(&mut out, op);
    let right = lower_wrap_right(r, p);
    append_tokens(&mut out, right);
    out
}

fn lower_prefixed(op: &str, x: &MIRExpression, p: Option<usize>) -> (res: Tokens)
    requires
        lowerable(x@),
        operand_ok(x@),
    ensures
        token_views(res@) == seq![req(op@)] + wrapped(x@, opt_nat(p)),
    decreases expr_size(*x), 3nat,
{
    let mut out = Tokens::new();
    push_text(&mut out, op);
    let inner = lower_wrap(x, p);
    append_tokens(&mut out, inner);
    assert(token_views(out@) =~= seq![req(op@)] + wrapped(x@, opt_nat(p)));
    out
}

fn lower_list_tokens(v: &Vec<MIRExpression>, sep: &str) -> (res: Tokens)
    requires
        all_lowerable(exprs_view(v@)),
    ensures
        token_views(res@) == lower_list(exprs_view(v@), sep@),
    decreases exprs_size(v@), 0nat,
{
    let ghost es = exprs_view(v@);
    proof {
        lemma_exprs_view_index(v@);
        lemma_exprs_size_elems(v@);
        lemma_all_lowerable_index(es);
        assert(es.take(0) =~= Seq::<ExprV>::empty());
    }
    let mut out = Tokens::new();
    let n = v.len();
    let mut i: usize = 0;
    while i < n
        invariant
            n == v@.len(),
            es == exprs_view(v@),
            es.len() == n,
            i <= n,
            forall|j: int| 0 <= j < n ==> #[trigger] es[j] == v@[j]@,
            forall|j: int| 0 <= j < n ==> lowerable(#[trigger] es[j]),
            forall|j: int| 0 <= j < n ==> expr_size(#[trigger] v@[j]) < exprs_size(v@),
            token_views(out@) == lower_list(es.take(i as int), sep@),
        decreases n - i,
    {
        let ghost before = token_views(out@);
        assert(es.take(i as int + 1).drop_last() =~= es.take(i as int));
        assert(es.take(i as int + 1).last() == es[i as int]);
        if i > 0 {
            push_text(&mut out, sep);
        } else {
            assert(es.take(1) =~= seq![es[0]]);
        }
        let t = lower_expr_tokens(&v[i]);
        append_tokens(&mut out, t);
        i = i + 1;
    }
    assert(es.take(n as int) =~= es);
    out
}

/// Every element of a lowerable list is lowerable.
pub proof fn lemma_all_lowerable_index(s: Seq<ExprV>)
    ensures
        all_lowerable(s) <==> forall|i: int| 0 <= i < s.len() ==> lowerable(#[trigger] s[i]),
    decreases s.len(),
{
    if s.len() > 0 {
        lemma_all_lowerable_index(s.drop_last());
        if forall|i: int| 0 <= i < s.len() ==> lowerable(#[trigger] s[i]) {
            assert forall|i: int| 0 <= i < s.drop_last().len() implies lowerable(#[trigger] s.drop_last()[i]) by {
                assert(s.drop_last()[i] == s[i]);
            }
        }
        if all_lowerable(s) {
            assert forall|i: int| 0 <= i < s.len() implies lowerable(#[trigger] s[i]) by {
                if i < s.len() - 1 {
                    assert(s.drop_last()[i] == s[i]);
                }
            }
        }
    }
}

fn lower_call_tokens(c: &MIRFnCall) -> (res: Tokens)
    requires
        call_lowerable(c@),
    ensures
        token_views(res@) == lower_call(c@),
    decreases call_size(*c), 0nat,
{
    let mut out = match &c.source {
        MIRFnSource::Direct(name, _) => {
            let mut o = Tokens::new();
            push_token(&mut o, Token::new(name.clone()));
            o
        },
        MIRFnSource::Indirect(e) => {
            let mut o = Tokens::new();
            push_text(&mut o, "(");
            let t = lower_expr_tokens(e);
            append_tokens(&mut o, t);
            push_text(&mut o, ")");
            o
        },
    };
    assert(token_views(out@) =~= lower_source(c@.source));
    push_text(&mut out, "(");
    let args = lower_list_tokens(&c.args, ", ");
    append_tokens(&mut out, args);
    push_text(&mut out, ")");
    assert(token_views(out@) =~= lower_call(c@));
    out
}

fn lower_expr_tokens(expr: &MIRExpression) -> (res: Tokens)
    requires
        lowerable(expr@),
    ensures
        token_views(res@) == lower_expr(expr@),
    decreases expr_size(*expr), 1nat,
{
    let ghost ev = expr@;
    let p = match &expr.inner {
        MIRExpressionInner::Binding(..) => None,
        other => expr_precedence(other),
    };
    let res = match &expr.inner {
        MIRExpressionInner::Add(l, r) => lower_binary(l, "+", r, p),
        MIRExpressionInner::Sub(l, r) => lower_binary(l, "-", r, p),
        MIRExpressionInner::Div(l, r) => lower_binary(l, "/", r, p),
        MIRExpressionInner::Less(l, r) => lower_binary(l, "<", r, p),
        MIRExpressionInner::Greater(l, r) => lower_binary(l, ">", r, p),
        MIRExpressionInner::LessEq(l, r) => lower_binary(l, "<=", r, p),
        MIRExpressionInner::GreaterEq(l, r) => lower_binary(l, ">=", r, p),
        MIRExpressionInner::BoolAnd(l, r) => lower_binary(l, "&&", r, p),
        MIRExpressionInner::BoolOr(l, r) => lower_binary(l, "||", r, p),
        MIRExpressionInner::Mul(l, r) => {
            if is_number(l, -1) {
                lower_prefixed("-", r, Some(2))
            } else if is_number(r, -1) {
                lower_prefixed("-", l, Some(2))
            } else {
                lower_binary(l, "*", r, p)
            }
        },
        MIRExpressionInner::NotEqual(l, r) => {
            if is_zeroish(r) {
                lower_wrap(l, p)
            } else if is_zeroish(l) {
                lower_wrap(r, p)
            } else {
                lower_binary(l, "!=", r, p)
            }
        },
        MIRExpressionInner::Equal(l, r) => {
            if is_zeroish(r) {
                lower_prefixed("!", l, Some(2))
            } else if is_zeroish(l) {
                lower_prefixed("!", r, Some(2))
            } else {
                lower_binary(l, "==", r, p)
            }
        },
        MIRExpressionInner::Ref(x) => lower_prefixed("&", x, p),
        MIRExpressionInner::Deref(x) => lower_prefixed("*", x, p),
        MIRExpressionInner::Neg(x) => lower_prefixed("-", x, p),
        MIRExpressionInner::Not(x) => lower_prefixed("!", x, p),
        MIRExpressionInner::Number(n) => {
            let mut o = Tokens::new();
            push_token(&mut o, Token::new(i128_to_decimal(*n)));
            o
        },
        MIRExpressionInner::String(val) => {
            let mut text = "\"".to_owned();
            let escaped = escape_string(val.as_str());
            text.append(escaped.as_str());
            text.append("\"");
            let mut o = Tokens::new();
            push_token(&mut o, Token::new(text));
            o
        },
        MIRExpressionInner::Bool(b) => {
            let mut o = Tokens::new();
            if *b {
                push_text(&mut o, "1");
            } else {
                push_text(&mut o, "0");
            }
            o
        },
        MIRExpressionInner::Unit => {
            let mut o = Tokens::new();
            push_text(&mut o, "void");
            o
        },
        MIRExpressionInner::Char(c) => {
            let code = *c as u32;
            let digits = u128_to_decimal(code as u128);
            let mut o = Tokens::new();
            if code < 999 {
                push_token(&mut o, Token::new(digits));
            } else {
                let mut text = "'".to_owned();
                let escaped = escape_char(digits.as_str());
                text.append(escaped.as_str());
                text.append("'");
                push_token(&mut o, Token::new(text));
            }
            o
        },
        MIRExpressionInner::Variable(name, _) => {
            let mut o = Tokens::new();
            push_token(&mut o, Token::new(name.clone()));
            o
        },
        MIRExpressionInner::FunctionCall(call) => lower_call_tokens(call),
        MIRExpressionInner::Member(b, field) => {
            let mut o = lower_wrap(b, p);
            push_text(&mut o, ".");
            push_token(&mut o, Token::new(field.clone()));
            o
        },
        MIRExpressionInner::Index(b, x) => {
            if is_number(x, 0) {
                lower_prefixed("*", b, Some(2))
            } else {
                let mut o = lower_wrap(b, p);
                push_text(&mut o, "[");
                let t = lower_expr_tokens(x);
                append_tokens(&mut o, t);
                push_text(&mut o, "]");
                o
            }
        },
        MIRExpressionInner::Array(es) => {
            let mut o = Tokens::new();
            push_text(&mut o, "{");
            let t = lower_list_tokens(es, ",");
            append_tokens(&mut o, t);
            push_text(&mut o, "}");
            o
        },
        MIRExpressionInner::Ternary(c, t, f) => {
            let mut o = lower_wrap(c, Some(12));
            push_text(&mut o, "?");
            let tt = lower_expr_tokens(t);
            append_tokens(&mut o, tt);
            push_text(&mut o, ":");
            let ft = lower_wrap(f, p);
            append_tokens(&mut o, ft);
            o
        },
        MIRExpressionInner::Quine => {
            let mut o = Tokens::new();
            push_text(&mut o, "{");
            push_token(&mut o, marker_token("$quine".to_owned()));
            push_text(&mut o, "}");
            o
        },
        MIRExpressionInner::QuineLen => {
            let mut o = Tokens::new();
            push_token(&mut o, marker_token("$quineLen".to_owned()));
            o
        },
        MIRExpressionInner::QuineSpace => {
            let mut o = Tokens::new();
            push_token(&mut o, marker_token("$quineSpace".to_owned()));
            o
        },
        MIRExpressionInner::QuineLine => {
            let mut o = Tokens::new();
            push_token(&mut o, marker_token("$quineLine".to_owned()));
            o
        },
        MIRExpressionInner::Binding(lm, x, rm) => {
            let mut o = Tokens::new();
            push_token(&mut o, marker_token(lm.name.clone()));
            let t = lower_expr_tokens(x);
            append_tokens(&mut o, t);
            push_token(&mut o, marker_token(rm.name.clone()));
            o
        },
    };
    assert(token_views(res@) =~= lower_expr(ev));
    res
}

impl CLowerer {
    /// A lowerer at indentation level zero.
    pub fn new() -> (res: Self)
        ensures
            res.indent_level == 0,
    {
        CLowerer { indent_level: 0 }
    }

    /// Converts an expression to C tokens.
    pub fn lower_expression(&mut self, expr: &MIRExpression) -> (res: Tokens)
        requires
            lowerable(expr@),
        ensures
            token_views(res@) == lower_expr(expr@),
            *final(self) == *old(self),
    {
        lower_expr_tokens(expr)
    }

    /// Lowers an operand and puts it in parentheses where `outer` binds more
    /// tightly than it.
    pub fn lower_wrap_expression(&mut self, expr: &MIRExpression, outer: &MIRExpression) -> (res: Tokens)
        requires
            lowerable(expr@),
            operand_ok(expr@),
            !(outer@.inner is Binding),
        ensures
            token_views(res@) == wrapped(expr@, precedence(outer@.inner)),
            *final(self) == *old(self),
    {
        let p = expr_precedence(&outer.inner);
        lower_wrap(expr, p)
    }

    /// The precedence of an operator in C; none for literals and names.
    pub fn precedence(&self, op: &MIRExpressionInner) -> (res: Option<usize>)
        requires
            !(op@ is Binding),
        ensures
            opt_nat(res) == precedence(op@),
    {
        expr_precedence(op)
    }

    /// Lowers what a call calls.
    pub fn lower_fn_source(&mut self, src: &MIRFnSource) -> (res: Tokens)
        requires
            match src@ {
                SourceV::Indirect(e) => lowerable(e),
                SourceV::Direct(_, _) => true,
            },
        ensures
            token_views(res@) == lower_source(src@),
            *final(self) == *old(self),
    {
        let mut o = Tokens::new();
        match src {
            MIRFnSource::Direct(name, _) => {
                push_token(&mut o, Token::new(name.clone()));
            },
            MIRFnSource::Indirect(e) => {
                push_text(&mut o, "(");
                let t = lower_expr_tokens(e);
                append_tokens(&mut o, t);
                push_text(&mut o, ")");
            },
        }
        assert(token_views(o@) =~= lower_source(src@));
        o
    }
}

// ---------------------------------------------------------------------------
// Types
// ---------------------------------------------------------------------------

/// A type whose lowering is defined: every type is resolved, and a
/// reference to an array is not asked to be an explicit array (`explicit`
/// applies to the outermost type only).
pub open spec fn type_lowerable(t: TypeV, explicit: bool) -> bool
    decreases t, 0nat,
{
    match t {
        TypeV::UnknownNumber | TypeV::NotConstructed => false,
        TypeV::Ref(inner) => !(explicit && (*inner is Array)) && type_lowerable(*inner, false),
        TypeV::Array(inner) => type_lowerable(*inner, false),
        TypeV::ArrayFixed(inner, _) => type_lowerable(*inner, false),
        TypeV::FunctionPtr(args, ret) => type_lowerable(*ret, false) && types_lowerable(args.args),
        _ => true,
    }
}

pub open spec fn types_lowerable(s: Seq<TypeV>) -> bool
    decreases s, 1nat,
{
    forall|i: int| 0 <= i < s.len() ==> type_lowerable(#[trigger] s[i], false)
}

/// The position of the last token equal to `x` in `s`, if any.
pub open spec fn last_index_of(s: Seq<TokenView>, x: TokenView) -> Option<int>
    decreases s.len(),
{
    if s.len() == 0 {
        None
    } else if s.last() == x {
        Some(s.len() - 1)
    } else {
        last_index_of(s.drop_last(), x)
    }
}

/// A pointer to the type lowered as `(prefix, suffix)`: parentheses keep
/// `*` from postfix operators where a suffix follows; otherwise `*` goes
/// right after the innermost opening parenthesis of the prefix, or at its end.
pub open spec fn pointer_to(lr: (Seq<TokenView>, Seq<TokenView>)) -> (Seq<TokenView>, Seq<TokenView>) {
    let (l, r) = lr;
    if r.len() > 0 && r[0] != req(")"@) {
        (l + seq![req("("@), req("*"@)], seq![req(")"@)] + r)
    } else {
        match last_index_of(l, req("("@)) {
            Some(i) => (l.insert(i + 1, req("*"@)), r),
            None => (l.push(req("*"@)), r),
        }
    }
}

/// The C declaration parts of a type: a variable `x` of it is written as
/// prefix, `x`, suffix. With `explicit`, an array of arrays stays an array
/// rather than becoming a pointer.
pub open spec fn lower_type(t: TypeV, explicit: bool) -> (Seq<TokenView>, Seq<TokenView>)
    decreases t, 0nat,
{
    match t {
        TypeV::I32 | TypeV::Bool => (seq![req("int"@)], Seq::empty()),
        TypeV::U32 => (seq![req("unsigned"@), req("int"@)], Seq::empty()),
        TypeV::String => (seq![req("char"@), req("*"@)], Seq::empty()),
        TypeV::Unit => (seq![req("void"@)], Seq::empty()),
        TypeV::Char => (seq![req("char"@)], Seq::empty()),
        TypeV::Named(name) => (seq![req(name)], Seq::empty()),
        TypeV::Ref(inner) => pointer_to(lower_type(*inner, false)),
        TypeV::Array(inner) => if explicit && (*inner is Array) {
            let lr = lower_type(*inner, false);
            (lr.0, seq![req("["@), req("]"@)] + lr.1)
        } else {
            pointer_to(lower_type(*inner, false))
        },
        TypeV::ArrayFixed(inner, n) => {
            let lr = lower_type(*inner, false);
            (lr.0, seq![req("["@), req(decimal_text(n as int)), req("]"@)] + lr.1)
        },
        TypeV::FunctionPtr(args, ret) => {
            let lr = lower_type(*ret, false);
            let listed = lower_params(args.args);
            let params = if args.variadic {
                if listed.len() > 0 {
                    listed + seq![req(","@), req("..."@)]
                } else {
                    seq![req("..."@)]
                }
            } else if listed.len() == 0 {
                seq![req("void"@)]
            } else {
                listed
            };
            (
                lr.0 + seq![req("("@), req("*"@)],
                seq![req(")"@), req("("@)] + params + seq![req(")"@)] + lr.1,
            )
        },
        _ => (Seq::empty(), Seq::empty()),
    }
}

/// Parameter types, each written whole, separated by commas.
pub open spec fn lower_params(ts: Seq<TypeV>) -> Seq<TokenView>
    decreases ts, ts.len(),
{
    if ts.len() == 0 {
        Seq::empty()
    } else if ts.len() == 1 {
        lower_type(ts[0], false).0 + lower_type(ts[0], false).1
    } else {
        proof {
            axiom_seq_len_decreases(ts, ts.drop_last());
        }
        lower_params(ts.drop_last()) + seq![req(","@)] + lower_type(ts.last(), false).0 + lower_type(
            ts.last(),
            false,
        ).1
    }
}

/// A name declared with a type.
pub open spec fn decorated(name: Seq<char>, t: TypeV, explicit: bool) -> Seq<TokenView> {
    lower_type(t, explicit).0 + seq![req(name)] + lower_type(t, explicit).1
}

pub(crate) proof fn lemma_last_index_of_bounds(s: Seq<TokenView>, x: TokenView)
    ensures
        match last_index_of(s, x) {
            Some(k) => 0 <= k < s.len() && s[k] == x,
            None => true,
        },
    decreases s.len(),
{
    if s.len() > 0 && s.last() != x {
        lemma_last_index_of_bounds(s.drop_last(), x);
    }
}

fn token_is_text(t: &Token, s: &str) -> (res: bool)
    ensures
        res == (t@ == req(s@)),
{
    match &t.text {
        Some(x) => t.style == TokenStyle::Required && x.eq(&s.to_owned()),
        None => false,
    }
}

fn find_last_paren(l: &Tokens) -> (res: Option<usize>)
    ensures
        match last_index_of(token_views(l@), req("("@)) {
            Some(i) => res == Some(i as usize) && 0 <= i < l@.len(),
            None => res is None,
        },
        match res {
            Some(i) => i < l@.len(),
            None => true,
        },
{
    let ghost s = token_views(l@);
    proof {
        lemma_last_index_of_bounds(s, req("("@));
    }
    let mut i = l.len();
    assert(s.take(i as int) =~= s);
    while i > 0
        invariant
            i <= l@.len(),
            s == token_views(l@),
            last_index_of(s, req("("@)) == last_index_of(s.take(i as int), req("("@)),
        decreases i,
    {
        let ghost t = s.take(i as int);
        assert(t.drop_last() =~= s.take(i - 1));
        assert(t.last() == l@[i - 1]@);
        if token_is_text(l.get(i - 1), "(") {
            return Some(i - 1);
        }
        i = i - 1;
    }
    assert(s.take(0) =~= Seq::<TokenView>::empty());
    None
}

fn pointer_to_tokens(l: Tokens, r: Tokens) -> (res: (Tokens, Tokens))
    ensures
        (token_views(res.0@), token_views(res.1@)) == pointer_to((token_views(l@), token_views(r@))),
{
    let needs_parens = if r.len() > 0 {
        assert(token_views(r@)[0] == r@[0]@);
        !token_is_text(r.get(0), ")")
    } else {
        false
    };
    let mut left = l;
    if needs_parens {
        push_text(&mut left, "(");
        push_text(&mut left, "*");
        let mut right = Tokens::new();
        push_text(&mut right, ")");
        let ghost rv = token_views(r@);
        append_tokens(&mut right, r);
        assert(token_views(left@) =~= token_views(l@) + seq![req("("@), req("*"@)]);
        assert(token_views(right@) =~= seq![req(")"@)] + rv);
        (left, right)
    } else {
        let len = left.len();
        match find_last_paren(&left) {
            Some(i) => {
                left.insert(i + 1, text_token("*"));
                assert(token_views(left@) =~= token_views(l@).insert(i + 1, req("*"@)));
            },
            None => {
                push_text(&mut left, "*");
            },
        }
        (left, r)
    }
}

fn lower_type_tokens(t: &MIRTypeInner, explicit: bool) -> (res: (Tokens, Tokens))
    requires
        type_lowerable(t@, explicit),
    ensures
        (token_views(res.0@), token_views(res.1@)) == lower_type(t@, explicit),
    decreases t,
{
    match t {
        MIRTypeInner::I32 | MIRTypeInner::Bool => {
            let mut l = Tokens::new();
            push_text(&mut l, "int");
            (l, Tokens::new())
        },
        MIRTypeInner::U32 => {
            let mut l = Tokens::new();
            push_text(&mut l, "unsigned");
            push_text(&mut l, "int");
            (l, Tokens::new())
        },
        MIRTypeInner::String => {
            let mut l = Tokens::new();
            push_text(&mut l, "char");
            push_text(&mut l, "*");
            (l, Tokens::new())
        },
        MIRTypeInner::Unit => {
            let mut l = Tokens::new();
            push_text(&mut l, "void");
            (l, Tokens::new())
        },
        MIRTypeInner::Char => {
            let mut l = Tokens::new();
            push_text(&mut l, "char");
            (l, Tokens::new())
        },
        MIRTypeInner::Named(name) => {
            let mut l = Tokens::new();
            push_token(&mut l, Token::new(name.clone()));
            (l, Tokens::new())
        },
        MIRTypeInner::Ref(inner) => {
            let (l, r) = lower_type_tokens(inner, false);
            pointer_to_tokens(l, r)
        },
        MIRTypeInner::Array(inner) => {
            let inner_is_array = match &**inner {
                MIRTypeInner::Array(_) => true,
                _ => false,
            };
            let (l, r) = lower_type_tokens(inner, false);
            if explicit && inner_is_array {
                let mut right = Tokens::new();
                push_text(&mut right, "[");
                push_text(&mut right, "]");
                append_tokens(&mut right, r);
                assert(token_views(right@) =~= seq![req("["@), req("]"@)] + token_views(r@));
                (l, right)
            } else {
                pointer_to_tokens(l, r)
            }
        },
        MIRTypeInner::ArrayFixed(inner, n) => {
            let (l, r) = lower_type_tokens(inner, false);
            let mut right = Tokens::new();
            push_text(&mut right, "[");
            push_token(&mut right, Token::new(u128_to_decimal(*n as u128)));
            push_text(&mut right, "]");
            append_tokens(&mut right, r);
            assert(token_views(right@) =~= seq![req("["@), req(decimal_text(*n as int)), req("]"@)]
                + token_views(r@));
            (l, right)
        },
        MIRTypeInner::FunctionPtr(args, ret) => {
            let (l, r) = lower_type_tokens(ret, false);
            let ghost ts = crate::mir::view::types_view(args.args@);
            let mut params = Tokens::new();
            let n = args.args.len();
            let mut i: usize = 0;
            proof {
                crate::mir::eq::lemma_types_view_index(args.args@);
                assert(ts.take(0) =~= Seq::<TypeV>::empty());
            }
            while i < n
                invariant
                    n == args.args@.len(),
                    ts == crate::mir::view::types_view(args.args@),
                    ts.len() == n,
                    i <= n,
                    forall|j: int| 0 <= j < n ==> #[trigger] ts[j] == args.args@[j]@,
                    types_lowerable(ts),
                    token_views(params@) == lower_params(ts.take(i as int)),
                    *t == MIRTypeInner::FunctionPtr(*args, *ret),
                decreases n - i,
            {
                assert(ts.take(i as int + 1).drop_last() =~= ts.take(i as int));
                assert(ts.take(i as int + 1).last() == ts[i as int]);
                assert(type_lowerable(ts[i as int], false));
                if i > 0 {
                    push_text(&mut params, ",");
                } else {
                    assert(ts.take(1) =~= seq![ts[0]]);
                }
                assert(decreases_to!(*t => (*t)->FunctionPtr_0));
                assert(decreases_to!((*t)->FunctionPtr_0 => ((*t)->FunctionPtr_0).args));
                assert(decreases_to!(args.args => args.args@));
                assert(decreases_to!(args.args@ => args.args@[i as int]));
                let (pl, pr) = lower_type_tokens(&args.args[i], false);
                append_tokens(&mut params, pl);
                append_tokens(&mut params, pr);
                i = i + 1;
            }
            assert(ts.take(n as int) =~= ts);
            if args.variadic {
                if params.len() > 0 {
                    push_text(&mut params, ",");
                }
                push_text(&mut params, "...");
            } else if params.len() == 0 {
                push_text(&mut params, "void");
            }
            let mut left = l;
            push_text(&mut left, "(");
            push_text(&mut left, "*");
            let mut right = Tokens::new();
            push_text(&mut right, ")");
            push_text(&mut right, "(");
            append_tokens(&mut right, params);
            push_text(&mut right, ")");
            append_tokens(&mut right, r);
            proof {
                let listed = lower_params(ts);
                assert(token_views(left@) =~= lower_type(t@, explicit).0);
                assert(token_views(right@) =~= lower_type(t@, explicit).1);
            }
            (left, right)
        },
        MIRTypeInner::UnknownNumber | MIRTypeInner::NotConstructed => (Tokens::new(), Tokens::new()),
    }
}

fn decorate_tokens(name: String, t: &MIRTypeInner, explicit: bool) -> (res: Tokens)
    requires
        type_lowerable(t@, explicit),
    ensures
        token_views(res@) == decorated(name@, t@, explicit),
{
    let (mut l, r) = lower_type_tokens(t, explicit);
    push_token(&mut l, Token::new(name));
    append_tokens(&mut l, r);
    l
}

impl CLowerer {
    /// The declaration parts of a type: `(prefix, suffix)`, a variable `x`
    /// of it being written as prefix, `x`, suffix.
    pub fn lower_datatype(&mut self, ty: &MIRTypeInner) -> (res: (Tokens, Tokens))
        requires
            type_lowerable(ty@, false),
        ensures
            (token_views(res.0@), token_views(res.1@)) == lower_type(ty@, false),
            *final(self) == *old(self),
    {
        lower_type_tokens(ty, false)
    }

    /// Declares `name` with the type `ty`.
    pub fn decorate_with_type(&mut self, name: String, ty: &MIRType) -> (res: Tokens)
        requires
            type_lowerable(ty.ty@, false),
        ensures
            token_views(res@) == decorated(name@, ty.ty@, false),
            *final(self) == *old(self),
    {
        decorate_tokens(name, &ty.ty, false)
    }
}

// ---------------------------------------------------------------------------
// Statements and blocks
// ---------------------------------------------------------------------------

/// The statement terminator.
pub open spec fn semi() -> TokenView {
    req(";"@)
}

/// A statement whose lowering is defined: its expressions and types are,
/// it holds no label or jump, and a loop's step is at most one statement.
pub open spec fn stmt_lowerable(s: StmtV) -> bool
    decreases s, 0nat,
{
    match s {
        StmtV::CreateVariable { var, value, .. } => var.arg || (type_lowerable(
            var.ty.ty,
            explicit_for(value),
        ) && match value {
            Some(v) => lowerable(v),
            None => true,
        }),
        StmtV::SetVariable { place, value, .. } => lowerable(place) && lowerable(value),
        StmtV::IncrementVariable { place, .. } => lowerable(place),
        StmtV::DecrementVariable { place, .. } => lowerable(place),
        StmtV::AddAssign { place, value, .. } => lowerable(place) && lowerable(value),
        StmtV::SubAssign { place, value, .. } => lowerable(place) && lowerable(value),
        StmtV::MulAssign { place, value, .. } => lowerable(place) && lowerable(value),
        StmtV::DivAssign { place, value, .. } => lowerable(place) && lowerable(value),
        StmtV::FunctionCall(c) => call_lowerable(c),
        StmtV::Return { expr, .. } => match expr {
            Some(e) => lowerable(e),
            None => true,
        },
        StmtV::Label { .. } | StmtV::Goto { .. } | StmtV::GotoNotEqual { .. } => false,
        StmtV::IfStatement { condition, on_true, on_false, .. } => lowerable(condition)
            && block_lowerable(on_true) && block_lowerable(on_false),
        StmtV::LoopStatement { condition, body, iterate, .. } => {
            &&& match condition {
                Some(c) => lowerable(c),
                None => true,
            }
            &&& block_lowerable(body)
            &&& block_lowerable(iterate)
            &&& iterate.len() <= 1
        },
        StmtV::ScopeStatement { body, .. } => block_lowerable(body),
        _ => true,
    }
}

pub open spec fn block_lowerable(b: Seq<StmtV>) -> bool
    decreases b, 1nat,
{
    forall|i: int| 0 <= i < b.len() ==> stmt_lowerable(#[trigger] b[i])
}

/// Array initializers need their type written as an explicit array.
pub open spec fn explicit_for(value: Option<ExprV>) -> bool {
    match value {
        Some(v) => v.inner is Array,
        None => false,
    }
}

/// `place = value;`, written as `++`, `--` or a compound assignment where
/// the value applies an operator to the place itself.
pub open spec fn set_tail(place: ExprV, value: ExprV) -> Seq<TokenView> {
    let plain = seq![req("="@)] + lower_expr(value) + seq![semi()];
    match value.inner {
        InnerV::Add(l, r) => if *l == place {
            if r.inner == InnerV::Number(1i128) {
                seq![req("++"@), semi()]
            } else {
                seq![req("+="@)] + lower_expr(*r) + seq![semi()]
            }
        } else {
            plain
        },
        InnerV::Sub(l, r) => if *l == place {
            if r.inner == InnerV::Number(1i128) {
                seq![req("--"@), semi()]
            } else {
                seq![req("-="@)] + lower_expr(*r) + seq![semi()]
            }
        } else {
            plain
        },
        InnerV::Mul(l, r) => if *l == place {
            seq![req("*="@)] + lower_expr(*r) + seq![semi()]
        } else {
            plain
        },
        InnerV::Div(l, r) => if *l == place {
            seq![req("/="@)] + lower_expr(*r) + seq![semi()]
        } else {
            plain
        },
        _ => plain,
    }
}

/// Drops a trailing `;`.
pub open spec fn trim_semi(t: Seq<TokenView>) -> Seq<TokenView> {
    if t.len() > 0 && t.last() == semi() {
        t.drop_last()
    } else {
        t
    }
}

/// A lowered block in braces, the closing brace indented at `indent`.
pub open spec fn braced(block: Seq<TokenView>, indent: nat) -> Seq<TokenView> {
    seq![req("{"@), newline()] + block + indent_tokens(indent) + seq![req("}"@)]
}

/// An `if` statement without an `else` branch.
pub open spec fn if_without_else(s: StmtV) -> bool {
    match s {
        StmtV::IfStatement { on_false, .. } => on_false.len() == 0,
        _ => false,
    }
}

/// The only statement of a branch may stand without braces, unless it is
/// an `if` without `else` and an `else` follows: the `else` would then
/// belong to it.
pub open spec fn single_branch(on_true: Seq<StmtV>, on_false: Seq<StmtV>) -> bool {
    on_true.len() == 1 && !(on_false.len() > 0 && if_without_else(on_true[0]))
}

/// The C tokens of a statement at indentation level `indent`; none for
/// statements that only serve analysis (argument declarations, drops), and
/// none for a construct one of whose needed parts has none.
pub open spec fn lower_stmt(s: StmtV, indent: nat) -> Option<Seq<TokenView>>
    decreases s, 0nat,
{
    match s {
        StmtV::CreateVariable { var, value, .. } => if var.arg {
            None
        } else {
            let dec = decorated(var.name, var.ty.ty, explicit_for(value));
            match value {
                Some(v) => Some(dec + seq![req("="@)] + lower_expr(v) + seq![semi()]),
                None => Some(dec + seq![semi()]),
            }
        },
        StmtV::DropVariable(..) => None,
        StmtV::SetVariable { place, value, .. } => Some(lower_expr(place) + set_tail(place, value)),
        StmtV::IncrementVariable { place, .. } => Some(lower_expr(place) + seq![req("++"@), semi()]),
        StmtV::DecrementVariable { place, .. } => Some(lower_expr(place) + seq![req("--"@), semi()]),
        StmtV::AddAssign { place, value, .. } => Some(
            lower_expr(place) + seq![req("+="@)] + lower_expr(value) + seq![semi()],
        ),
        StmtV::SubAssign { place, value, .. } => Some(
            lower_expr(place) + seq![req("-="@)] + lower_expr(value) + seq![semi()],
        ),
        StmtV::MulAssign { place, value, .. } => Some(
            lower_expr(place) + seq![req("*="@)] + lower_expr(value) + seq![semi()],
        ),
        StmtV::DivAssign { place, value, .. } => Some(
            lower_expr(place) + seq![req("/="@)] + lower_expr(value) + seq![semi()],
        ),
        StmtV::FunctionCall(c) => Some(
            lower_source(c.source) + seq![req("("@)] + lower_list(c.args, ","@) + seq![
                req(")"@),
                semi(),
            ],
        ),
        StmtV::Return { expr, .. } => Some(
            match expr {
                Some(e) => seq![req("return"@)] + lower_expr(e) + seq![semi()],
                None => seq![req("return"@), semi()],
            },
        ),
        StmtV::IfStatement { condition, on_true, on_false, .. } => {
            let head = seq![req("if"@), req("("@)] + lower_expr(condition) + seq![req(")"@)];
            let true_part = if single_branch(on_true, on_false) {
                lower_stmt(on_true[0], indent)
            } else {
                Some(braced(lower_block(on_true, indent, true, true), indent))
            };
            let else_part = if on_false.len() == 1 {
                lower_stmt(on_false[0], indent)
            } else {
                Some(braced(lower_block(on_false, indent, true, true), indent))
            };
            match true_part {
                None => None,
                Some(tp) => if on_false.len() == 0 {
                    Some(head + tp)
                } else {
                    match else_part {
                        None => None,
                        Some(ep) => Some(
                            head + tp + seq![newline()] + indent_tokens(indent) + seq![req("else"@)] + ep,
                        ),
                    }
                },
            }
        },
        StmtV::LoopStatement { condition, body, iterate, .. } => {
            let body_part = if body.len() == 1 {
                lower_stmt(body[0], indent)
            } else {
                Some(braced(lower_block(body, indent, true, true), indent))
            };
            let cond = match condition {
                Some(c) => lower_expr(c),
                None => Seq::empty(),
            };
            let step = if iterate.len() == 0 {
                Some(Seq::empty())
            } else {
                match lower_stmt(iterate[0], indent) {
                    Some(t) => Some(trim_semi(t)),
                    None => None,
                }
            };
            match (body_part, step) {
                (Some(b), Some(st)) => Some(
                    seq![req("for"@), req("("@), semi()] + cond + seq![semi()] + st + seq![req(")"@)] + b,
                ),
                _ => None,
            }
        },
        StmtV::ScopeStatement { body, .. } => if body.len() >= 2 && body[1] is LoopStatement {
            match (lower_stmt(body[0], indent), lower_stmt(body[1], indent)) {
                (Some(init), Some(lp)) => Some(lp.take(2) + trim_semi(init) + lp.skip(2)),
                _ => None,
            }
        } else {
            Some(lower_block(body, indent, false, false))
        },
        StmtV::ContinueStatement { .. } => Some(seq![req("continue"@), semi()]),
        StmtV::BreakStatement { .. } => Some(seq![req("break"@), semi()]),
        StmtV::MarkerStatement { name, .. } => Some(seq![marker(name)]),
        _ => None,
    }
}

/// The tokens of the statements of a block that lower to any, in order.
pub open spec fn lowered_parts(b: Seq<StmtV>, level: nat) -> Seq<Seq<TokenView>>
    decreases b, 1nat,
{
    if b.len() == 0 {
        Seq::empty()
    } else {
        proof {
            axiom_seq_len_decreases(b, b.drop_last());
        }
        let p = lowered_parts(b.drop_last(), level);
        match lower_stmt(b.last(), level) {
            Some(t) => p.push(t),
            None => p,
        }
    }
}

/// Lowered statements one per line, each indented, except the first when
/// the block is not enclosed (its line is already indented).
pub open spec fn layout(parts: Seq<Seq<TokenView>>, ind: Seq<TokenView>, enclosed: bool) -> Seq<TokenView>
    decreases parts.len(),
{
    if parts.len() == 0 {
        Seq::empty()
    } else {
        layout(parts.drop_last(), ind, enclosed) + if parts.len() == 1 && !enclosed {
            parts.last() + seq![newline()]
        } else {
            ind + parts.last() + seq![newline()]
        }
    }
}

/// The C tokens of a block: statements one level deeper if `increase`; a
/// block that is not enclosed leaves its last line break to the caller.
pub open spec fn lower_block(b: Seq<StmtV>, indent: nat, increase: bool, enclosed: bool) -> Seq<TokenView>
    decreases b, 2nat,
{
    let level = if increase {
        indent + 1
    } else {
        indent
    };
    let ret = layout(lowered_parts(b, level), indent_tokens(level), enclosed);
    if !enclosed && ret.len() > 0 {
        ret.drop_last()
    } else {
        ret
    }
}

// ---------------------------------------------------------------------------
// Lowering statements and blocks
// ---------------------------------------------------------------------------

/// The views of an optional token sequence.
pub open spec fn opt_views(o: Option<Tokens>) -> Option<Seq<TokenView>> {
    match o {
        Some(t) => Some(token_views(t@)),
        None => None,
    }
}

proof fn lemma_token_views_add(a: Seq<Token>, b: Seq<Token>)
    ensures
        token_views(a + b) == token_views(a) + token_views(b),
{
    assert(token_views(a + b) =~= token_views(a) + token_views(b));
}

fn indent_tokens_exec(n: u32) -> (res: Tokens)
    ensures
        token_views(res@) == indent_tokens(n as nat),
{
    let mut out = Tokens::new();
    let mut i: u32 = 0;
    while i < n
        invariant
            i <= n,
            token_views(out@) == indent_tokens(i as nat),
        decreases n - i,
    {
        push_token(&mut out, Token::new_fancy("    ".to_owned()));
        i = i + 1;
        assert(token_views(out@) =~= indent_tokens(i as nat));
    }
    out
}

fn braced_tokens(block: Tokens, indent: u32) -> (res: Tokens)
    ensures
        token_views(res@) == braced(token_views(block@), indent as nat),
{
    let mut out = Tokens::new();
    push_text(&mut out, "{");
    push_token(&mut out, Token::new_fancy("\n".to_owned()));
    let ghost bv = token_views(block@);
    append_tokens(&mut out, block);
    let ind = indent_tokens_exec(indent);
    append_tokens(&mut out, ind);
    push_text(&mut out, "}");
    assert(token_views(out@) =~= braced(bv, indent as nat));
    out
}

fn trim_semi_tokens(t: &mut Tokens)
    ensures
        token_views(final(t)@) == trim_semi(token_views(old(t)@)),
{
    let n = t.len();
    if n > 0 {
        assert(token_views(t@).last() == t@[n - 1]@);
        if token_is_text(t.get(n - 1), ";") {
            t.pop();
            assert(token_views(t@) =~= token_views(old(t)@).drop_last());
        }
    }
}

fn lower_source_tokens(src: &MIRFnSource) -> (res: Tokens)
    requires
        match src@ {
            SourceV::Indirect(e) => lowerable(e),
            SourceV::Direct(_, _) => true,
        },
    ensures
        token_views(res@) == lower_source(src@),
{
    let mut o = Tokens::new();
    match src {
        MIRFnSource::Direct(name, _) => {
            push_token(&mut o, Token::new(name.clone()));
        },
        MIRFnSource::Indirect(e) => {
            push_text(&mut o, "(");
            let t = lower_expr_tokens(e);
            append_tokens(&mut o, t);
            push_text(&mut o, ")");
        },
    }
    assert(token_views(o@) =~= lower_source(src@));
    o
}

fn set_tail_tokens(place: &MIRExpression, value: &MIRExpression) -> (res: Tokens)
    requires
        lowerable(place@),
        lowerable(value@),
    ensures
        token_views(res@) == set_tail(place@, value@),
{
    let mut o = Tokens::new();
    let mut plain = true;
    match &value.inner {
        MIRExpressionInner::Add(l, r) => {
            if expr_eq(l, place) {
                plain = false;
                if is_number(r, 1) {
                    push_text(&mut o, "++");
                    push_text(&mut o, ";");
                } else {
                    push_text(&mut o, "+=");
                    let t = lower_expr_tokens(r);
                    append_tokens(&mut o, t);
                    push_text(&mut o, ";");
                }
            }
        },
        MIRExpressionInner::Sub(l, r) => {
            if expr_eq(l, place) {
                plain = false;
                if is_number(r, 1) {
                    push_text(&mut o, "--");
                    push_text(&mut o, ";");
                } else {
                    push_text(&mut o, "-=");
                    let t = lower_expr_tokens(r);
                    append_tokens(&mut o, t);
                    push_text(&mut o, ";");
                }
            }
        },
        MIRExpressionInner::Mul(l, r) => {
            if expr_eq(l, place) {
                plain = false;
                push_text(&mut o, "*=");
                let t = lower_expr_tokens(r);
                append_tokens(&mut o, t);
                push_text(&mut o, ";");
            }
        },
        MIRExpressionInner::Div(l, r) => {
            if expr_eq(l, place) {
                plain = false;
                push_text(&mut o, "/=");
                let t = lower_expr_tokens(r);
                append_tokens(&mut o, t);
                push_text(&mut o, ";");
            }
        },
        _ => {},
    }
    if plain {
        push_text(&mut o, "=");
        let t = lower_expr_tokens(value);
        append_tokens(&mut o, t);
        push_text(&mut o, ";");
    }
    assert(token_views(o@) =~= set_tail(place@, value@));
    o
}

fn is_if_without_else(s: &MIRStatement) -> (res: bool)
    ensures
        res == if_without_else(s@),
{
    match s {
        MIRStatement::IfStatement { on_false, .. } => {
            proof {
                lemma_stmts_view_index(on_false@);
            }
            on_false.len() == 0
        },
        _ => false,
    }
}

fn is_loop(s: &MIRStatement) -> (res: bool)
    ensures
        res == (s@ is LoopStatement),
{
    match s {
        MIRStatement::LoopStatement { .. } => true,
        _ => false,
    }
}

fn lower_if_tokens(
    s: &MIRStatement,
    condition: &MIRExpression,
    on_true: &Vec<MIRStatement>,
    on_false: &Vec<MIRStatement>,
    indent: u32,
) -> (res: Option<Tokens>)
    requires
        s@ matches StmtV::IfStatement { condition: c, on_true: t, on_false: f, .. } && c == condition@
            && t == stmts_view(on_true@) && f == stmts_view(on_false@),
        stmt_lowerable(s@),
        indent + stmt_size(*s) <= u32::MAX,
        stmt_size(*s) == 1 + stmts_size(on_true@) + stmts_size(on_false@),
    ensures
        opt_views(res) == lower_stmt(s@, indent as nat),
    decreases stmt_size(*s), 1nat,
{
    proof {
        lemma_stmts_view_index(on_true@);
        lemma_stmts_view_index(on_false@);
        lemma_stmts_size_elems(on_true@);
        lemma_stmts_size_elems(on_false@);
    }
    let mut head = Tokens::new();
    push_text(&mut head, "if");
    push_text(&mut head, "(");
    let c = lower_expr_tokens(condition);
    append_tokens(&mut head, c);
    push_text(&mut head, ")");
    let single = on_true.len() == 1 && !(on_false.len() > 0 && is_if_without_else(&on_true[0]));
    let true_part = if single {
        assert(stmts_view(on_true@)[0] == on_true@[0]@);
        lower_stmt_tokens(&on_true[0], indent)
    } else {
        let b = lower_block_tokens(on_true, indent, true, true);
        Some(braced_tokens(b, indent))
    };
    match true_part {
        None => None,
        Some(tp) => {
            if on_false.len() == 0 {
                append_tokens(&mut head, tp);
                Some(head)
            } else {
                let else_part = if on_false.len() == 1 {
                    assert(stmts_view(on_false@)[0] == on_false@[0]@);
                    lower_stmt_tokens(&on_false[0], indent)
                } else {
                    let b = lower_block_tokens(on_false, indent, true, true);
                    Some(braced_tokens(b, indent))
                };
                match else_part {
                    None => None,
                    Some(ep) => {
                        append_tokens(&mut head, tp);
                        push_token(&mut head, Token::new_fancy("\n".to_owned()));
                        let ind = indent_tokens_exec(indent);
                        append_tokens(&mut head, ind);
                        push_text(&mut head, "else");
                        append_tokens(&mut head, ep);
                        Some(head)
                    },
                }
            }
        },
    }
}

fn lower_loop_tokens(
    s: &MIRStatement,
    condition: &Option<MIRExpression>,
    body: &Vec<MIRStatement>,
    iterate: &Vec<MIRStatement>,
    indent: u32,
) -> (res: Option<Tokens>)
    requires
        s@ matches StmtV::LoopStatement { condition: c, body: b, iterate: it, .. } && c
            == crate::mir::view::opt_expr_view(*condition) && b == stmts_view(body@) && it == stmts_view(
            iterate@,
        ),
        stmt_lowerable(s@),
        indent + stmt_size(*s) <= u32::MAX,
        stmt_size(*s) == 1 + stmts_size(body@) + stmts_size(iterate@),
    ensures
        opt_views(res) == lower_stmt(s@, indent as nat),
    decreases stmt_size(*s), 1nat,
{
    proof {
        lemma_stmts_view_index(body@);
        lemma_stmts_view_index(iterate@);
        lemma_stmts_size_elems(body@);
        lemma_stmts_size_elems(iterate@);
    }
    let body_part = if body.len() == 1 {
        assert(stmts_view(body@)[0] == body@[0]@);
        lower_stmt_tokens(&body[0], indent)
    } else {
        let b = lower_block_tokens(body, indent, true, true);
        Some(braced_tokens(b, indent))
    };
    let bp = match body_part {
        None => {
            return None;
        },
        Some(bp) => bp,
    };
    let cond = match condition {
        Some(c) => lower_expr_tokens(c),
        None => Tokens::new(),
    };
    let step = if iterate.len() == 0 {
        Tokens::new()
    } else {
        assert(stmts_view(iterate@)[0] == iterate@[0]@);
        match lower_stmt_tokens(&iterate[0], indent) {
            Some(t) => {
                let mut t = t;
                trim_semi_tokens(&mut t);
                t
            },
            None => {
                return None;
            },
        }
    };
    let mut out = Tokens::new();
    push_text(&mut out, "for");
    push_text(&mut out, "(");
    push_text(&mut out, ";");
    append_tokens(&mut out, cond);
    push_text(&mut out, ";");
    append_tokens(&mut out, step);
    push_text(&mut out, ")");
    append_tokens(&mut out, bp);
    Some(out)
}

fn lower_scope_tokens(s: &MIRStatement, body: &Vec<MIRStatement>, indent: u32) -> (res: Option<Tokens>)
    requires
        s@ matches StmtV::ScopeStatement { body: b, .. } && b == stmts_view(body@),
        stmt_lowerable(s@),
        indent + stmt_size(*s) <= u32::MAX,
        stmt_size(*s) == 1 + stmts_size(body@),
    ensures
        opt_views(res) == lower_stmt(s@, indent as nat),
    decreases stmt_size(*s), 1nat,
{
    proof {
        lemma_stmts_view_index(body@);
        lemma_stmts_size_elems(body@);
    }
    if body.len() >= 2 && is_loop(&body[1]) {
        assert(stmts_view(body@)[0] == body@[0]@);
        assert(stmts_view(body@)[1] == body@[1]@);
        let init = match lower_stmt_tokens(&body[0], indent) {
            Some(t) => t,
            None => {
                return None;
            },
        };
        let lp = match lower_stmt_tokens(&body[1], indent) {
            Some(t) => t,
            None => {
                return None;
            },
        };
        let ghost lpv = token_views(lp@);
        assert(lpv.len() >= 3);
        let mut init = init;
        trim_semi_tokens(&mut init);
        let mut out = Tokens::new();
        push_token(&mut out, lp.get(0).clone());
        push_token(&mut out, lp.get(1).clone());
        append_tokens(&mut out, init);
        let n = lp.len();
        let mut j: usize = 2;
        let ghost start = token_views(out@);
        while j < n
            invariant
                2 <= j <= n,
                n == lp@.len(),
                lpv == token_views(lp@),
                token_views(out@) == start + lpv.subrange(2, j as int),
            decreases n - j,
        {
            push_token(&mut out, lp.get(j).clone());
            j = j + 1;
            assert(lpv.subrange(2, j as int) =~= lpv.subrange(2, j - 1).push(lpv[j - 1]));
        }
        assert(lpv.subrange(2, n as int) =~= lpv.skip(2));
        assert(start =~= lpv.take(2) + token_views(init@));
        Some(out)
    } else {
        Some(lower_block_tokens(body, indent, false, false))
    }
}

fn lower_stmt_tokens(s: &MIRStatement, indent: u32) -> (res: Option<Tokens>)
    requires
        stmt_lowerable(s@),
        indent + stmt_size(*s) <= u32::MAX,
    ensures
        opt_views(res) == lower_stmt(s@, indent as nat),
    decreases stmt_size(*s), 2nat,
{
    let res = match s {
        MIRStatement::CreateVariable { var, value, .. } => {
            if var.arg {
                None
            } else {
                let explicit = match value {
                    Some(v) => match &v.inner {
                        MIRExpressionInner::Array(_) => true,
                        _ => false,
                    },
                    None => false,
                };
                let mut o = decorate_tokens(var.name.clone(), &var.ty.ty, explicit);
                match value {
                    Some(v) => {
                        push_text(&mut o, "=");
                        let t = lower_expr_tokens(v);
                        append_tokens(&mut o, t);
                        push_text(&mut o, ";");
                    },
                    None => {
                        push_text(&mut o, ";");
                    },
                }
                Some(o)
            }
        },
        MIRStatement::DropVariable(..) => None,
        MIRStatement::SetVariable { place, value, .. } => {
            let mut o = lower_expr_tokens(place);
            let t = set_tail_tokens(place, value);
            append_tokens(&mut o, t);
            Some(o)
        },
        MIRStatement::IncrementVariable { place, .. } => {
            let mut o = lower_expr_tokens(place);
            push_text(&mut o, "++");
            push_text(&mut o, ";");
            Some(o)
        },
        MIRStatement::DecrementVariable { place, .. } => {
            let mut o = lower_expr_tokens(place);
            push_text(&mut o, "--");
            push_text(&mut o, ";");
            Some(o)
        },
        MIRStatement::AddAssign { place, value, .. } => {
            let mut o = lower_expr_tokens(place);
            push_text(&mut o, "+=");
            let t = lower_expr_tokens(value);
            append_tokens(&mut o, t);
            push_text(&mut o, ";");
            Some(o)
        },
        MIRStatement::SubAssign { place, value, .. } => {
            let mut o = lower_expr_tokens(place);
            push_text(&mut o, "-=");
            let t = lower_expr_tokens(value);
            append_tokens(&mut o, t);
            push_text(&mut o, ";");
            Some(o)
        },
        MIRStatement::MulAssign { place, value, .. } => {
            let mut o = lower_expr_tokens(place);
            push_text(&mut o, "*=");
            let t = lower_expr_tokens(value);
            append_tokens(&mut o, t);
            push_text(&mut o, ";");
            Some(o)
        },
        MIRStatement::DivAssign { place, value, .. } => {
            let mut o = lower_expr_tokens(place);
            push_text(&mut o, "/=");
            let t = lower_expr_tokens(value);
            append_tokens(&mut o, t);
            push_text(&mut o, ";");
            Some(o)
        },
        MIRStatement::FunctionCall(c) => {
            let mut o = lower_source_tokens(&c.source);
            push_text(&mut o, "(");
            let args = lower_list_tokens(&c.args, ",");
            append_tokens(&mut o, args);
            push_text(&mut o, ")");
            push_text(&mut o, ";");
            Some(o)
        },
        MIRStatement::Return { expr, .. } => {
            let mut o = Tokens::new();
            push_text(&mut o, "return");
            match expr {
                Some(e) => {
                    let t = lower_expr_tokens(e);
                    append_tokens(&mut o, t);
                },
                None => {},
            }
            push_text(&mut o, ";");
            Some(o)
        },
        MIRStatement::IfStatement { condition, on_true, on_false, .. } => lower_if_tokens(
            s,
            condition,
            on_true,
            on_false,
            indent,
        ),
        MIRStatement::LoopStatement { condition, body, iterate, .. } => lower_loop_tokens(
            s,
            condition,
            body,
            iterate,
            indent,
        ),
        MIRStatement::ScopeStatement { body, .. } => lower_scope_tokens(s, body, indent),
        MIRStatement::ContinueStatement { .. } => {
            let mut o = Tokens::new();
            push_text(&mut o, "continue");
            push_text(&mut o, ";");
            Some(o)
        },
        MIRStatement::BreakStatement { .. } => {
            let mut o = Tokens::new();
            push_text(&mut o, "break");
            push_text(&mut o, ";");
            Some(o)
        },
        MIRStatement::MarkerStatement { name, .. } => {
            let mut o = Tokens::new();
            push_token(&mut o, marker_token(name.clone()));
            Some(o)
        },
        MIRStatement::Label { .. } | MIRStatement::Goto { .. } | MIRStatement::GotoNotEqual {
            ..
        } => None,
    };
    proof {
        if res is Some {
            assert(token_views(res->0@) =~= lower_stmt(s@, indent as nat)->0);
        }
    }
    res
}

proof fn lemma_layout_push(parts: Seq<Seq<TokenView>>, t: Seq<TokenView>, ind: Seq<TokenView>, enclosed: bool)
    ensures
        layout(parts.push(t), ind, enclosed) == layout(parts, ind, enclosed) + if parts.len() == 0
            && !enclosed {
            t + seq![newline()]
        } else {
            ind + t + seq![newline()]
        },
{
    assert(parts.push(t).drop_last() =~= parts);
}

fn lower_block_tokens(b: &Vec<MIRStatement>, indent: u32, increase: bool, enclosed: bool) -> (res: Tokens)
    requires
        block_lowerable(stmts_view(b@)),
        indent + stmts_size(b@) <= u32::MAX,
    ensures
        token_views(res@) == lower_block(stmts_view(b@), indent as nat, increase, enclosed),
    decreases stmts_size(b@), 3nat,
{
    let ghost sv = stmts_view(b@);
    proof {
        lemma_stmts_view_index(b@);
        lemma_stmts_size_elems(b@);
        assert(sv.take(0) =~= Seq::<StmtV>::empty());
    }
    let level = if increase {
        indent + 1
    } else {
        indent
    };
    let ind = indent_tokens_exec(level);
    let mut out = Tokens::new();
    let mut count: usize = 0;
    let n = b.len();
    let mut i: usize = 0;
    while i < n
        invariant
            n == b@.len(),
            sv == stmts_view(b@),
            sv.len() == n,
            i <= n,
            forall|j: int| 0 <= j < n ==> #[trigger] sv[j] == b@[j]@,
            forall|j: int| 0 <= j < n ==> stmt_size(#[trigger] b@[j]) < stmts_size(b@),
            block_lowerable(sv),
            level + stmts_size(b@) <= u32::MAX + 1,
            level == if increase { indent + 1 } else { indent as int },
            token_views(ind@) == indent_tokens(level as nat),
            count == lowered_parts(sv.take(i as int), level as nat).len(),
            count <= i,
            token_views(out@) == layout(lowered_parts(sv.take(i as int), level as nat), indent_tokens(level as nat), enclosed),
        decreases n - i,
    {
        assert(sv.take(i as int + 1).drop_last() =~= sv.take(i as int));
        assert(sv.take(i as int + 1).last() == sv[i as int]);
        assert(stmt_lowerable(sv[i as int]));
        match lower_stmt_tokens(&b[i], level) {
            Some(t) => {
                let ghost tv = token_views(t@);
                proof {
                    lemma_layout_push(
                        lowered_parts(sv.take(i as int), level as nat),
                        tv,
                        indent_tokens(level as nat),
                        enclosed,
                    );
                }
                if count == 0 && !enclosed {
                    append_tokens(&mut out, t);
                    push_token(&mut out, Token::new_fancy("\n".to_owned()));
                } else {
                    let ghost before = out@;
                    out.extend_from(&ind);
                    proof {
                        lemma_token_views_add(before, ind@);
                    }
                    append_tokens(&mut out, t);
                    push_token(&mut out, Token::new_fancy("\n".to_owned()));
                }
                count = count + 1;
            },
            None => {},
        }
        i = i + 1;
    }
    assert(sv.take(n as int) =~= sv);
    if !enclosed && out.len() > 0 {
        let ghost before = token_views(out@);
        out.pop();
        assert(token_views(out@) =~= before.drop_last());
    }
    out
}

// ---------------------------------------------------------------------------
// Functions, statics and imports
// ---------------------------------------------------------------------------

/// Parameters declared with their types, separated by commas.
pub open spec fn arg_decls(args: Seq<MIRVariable>) -> Seq<TokenView>
    decreases args.len(),
{
    if args.len() == 0 {
        Seq::empty()
    } else if args.len() == 1 {
        decorated(args[0].name@, args[0].ty.ty@, false)
    } else {
        arg_decls(args.drop_last()) + seq![req(","@)] + decorated(
            args.last().name@,
            args.last().ty.ty@,
            false,
        )
    }
}

/// A function whose lowering is defined.
pub open spec fn fn_lowerable(f: MIRFunction) -> bool {
    &&& type_lowerable(f.ret_ty.ty@, false)
    &&& forall|i: int| 0 <= i < f.args@.len() ==> type_lowerable(#[trigger] f.args@[i].ty.ty@, false)
    &&& block_lowerable(stmts_view(f.body@))
}

/// The C tokens of a function definition at indentation level `indent`.
pub open spec fn lower_fn(f: MIRFunction, indent: nat) -> Seq<TokenView> {
    decorated(f.name@, f.ret_ty.ty@, false) + seq![req("("@)] + arg_decls(f.args@) + seq![
        req(")"@),
        req("{"@),
        newline(),
    ] + lower_block(stmts_view(f.body@), indent, true, true) + seq![req("}"@), newline()]
}

/// Array and quine initializers need their type written as an explicit array.
pub open spec fn static_explicit(e: ExprV) -> bool {
    e.inner is Array || e.inner is Quine
}

/// A static whose lowering is defined.
pub open spec fn static_lowerable(v: MIRStatic) -> bool {
    type_lowerable(v.ty.ty@, static_explicit(v.value@)) && lowerable(v.value@)
}

/// The C tokens of a static: a global variable with its initializer.
pub open spec fn lower_static_tokens(v: MIRStatic) -> Seq<TokenView> {
    decorated(v.name@, v.ty.ty@, static_explicit(v.value@)) + seq![req("="@)] + lower_expr(v.value@)
        + seq![semi()]
}

/// One `#include` line per import.
pub open spec fn lower_imports_tokens(imports: Seq<String>) -> Seq<TokenView>
    decreases imports.len(),
{
    if imports.len() == 0 {
        Seq::empty()
    } else {
        lower_imports_tokens(imports.drop_last()) + seq![
            req("#include"@),
            req(imports.last()@),
            req("\n"@),
        ]
    }
}

impl CLowerer {
    /// Converts a statement to C tokens at the current indentation; none
    /// for statements that only serve analysis.
    pub fn lower_statement(&mut self, stmt: &MIRStatement) -> (res: Option<Tokens>)
        requires
            stmt_lowerable(stmt@),
            old(self).indent_level + stmt_size(*stmt) <= u32::MAX,
        ensures
            opt_views(res) == lower_stmt(stmt@, old(self).indent_level as nat),
            *final(self) == *old(self),
    {
        lower_stmt_tokens(stmt, self.indent_level)
    }

    /// Converts a block of statements to C tokens, one level deeper if
    /// `increase_indent`; a block that is not enclosed leaves its first
    /// indentation and its last line break to the caller.
    pub fn lower_block(
        &mut self,
        block: &Vec<MIRStatement>,
        increase_indent: bool,
        is_enclosed: bool,
    ) -> (res: Tokens)
        requires
            block_lowerable(stmts_view(block@)),
            old(self).indent_level + stmts_size(block@) <= u32::MAX,
        ensures
            token_views(res@) == lower_block(
                stmts_view(block@),
                old(self).indent_level as nat,
                increase_indent,
                is_enclosed,
            ),
            *final(self) == *old(self),
    {
        lower_block_tokens(block, self.indent_level, increase_indent, is_enclosed)
    }

    /// Converts a function definition to C tokens.
    pub fn lower_function(&mut self, func: &MIRFunction) -> (res: Tokens)
        requires
            fn_lowerable(*func),
            old(self).indent_level + stmts_size(func.body@) <= u32::MAX,
        ensures
            token_views(res@) == lower_fn(*func, old(self).indent_level as nat),
            *final(self) == *old(self),
    {
        let mut out = decorate_tokens(func.name.clone(), &func.ret_ty.ty, false);
        push_text(&mut out, "(");
        let ghost start = token_views(out@);
        let mut args = Tokens::new();
        let n = func.args.len();
        let mut i: usize = 0;
        assert(func.args@.take(0) =~= Seq::<MIRVariable>::empty());
        while i < n
            invariant
                n == func.args@.len(),
                i <= n,
                forall|j: int| 0 <= j < n ==> type_lowerable(#[trigger] func.args@[j].ty.ty@, false),
                token_views(args@) == arg_decls(func.args@.take(i as int)),
            decreases n - i,
        {
            assert(func.args@.take(i as int + 1).drop_last() =~= func.args@.take(i as int));
            assert(func.args@.take(i as int + 1).last() == func.args@[i as int]);
            if i > 0 {
                push_text(&mut args, ",");
            } else {
                assert(func.args@.take(1) =~= seq![func.args@[0]]);
            }
            let arg = &func.args[i];
            let d = decorate_tokens(arg.name.clone(), &arg.ty.ty, false);
            append_tokens(&mut args, d);
            i = i + 1;
        }
        assert(func.args@.take(n as int) =~= func.args@);
        append_tokens(&mut out, args);
        push_text(&mut out, ")");
        push_text(&mut out, "{");
        push_token(&mut out, Token::new_fancy("\n".to_owned()));
        let block = lower_block_tokens(&func.body, self.indent_level, true, true);
        append_tokens(&mut out, block);
        push_text(&mut out, "}");
        push_token(&mut out, Token::new_fancy("\n".to_owned()));
        assert(token_views(out@) =~= lower_fn(*func, old(self).indent_level as nat));
        out
    }

    /// Converts a static to C tokens.
    pub fn lower_static(&mut self, val: &MIRStatic) -> (res: Tokens)
        requires
            static_lowerable(*val),
        ensures
            token_views(res@) == lower_static_tokens(*val),
            *final(self) == *old(self),
    {
        let explicit = match &val.value.inner {
            MIRExpressionInner::Array(_) | MIRExpressionInner::Quine => true,
            _ => false,
        };
        let mut out = decorate_tokens(val.name.clone(), &val.ty.ty, explicit);
        push_text(&mut out, "=");
        let e = lower_expr_tokens(&val.value);
        append_tokens(&mut out, e);
        push_text(&mut out, ";");
        assert(token_views(out@) =~= lower_static_tokens(*val));
        out
    }

    /// One `#include` line per required import.
    pub fn lower_imports(&mut self, imports: &Vec<String>) -> (res: Tokens)
        ensures
            token_views(res@) == lower_imports_tokens(imports@),
            *final(self) == *old(self),
    {
        let mut out = Tokens::new();
        let n = imports.len();
        let mut i: usize = 0;
        assert(imports@.take(0) =~= Seq::<String>::empty());
        while i < n
            invariant
                n == imports@.len(),
                i <= n,
                token_views(out@) == lower_imports_tokens(imports@.take(i as int)),
            decreases n - i,
        {
            assert(imports@.take(i as int + 1).drop_last() =~= imports@.take(i as int));
            assert(imports@.take(i as int + 1).last() == imports@[i as int]);
            push_text(&mut out, "#include");
            push_token(&mut out, Token::new(imports[i].clone()));
            push_text(&mut out, "\n");
            i = i + 1;
            assert(token_views(out@) =~= lower_imports_tokens(imports@.take(i as int)));
        }
        assert(imports@.take(n as int) =~= imports@);
        out
    }
}

// ---------------------------------------------------------------------------
// Laws of precedence
// ---------------------------------------------------------------------------

/// The precedence levels of C's operators as the C standard orders them,
/// 1 binding tightest: postfix 1, unary 2, multiplicative 3, additive 4,
/// relational 6, equality 7, logical and 11, logical or 12, conditional 13.
pub open spec fn c_level(i: InnerV) -> Option<nat> {
    match i {
        InnerV::Member(..) | InnerV::Index(..) => Some(1),
        InnerV::Ref(..) | InnerV::Deref(..) | InnerV::Neg(..) | InnerV::Not(..) => Some(2),
        InnerV::Mul(..) | InnerV::Div(..) => Some(3),
        InnerV::Add(..) | InnerV::Sub(..) => Some(4),
        InnerV::Less(..) | InnerV::Greater(..) | InnerV::LessEq(..) | InnerV::GreaterEq(..) => Some(6),
        InnerV::Equal(..) | InnerV::NotEqual(..) => Some(7),
        InnerV::BoolAnd(..) => Some(11),
        InnerV::BoolOr(..) => Some(12),
        InnerV::Ternary(..) => Some(13),
        _ => None,
    }
}

/// The precedence the lowering gives an operator orders the operators as
/// C does: one operator binds tighter than another exactly where it does
/// in C, and operators of one C level bind alike.
pub proof fn lemma_precedence_as_in_c(a: InnerV, b: InnerV)
    ensures
        precedence(a) is Some <==> c_level(a) is Some,
        precedence(a) is Some && precedence(b) is Some ==> (precedence(a)->0 < precedence(b)->0 <==> c_level(a)->0
            < c_level(b)->0),
        precedence(a) is Some && precedence(b) is Some ==> (precedence(a)->0 == precedence(b)->0 <==> c_level(a)->0
            == c_level(b)->0),
{
}

/// An operand as C needs it under an operator of C level `outer`: in
/// parentheses where its own operator binds less tightly, or, on the
/// right (C groups from the left), as tightly.
pub open spec fn c_operand(x: ExprV, outer: nat, right: bool) -> Seq<TokenView> {
    match c_level(x.inner) {
        Some(i) => if i > outer || (right && i == outer) {
            seq![req("("@)] + lower_expr(x) + seq![req(")"@)]
        } else {
            lower_expr(x)
        },
        None => lower_expr(x),
    }
}

proof fn lemma_operands(x: ExprV, node: InnerV)
    requires
        precedence(node) is Some,
    ensures
        wrapped(x, precedence(node)) == c_operand(x, c_level(node)->0, false),
        wrapped_right(x, precedence(node)) == c_operand(x, c_level(node)->0, true),
{
    lemma_precedence_as_in_c(x.inner, node);
}

/// A binary operator is lowered to its left operand, its C symbol and its
/// right operand, each operand in parentheses exactly where C's
/// precedence and left grouping need them: `(a || b) && c` keeps its
/// parentheses and `a || b && c` needs none.
pub proof fn lemma_lowered_binary(e: ExprV, l: ExprV, r: ExprV)
    ensures
        lower_expr(ExprV { inner: InnerV::Add(Box::new(l), Box::new(r)), ..e }) == c_operand(l, 4, false) + seq![
            req("+"@),
        ] + c_operand(r, 4, true),
        lower_expr(ExprV { inner: InnerV::Sub(Box::new(l), Box::new(r)), ..e }) == c_operand(l, 4, false) + seq![
            req("-"@),
        ] + c_operand(r, 4, true),
        lower_expr(ExprV { inner: InnerV::Div(Box::new(l), Box::new(r)), ..e }) == c_operand(l, 3, false) + seq![
            req("/"@),
        ] + c_operand(r, 3, true),
        lower_expr(ExprV { inner: InnerV::Less(Box::new(l), Box::new(r)), ..e }) == c_operand(l, 6, false) + seq![
            req("<"@),
        ] + c_operand(r, 6, true),
        lower_expr(ExprV { inner: InnerV::Greater(Box::new(l), Box::new(r)), ..e }) == c_operand(l, 6, false) + seq![
            req(">"@),
        ] + c_operand(r, 6, true),
        lower_expr(ExprV { inner: InnerV::LessEq(Box::new(l), Box::new(r)), ..e }) == c_operand(l, 6, false) + seq![
            req("<="@),
        ] + c_operand(r, 6, true),
        lower_expr(ExprV { inner: InnerV::GreaterEq(Box::new(l), Box::new(r)), ..e }) == c_operand(l, 6, false) + seq![
            req(">="@),
        ] + c_operand(r, 6, true),
        lower_expr(ExprV { inner: InnerV::BoolAnd(Box::new(l), Box::new(r)), ..e }) == c_operand(l, 11, false) + seq![
            req("&&"@),
        ] + c_operand(r, 11, true),
        lower_expr(ExprV { inner: InnerV::BoolOr(Box::new(l), Box::new(r)), ..e }) == c_operand(l, 12, false) + seq![
            req("||"@),
        ] + c_operand(r, 12, true),
        l.inner != InnerV::Number(-1i128) && r.inner != InnerV::Number(-1i128) ==> lower_expr(
            ExprV { inner: InnerV::Mul(Box::new(l), Box::new(r)), ..e },
        ) == c_operand(l, 3, false) + seq![req("*"@)] + c_operand(r, 3, true),
        !zeroish(l) && !zeroish(r) ==> lower_expr(ExprV { inner: InnerV::Equal(Box::new(l), Box::new(r)), ..e })
            == c_operand(l, 7, false) + seq![req("=="@)] + c_operand(r, 7, true),
        !zeroish(l) && !zeroish(r) ==> lower_expr(ExprV { inner: InnerV::NotEqual(Box::new(l), Box::new(r)), ..e })
            == c_operand(l, 7, false) + seq![req("!="@)] + c_operand(r, 7, true),
        lower_expr(ExprV { inner: InnerV::Neg(Box::new(l)), ..e }) == seq![req("-"@)] + c_operand(l, 2, false),
        lower_expr(ExprV { inner: InnerV::Not(Box::new(l)), ..e }) == seq![req("!"@)] + c_operand(l, 2, false),
        lower_expr(ExprV { inner: InnerV::Deref(Box::new(l)), ..e }) == seq![req("*"@)] + c_operand(l, 2, false),
        lower_expr(ExprV { inner: InnerV::Ref(Box::new(l)), ..e }) == seq![req("&"@)] + c_operand(l, 2, false),
{
    lemma_operands(l, InnerV::Add(Box::new(l), Box::new(r)));
    lemma_operands(r, InnerV::Add(Box::new(l), Box::new(r)));
    lemma_operands(l, InnerV::Sub(Box::new(l), Box::new(r)));
    lemma_operands(r, InnerV::Sub(Box::new(l), Box::new(r)));
    lemma_operands(l, InnerV::Div(Box::new(l), Box::new(r)));
    lemma_operands(r, InnerV::Div(Box::new(l), Box::new(r)));
    lemma_operands(l, InnerV::Less(Box::new(l), Box::new(r)));
    lemma_operands(r, InnerV::Less(Box::new(l), Box::new(r)));
    lemma_operands(l, InnerV::Greater(Box::new(l), Box::new(r)));
    lemma_operands(r, InnerV::Greater(Box::new(l), Box::new(r)));
    lemma_operands(l, InnerV::LessEq(Box::new(l), Box::new(r)));
    lemma_operands(r, InnerV::LessEq(Box::new(l), Box::new(r)));
    lemma_operands(l, InnerV::GreaterEq(Box::new(l), Box::new(r)));
    lemma_operands(r, InnerV::GreaterEq(Box::new(l), Box::new(r)));
    lemma_operands(l, InnerV::BoolAnd(Box::new(l), Box::new(r)));
    lemma_operands(r, InnerV::BoolAnd(Box::new(l), Box::new(r)));
    lemma_operands(l, InnerV::BoolOr(Box::new(l), Box::new(r)));
    lemma_operands(r, InnerV::BoolOr(Box::new(l), Box::new(r)));
    lemma_operands(l, InnerV::Mul(Box::new(l), Box::new(r)));
    lemma_operands(r, InnerV::Mul(Box::new(l), Box::new(r)));
    lemma_operands(l, InnerV::Equal(Box::new(l), Box::new(r)));
    lemma_operands(r, InnerV::Equal(Box::new(l), Box::new(r)));
    lemma_operands(l, InnerV::NotEqual(Box::new(l), Box::new(r)));
    lemma_operands(r, InnerV::NotEqual(Box::new(l), Box::new(r)));
    lemma_operands(l, InnerV::Neg(Box::new(l)));
    lemma_operands(l, InnerV::Not(Box::new(l)));
    lemma_operands(l, InnerV::Deref(Box::new(l)));
    lemma_operands(l, InnerV::Ref(Box::new(l)));
}

} // verus!
