//! Markers keep their order from the MIR to the lowered tokens: the marker
//! tokens of a lowered expression, statement or program are the markers of
//! the MIR, in the order in which they stand there.

use super::lower::{
    binary, decorated, fancy, indent_tokens, last_index_of, lemma_last_index_of_bounds, lower_call,
    lower_expr, lower_list, lower_params, lower_source, lower_type, marker, pointer_to, req, wrapped,
    wrapped_right, arg_decls, braced, layout, lower_block, lower_fn, lower_imports_tokens,
    lower_static_tokens, lower_stmt, lowered_parts, newline, semi, set_tail, trim_semi,
};
use crate::codegen::token::{TokenStyle, TokenView};
use super::compress::{
    compressed, define_line, define_lines, define_rounds, merge_rounds, replace_text, texts_of,
    within_limits, DefineState,
};
use super::program::{decl_tokens, decls_tokens, finish_spec, program_text, strip_fancy};
use crate::codegen::token::{
    merged_prefix, spec_should_merge, spec_try_merge, TokenInfo, all_have_text,
};
use crate::mir::view::{stmts_view, CallV, ExprV, InnerV, SourceV, StmtV, TypeV};
use crate::mir::{MIRDeclaration, MIRFunctionType, MIRVariable};
use vstd::prelude::*;

verus! {

/// The names of the marker tokens of `toks`, in order.
pub open spec fn marker_names(toks: Seq<TokenView>) -> Seq<Seq<char>>
    decreases toks.len(),
{
    if toks.len() == 0 {
        Seq::empty()
    } else {
        marker_names(toks.drop_last()) + token_marker(toks.last())
    }
}

/// The name of a marker token, nothing for any other token.
pub open spec fn token_marker(t: TokenView) -> Seq<Seq<char>> {
    if t.1 == TokenStyle::Marker {
        seq![
            match t.0 {
                Some(s) => s,
                None => Seq::empty(),
            },
        ]
    } else {
        Seq::empty()
    }
}

pub broadcast proof fn lemma_marker_names_push(s: Seq<TokenView>, t: TokenView)
    ensures
        #[trigger] marker_names(s.push(t)) == marker_names(s) + token_marker(t),
{
    assert(s.push(t).drop_last() =~= s);
}

pub broadcast proof fn lemma_marker_names_add(a: Seq<TokenView>, b: Seq<TokenView>)
    ensures
        #[trigger] marker_names(a + b) == marker_names(a) + marker_names(b),
    decreases b.len(),
{
    if b.len() == 0 {
        assert(a + b =~= a);
    } else {
        lemma_marker_names_add(a, b.drop_last());
        assert((a + b).drop_last() =~= a + b.drop_last());
        assert(marker_names(b) == marker_names(b.drop_last()) + token_marker(b.last()));
    }
}

proof fn lemma_marker_names_empty()
    ensures
        marker_names(Seq::<TokenView>::empty()) == Seq::<Seq<char>>::empty(),
{
}

/// Indentation holds no marker.
pub proof fn lemma_indent_no_markers(n: nat)
    ensures
        marker_names(indent_tokens(n)) == Seq::<Seq<char>>::empty(),
    decreases n,
{
    if n > 0 {
        lemma_indent_no_markers((n - 1) as nat);
        assert(indent_tokens(n) =~= indent_tokens((n - 1) as nat).push(fancy("    "@)));
        lemma_marker_names_push(indent_tokens((n - 1) as nat), fancy("    "@));
    }
}

/// The markers of an expression, in the order in which they stand in it:
/// the two markers of each binding around the markers of what it binds,
/// and the placeholders of the quine.
pub open spec fn expr_markers(e: ExprV) -> Seq<Seq<char>>
    decreases e, 1nat,
{
    match e.inner {
        InnerV::Add(l, r) | InnerV::Sub(l, r) | InnerV::Mul(l, r) | InnerV::Div(l, r)
        | InnerV::Equal(l, r) | InnerV::NotEqual(l, r) | InnerV::Less(l, r)
        | InnerV::Greater(l, r) | InnerV::LessEq(l, r) | InnerV::GreaterEq(l, r)
        | InnerV::BoolAnd(l, r) | InnerV::BoolOr(l, r) | InnerV::Index(l, r) => expr_markers(*l)
            + expr_markers(*r),
        InnerV::Ref(x) | InnerV::Deref(x) | InnerV::Neg(x) | InnerV::Not(x) | InnerV::Member(
            x,
            _,
        ) => expr_markers(*x),
        InnerV::FunctionCall(c) => call_markers(*c),
        InnerV::Array(es) => list_markers(es),
        InnerV::Ternary(c, t, f) => expr_markers(*c) + expr_markers(*t) + expr_markers(*f),
        InnerV::Quine => seq!["$quine"@],
        InnerV::QuineLen => seq!["$quineLen"@],
        InnerV::QuineSpace => seq!["$quineSpace"@],
        InnerV::QuineLine => seq!["$quineLine"@],
        InnerV::Binding(lm, x, rm) => seq![lm.name] + expr_markers(*x) + seq![rm.name],
        _ => Seq::empty(),
    }
}

/// The markers of expressions one after the other.
pub open spec fn list_markers(es: Seq<ExprV>) -> Seq<Seq<char>>
    decreases es, es.len(),
{
    if es.len() == 0 {
        Seq::empty()
    } else {
        proof {
            vstd::seq::axiom_seq_len_decreases(es, es.drop_last());
        }
        list_markers(es.drop_last()) + expr_markers(es.last())
    }
}

/// The markers of a call: those of what is called, then of its arguments.
pub open spec fn call_markers(c: CallV) -> Seq<Seq<char>>
    decreases c, 0nat,
{
    source_markers(c.source) + list_markers(c.args)
}

pub open spec fn source_markers(s: SourceV) -> Seq<Seq<char>>
    decreases s, 0nat,
{
    match s {
        SourceV::Direct(..) => Seq::empty(),
        SourceV::Indirect(e) => expr_markers(e),
    }
}

proof fn lemma_wrapped_markers(e: ExprV, outer: Option<nat>)
    ensures
        marker_names(wrapped(e, outer)) == expr_markers(e),
        marker_names(wrapped_right(e, outer)) == expr_markers(e),
    decreases e, 2nat,
{
    broadcast use lemma_marker_names_push, lemma_marker_names_add;

    lemma_expr_markers(e);
}

/// Lowering an expression keeps its markers, in order: the marker tokens of
/// its C tokens name exactly the markers of the expression.
pub proof fn lemma_expr_markers(e: ExprV)
    ensures
        marker_names(lower_expr(e)) == expr_markers(e),
    decreases e, 1nat,
{
    broadcast use lemma_marker_names_push, lemma_marker_names_add;

    match e.inner {
        InnerV::Add(l, r) | InnerV::Sub(l, r) | InnerV::Div(l, r) | InnerV::Less(l, r)
        | InnerV::Greater(l, r) | InnerV::LessEq(l, r) | InnerV::GreaterEq(l, r)
        | InnerV::BoolAnd(l, r) | InnerV::BoolOr(l, r) | InnerV::Mul(l, r)
        | InnerV::NotEqual(l, r) | InnerV::Equal(l, r) | InnerV::Index(l, r) => {
            let ml = expr_markers(*l);
            let mr = expr_markers(*r);
            lemma_expr_markers(*r);
            assert forall|o: Option<nat>|
                #![trigger wrapped(*l, o)]
                #![trigger wrapped(*r, o)]
                marker_names(wrapped(*l, o)) == ml && marker_names(wrapped_right(*r, o)) == mr
                    && marker_names(wrapped(*r, o)) == mr by {
                lemma_wrapped_markers(*l, o);
                lemma_wrapped_markers(*r, o);
            }
            let p = super::lower::precedence(e.inner);
            let none = Seq::<Seq<char>>::empty();
            assert forall|op: Seq<char>| #[trigger]
                marker_names(binary(wrapped(*l, p), op, wrapped_right(*r, p))) == ml + mr by {
                assert(marker_names(seq![req(op)]) =~= none);
                assert(ml + none + mr =~= ml + mr);
            }
            assert forall|op: Seq<char>, x: ExprV| #[trigger]
                marker_names(seq![req(op)] + wrapped(x, super::lower::unary())) == marker_names(
                    wrapped(x, super::lower::unary()),
                ) by {
                assert(marker_names(seq![req(op)]) =~= none);
                assert(none + marker_names(wrapped(x, super::lower::unary())) =~= marker_names(
                    wrapped(x, super::lower::unary()),
                ));
            }
            assert(ml + none =~= ml);
            assert(none + mr =~= mr);
            let u = super::lower::unary();
            match e.inner {
                InnerV::Index(b, x) => {
                    if x.inner != InnerV::Number(0i128) {
                        assert(marker_names(seq![req("["@)]) =~= none);
                        assert(marker_names(seq![req("]"@)]) =~= none);
                        assert(ml + none + mr + none =~= ml + mr);
                        let a = wrapped(*l, p);
                        let bb = seq![req("["@)];
                        let c = lower_expr(*r);
                        let d = seq![req("]"@)];
                        assert(marker_names(a) == ml);
                        assert(marker_names(a + bb) == ml + none);
                        assert(marker_names(a + bb + c) == ml + none + mr);
                        assert(marker_names(a + bb + c + d) == ml + none + mr + none);
                        assert(lower_expr(e) == a + bb + c + d);
                    } else {
                        assert(mr == none);
                        assert(marker_names(seq![req("*"@)] + wrapped(*l, u)) == ml);
                    }
                    assert(marker_names(lower_expr(e)) == expr_markers(e));
                },
                InnerV::Mul(..) => {
                    if l.inner == InnerV::Number(-1i128) {
                        assert(ml == none);
                        assert(marker_names(seq![req("-"@)] + wrapped(*r, u)) == mr);
                    } else if r.inner == InnerV::Number(-1i128) {
                        assert(mr == none);
                        assert(marker_names(seq![req("-"@)] + wrapped(*l, u)) == ml);
                    } else {
                        assert(marker_names(binary(wrapped(*l, p), "*"@, wrapped_right(*r, p))) == ml + mr);
                    }
                    assert(marker_names(lower_expr(e)) == expr_markers(e));
                },
                InnerV::NotEqual(..) => {
                    if super::lower::zeroish(*r) {
                        assert(mr == none);
                    } else if super::lower::zeroish(*l) {
                        assert(ml == none);
                    } else {
                        assert(marker_names(binary(wrapped(*l, p), "!="@, wrapped_right(*r, p))) == ml + mr);
                    }
                    assert(marker_names(lower_expr(e)) == expr_markers(e));
                },
                InnerV::Equal(..) => {
                    if super::lower::zeroish(*r) {
                        assert(mr == none);
                        assert(marker_names(seq![req("!"@)] + wrapped(*l, u)) == ml);
                    } else if super::lower::zeroish(*l) {
                        assert(ml == none);
                        assert(marker_names(seq![req("!"@)] + wrapped(*r, u)) == mr);
                    } else {
                        assert(marker_names(binary(wrapped(*l, p), "=="@, wrapped_right(*r, p))) == ml + mr);
                    }
                    assert(marker_names(lower_expr(e)) == expr_markers(e));
                },
                InnerV::Add(..) => {
                    assert(lower_expr(e) == binary(wrapped(*l, p), "+"@, wrapped_right(*r, p)));
                    assert(marker_names(binary(wrapped(*l, p), "+"@, wrapped_right(*r, p))) == ml + mr);
                    assert(marker_names(lower_expr(e)) == expr_markers(e));
                },
                InnerV::Sub(..) => {
                    assert(lower_expr(e) == binary(wrapped(*l, p), "-"@, wrapped_right(*r, p)));
                    assert(marker_names(binary(wrapped(*l, p), "-"@, wrapped_right(*r, p))) == ml + mr);
                    assert(marker_names(lower_expr(e)) == expr_markers(e));
                },
                InnerV::Div(..) => {
                    assert(lower_expr(e) == binary(wrapped(*l, p), "/"@, wrapped_right(*r, p)));
                    assert(marker_names(binary(wrapped(*l, p), "/"@, wrapped_right(*r, p))) == ml + mr);
                    assert(marker_names(lower_expr(e)) == expr_markers(e));
                },
                InnerV::Less(..) => {
                    assert(lower_expr(e) == binary(wrapped(*l, p), "<"@, wrapped_right(*r, p)));
                    assert(marker_names(binary(wrapped(*l, p), "<"@, wrapped_right(*r, p))) == ml + mr);
                    assert(marker_names(lower_expr(e)) == expr_markers(e));
                },
                InnerV::Greater(..) => {
                    assert(lower_expr(e) == binary(wrapped(*l, p), ">"@, wrapped_right(*r, p)));
                    assert(marker_names(binary(wrapped(*l, p), ">"@, wrapped_right(*r, p))) == ml + mr);
                    assert(marker_names(lower_expr(e)) == expr_markers(e));
                },
                InnerV::LessEq(..) => {
                    assert(lower_expr(e) == binary(wrapped(*l, p), "<="@, wrapped_right(*r, p)));
                    assert(marker_names(binary(wrapped(*l, p), "<="@, wrapped_right(*r, p))) == ml + mr);
                    assert(marker_names(lower_expr(e)) == expr_markers(e));
                },
                InnerV::GreaterEq(..) => {
                    assert(lower_expr(e) == binary(wrapped(*l, p), ">="@, wrapped_right(*r, p)));
                    assert(marker_names(binary(wrapped(*l, p), ">="@, wrapped_right(*r, p))) == ml + mr);
                    assert(marker_names(lower_expr(e)) == expr_markers(e));
                },
                InnerV::BoolAnd(..) => {
                    assert(lower_expr(e) == binary(wrapped(*l, p), "&&"@, wrapped_right(*r, p)));
                    assert(marker_names(binary(wrapped(*l, p), "&&"@, wrapped_right(*r, p))) == ml + mr);
                    assert(marker_names(lower_expr(e)) == expr_markers(e));
                },
                InnerV::BoolOr(..) => {
                    assert(lower_expr(e) == binary(wrapped(*l, p), "||"@, wrapped_right(*r, p)));
                    assert(marker_names(binary(wrapped(*l, p), "||"@, wrapped_right(*r, p))) == ml + mr);
                    assert(marker_names(lower_expr(e)) == expr_markers(e));
                },
                _ => {
                    assert(false);
                },
            }
            assert(expr_markers(e) == ml + mr);
        },
        InnerV::Ref(x) | InnerV::Deref(x) | InnerV::Neg(x) | InnerV::Not(x) | InnerV::Member(
            x,
            _,
        ) => {
            let none = Seq::<Seq<char>>::empty();
            let p = super::lower::precedence(e.inner);
            lemma_wrapped_markers(*x, p);
            let mx = expr_markers(*x);
            assert(none + mx =~= mx);
            assert(mx + none =~= mx);
            match e.inner {
                InnerV::Member(_, field) => {
                    assert(seq![req("."@), req(field)] =~= seq![req("."@)].push(req(field)));
                    assert(marker_names(seq![req("."@)]) =~= none);
                    lemma_plain2(req("."@), req(field));
                },
                _ => {
                    assert(marker_names(seq![req("&"@)]) =~= none);
                    assert(marker_names(seq![req("*"@)]) =~= none);
                    assert(marker_names(seq![req("-"@)]) =~= none);
                    assert(marker_names(seq![req("!"@)]) =~= none);
                },
            }
        },
        InnerV::FunctionCall(c) => {
            lemma_call_markers(*c);
        },
        InnerV::Array(es) => {
            let none = Seq::<Seq<char>>::empty();
            lemma_list_markers(es, ","@);
            assert(marker_names(seq![req("{"@)]) =~= none);
            assert(marker_names(seq![req("}"@)]) =~= none);
            assert(none + list_markers(es) + none =~= list_markers(es));
        },
        InnerV::Ternary(c, t, f) => {
            let none = Seq::<Seq<char>>::empty();
            let p = super::lower::precedence(e.inner);
            lemma_expr_markers(*t);
            lemma_wrapped_markers(*c, Some(12));
            lemma_wrapped_markers(*f, p);
            assert(marker_names(seq![req("?"@)]) =~= none);
            assert(marker_names(seq![req(":"@)]) =~= none);
            assert(expr_markers(*c) + none + expr_markers(*t) + none + expr_markers(*f)
                =~= expr_markers(*c) + expr_markers(*t) + expr_markers(*f));
        },
        InnerV::Binding(lm, x, rm) => {
            lemma_expr_markers(*x);
            assert(marker_names(seq![marker(lm.name)]) =~= seq![lm.name]);
            assert(marker_names(seq![marker(rm.name)]) =~= seq![rm.name]);
        },
        InnerV::Quine => {
            assert(seq![req("{"@), marker("$quine"@), req("}"@)] =~= seq![req("{"@)].push(
                marker("$quine"@),
            ).push(req("}"@)));
            assert(marker_names(seq![req("{"@)]) =~= Seq::<Seq<char>>::empty());
            assert(marker_names(seq![req("{"@)].push(marker("$quine"@))) =~= seq!["$quine"@]);
            assert(marker_names(seq![req("{"@), marker("$quine"@), req("}"@)]) =~= seq!["$quine"@]);
        },
        InnerV::QuineLen | InnerV::QuineSpace | InnerV::QuineLine => {
            assert(marker_names(seq![marker("$quineLen"@)]) =~= seq!["$quineLen"@]);
            assert(marker_names(seq![marker("$quineSpace"@)]) =~= seq!["$quineSpace"@]);
            assert(marker_names(seq![marker("$quineLine"@)]) =~= seq!["$quineLine"@]);
        },
        _ => {
            assert forall|x: Seq<char>| #[trigger] marker_names(seq![req(x)]) =~= Seq::<
                Seq<char>,
            >::empty() by {}
        },
    }
}

/// Lowering a list of expressions keeps their markers, in order.
pub proof fn lemma_list_markers(es: Seq<ExprV>, sep: Seq<char>)
    ensures
        marker_names(lower_list(es, sep)) == list_markers(es),
    decreases es, es.len(),
{
    broadcast use lemma_marker_names_push, lemma_marker_names_add;

    let none = Seq::<Seq<char>>::empty();
    if es.len() == 1 {
        lemma_expr_markers(es[0]);
        assert(es.drop_last() =~= Seq::<ExprV>::empty());
        assert(list_markers(es.drop_last()) == none);
        assert(none + expr_markers(es[0]) =~= expr_markers(es[0]));
    } else if es.len() > 1 {
        vstd::seq::axiom_seq_len_decreases(es, es.drop_last());
        lemma_list_markers(es.drop_last(), sep);
        lemma_expr_markers(es.last());
        assert(marker_names(seq![req(sep)]) =~= none);
        assert(list_markers(es.drop_last()) + none + expr_markers(es.last()) =~= list_markers(
            es.drop_last(),
        ) + expr_markers(es.last()));
    }
}

/// Lowering a call keeps its markers, in order.
pub proof fn lemma_call_markers(c: CallV)
    ensures
        marker_names(lower_call(c)) == call_markers(c),
    decreases c, 0nat,
{
    broadcast use lemma_marker_names_push, lemma_marker_names_add;

    lemma_source_markers(c.source);
    lemma_list_markers(c.args, ", "@);
}

proof fn lemma_source_markers(s: SourceV)
    ensures
        marker_names(lower_source(s)) == source_markers(s),
    decreases s, 0nat,
{
    broadcast use lemma_marker_names_push, lemma_marker_names_add;

    match s {
        SourceV::Direct(..) => {},
        SourceV::Indirect(e) => {
            lemma_expr_markers(e);
        },
    }
}

/// No token of `s` is a marker.
pub open spec fn markerless(s: Seq<TokenView>) -> bool {
    forall|i: int| 0 <= i < s.len() ==> (#[trigger] s[i]).1 != TokenStyle::Marker
}

proof fn lemma_markerless(s: Seq<TokenView>)
    requires
        markerless(s),
    ensures
        marker_names(s) == Seq::<Seq<char>>::empty(),
    decreases s.len(),
{
    if s.len() > 0 {
        assert(markerless(s.drop_last())) by {
            assert forall|i: int| 0 <= i < s.drop_last().len() implies (
            #[trigger] s.drop_last()[i]).1 != TokenStyle::Marker by {
                assert(s.drop_last()[i] == s[i]);
            }
        }
        lemma_markerless(s.drop_last());
        assert(s[s.len() - 1].1 != TokenStyle::Marker);
        assert(Seq::<Seq<char>>::empty() + Seq::<Seq<char>>::empty() =~= Seq::<Seq<char>>::empty());
    }
}

proof fn lemma_type_markerless(t: TypeV, explicit: bool)
    ensures
        markerless(lower_type(t, explicit).0),
        markerless(lower_type(t, explicit).1),
    decreases t, 0nat,
{
    match t {
        TypeV::Ref(inner) => {
            lemma_type_markerless(*inner, false);
            lemma_pointer_markerless(lower_type(*inner, false));
        },
        TypeV::Array(inner) => {
            lemma_type_markerless(*inner, false);
            lemma_pointer_markerless(lower_type(*inner, false));
        },
        TypeV::ArrayFixed(inner, n) => {
            lemma_type_markerless(*inner, false);
        },
        TypeV::FunctionPtr(args, ret) => {
            lemma_type_markerless(*ret, false);
            lemma_params_markerless(args.args);
        },
        _ => {},
    }
}

proof fn lemma_params_markerless(ts: Seq<TypeV>)
    ensures
        markerless(lower_params(ts)),
    decreases ts, ts.len(),
{
    if ts.len() == 1 {
        lemma_type_markerless(ts[0], false);
    } else if ts.len() > 1 {
        vstd::seq::axiom_seq_len_decreases(ts, ts.drop_last());
        lemma_params_markerless(ts.drop_last());
        lemma_type_markerless(ts.last(), false);
    }
}

proof fn lemma_pointer_markerless(lr: (Seq<TokenView>, Seq<TokenView>))
    requires
        markerless(lr.0),
        markerless(lr.1),
    ensures
        markerless(pointer_to(lr).0),
        markerless(pointer_to(lr).1),
{
    lemma_last_index_of_bounds(lr.0, req("("@));
    match last_index_of(lr.0, req("("@)) {
        Some(i) => {
            let l2 = lr.0.insert(i + 1, req("*"@));
            assert forall|k: int| 0 <= k < l2.len() implies (#[trigger] l2[k]).1 != TokenStyle::Marker by {
                if k < i + 1 {
                    assert(l2[k] == lr.0[k]);
                } else if k > i + 1 {
                    assert(l2[k] == lr.0[k - 1]);
                }
            }
        },
        None => {},
    }
}

/// A declaration of a name with a type holds no marker.
pub proof fn lemma_decorated_markers(name: Seq<char>, t: TypeV, explicit: bool)
    ensures
        marker_names(decorated(name, t, explicit)) == Seq::<Seq<char>>::empty(),
{
    lemma_type_markerless(t, explicit);
    lemma_markerless(decorated(name, t, explicit));
}

// ---------------------------------------------------------------------------
// Statements and blocks
// ---------------------------------------------------------------------------

/// The markers of an optional expression.
pub open spec fn opt_markers(o: Option<ExprV>) -> Seq<Seq<char>> {
    match o {
        Some(e) => expr_markers(e),
        None => Seq::empty(),
    }
}

/// The markers of a statement, in the order in which they stand in it.
pub open spec fn stmt_markers(s: StmtV) -> Seq<Seq<char>>
    decreases s, 0nat,
{
    match s {
        StmtV::CreateVariable { value, .. } => opt_markers(value),
        StmtV::SetVariable { place, value, .. } | StmtV::AddAssign { place, value, .. }
        | StmtV::SubAssign { place, value, .. } | StmtV::MulAssign { place, value, .. }
        | StmtV::DivAssign { place, value, .. } => expr_markers(place) + expr_markers(value),
        StmtV::IncrementVariable { place, .. } | StmtV::DecrementVariable { place, .. } =>
            expr_markers(place),
        StmtV::FunctionCall(c) => call_markers(c),
        StmtV::Return { expr, .. } => opt_markers(expr),
        StmtV::GotoNotEqual { condition, .. } => expr_markers(condition),
        StmtV::IfStatement { condition, on_true, on_false, .. } => expr_markers(condition)
            + block_markers(on_true) + block_markers(on_false),
        StmtV::LoopStatement { condition, body, iterate, .. } => opt_markers(condition)
            + block_markers(body) + block_markers(iterate),
        StmtV::ScopeStatement { body, .. } => block_markers(body),
        StmtV::MarkerStatement { name, .. } => seq![name],
        _ => Seq::empty(),
    }
}

/// The markers of the statements of a block, in order.
pub open spec fn block_markers(b: Seq<StmtV>) -> Seq<Seq<char>>
    decreases b, 1nat,
{
    if b.len() == 0 {
        Seq::empty()
    } else {
        proof {
            vstd::seq::axiom_seq_len_decreases(b, b.drop_last());
        }
        block_markers(b.drop_last()) + stmt_markers(b.last())
    }
}

/// An assignment whose value applies an operator to the place itself; it
/// is written as a compound assignment, the place once.
pub open spec fn self_update(place: ExprV, value: ExprV) -> bool {
    match value.inner {
        InnerV::Add(l, _) | InnerV::Sub(l, _) | InnerV::Mul(l, _) | InnerV::Div(l, _) => *l == place,
        _ => false,
    }
}

/// The statement is not one where C lowering must drop, merge or reorder
/// markers: an argument declaration's value, a place written once for two
/// occurrences, the step of a `for` written before a body that also holds
/// markers, statements after a `for` loop that a scope folds in, and
/// statements with markers that lower to nothing.
pub open spec fn stmt_keeps_order(s: StmtV) -> bool
    decreases s, 0nat,
{
    match s {
        StmtV::CreateVariable { var, value, .. } => var.arg ==> opt_markers(value).len() == 0,
        StmtV::SetVariable { place, value, .. } => self_update(place, value) ==> expr_markers(
            place,
        ).len() == 0,
        StmtV::IfStatement { on_true, on_false, .. } => block_keeps_order(on_true)
            && block_keeps_order(on_false),
        StmtV::LoopStatement { body, iterate, .. } => {
            &&& block_keeps_order(body)
            &&& block_keeps_order(iterate)
            &&& (block_markers(body).len() == 0 || block_markers(iterate).len() == 0)
            &&& (iterate.len() > 1 ==> block_markers(iterate.drop_first()).len() == 0)
        },
        StmtV::ScopeStatement { body, .. } => {
            &&& block_keeps_order(body)
            &&& (body.len() >= 2 && body[1] is LoopStatement ==> block_markers(body.skip(2)).len()
                == 0)
        },
        _ => true,
    }
}

/// Every statement of the block keeps its markers' order, and each that
/// holds markers lowers to tokens.
pub open spec fn block_keeps_order(b: Seq<StmtV>) -> bool
    decreases b, 1nat,
{
    forall|i: int|
        0 <= i < b.len() ==> stmt_keeps_order(#[trigger] b[i]) && (stmt_markers(b[i]).len() > 0
            ==> forall|n: nat| #[trigger] lower_stmt(b[i], n) is Some)
}

proof fn lemma_req_markers(x: Seq<char>)
    ensures
        marker_names(seq![req(x)]) == Seq::<Seq<char>>::empty(),
{
    lemma_marker_names_push(Seq::empty(), req(x));
    assert(marker_names(seq![req(x)]) =~= Seq::<Seq<char>>::empty());
}

proof fn lemma_plain2(a: TokenView, b: TokenView)
    requires
        a.1 != TokenStyle::Marker,
        b.1 != TokenStyle::Marker,
    ensures
        marker_names(seq![a, b]) == Seq::<Seq<char>>::empty(),
{
    assert(seq![a, b] =~= seq![a].push(b));
    lemma_marker_names_push(Seq::empty(), a);
    lemma_marker_names_push(seq![a], b);
    assert(marker_names(seq![a, b]) =~= Seq::<Seq<char>>::empty());
}

proof fn lemma_plain3(a: TokenView, b: TokenView, c: TokenView)
    requires
        a.1 != TokenStyle::Marker,
        b.1 != TokenStyle::Marker,
        c.1 != TokenStyle::Marker,
    ensures
        marker_names(seq![a, b, c]) == Seq::<Seq<char>>::empty(),
{
    assert(seq![a, b, c] =~= seq![a, b].push(c));
    lemma_plain2(a, b);
    lemma_marker_names_push(seq![a, b], c);
    assert(marker_names(seq![a, b, c]) =~= Seq::<Seq<char>>::empty());
}

proof fn lemma_trim_semi_markers(t: Seq<TokenView>)
    ensures
        marker_names(trim_semi(t)) == marker_names(t),
{
    if t.len() > 0 && t.last() == semi() {
        assert(t =~= t.drop_last().push(semi()));
        lemma_marker_names_push(t.drop_last(), semi());
        assert(marker_names(t.drop_last()) + token_marker(semi()) =~= marker_names(t.drop_last()));
    }
}

/// The markers of token sequences one after the other.
pub open spec fn parts_markers(parts: Seq<Seq<TokenView>>) -> Seq<Seq<char>>
    decreases parts.len(),
{
    if parts.len() == 0 {
        Seq::empty()
    } else {
        parts_markers(parts.drop_last()) + marker_names(parts.last())
    }
}

proof fn lemma_layout_markers(parts: Seq<Seq<TokenView>>, ind: Seq<TokenView>, enclosed: bool)
    requires
        marker_names(ind) == Seq::<Seq<char>>::empty(),
    ensures
        marker_names(layout(parts, ind, enclosed)) == parts_markers(parts),
        layout(parts, ind, enclosed).len() > 0 ==> layout(parts, ind, enclosed).last() == newline(),
    decreases parts.len(),
{
    broadcast use lemma_marker_names_push, lemma_marker_names_add;

    if parts.len() > 0 {
        lemma_layout_markers(parts.drop_last(), ind, enclosed);
        let none = Seq::<Seq<char>>::empty();
        let m = marker_names(parts.last());
        assert(marker_names(seq![newline()]) =~= none);
        assert(m + none =~= m);
        assert(none + m + none =~= m);
    }
}

proof fn lemma_block_markers_add(a: Seq<StmtV>, b: Seq<StmtV>)
    ensures
        block_markers(a + b) == block_markers(a) + block_markers(b),
    decreases b.len(),
{
    if b.len() == 0 {
        assert(a + b =~= a);
        assert(block_markers(a) + Seq::<Seq<char>>::empty() =~= block_markers(a));
    } else {
        lemma_block_markers_add(a, b.drop_last());
        assert((a + b).drop_last() =~= a + b.drop_last());
        assert((a + b).last() == b.last());
        assert(block_markers(a) + block_markers(b.drop_last()) + stmt_markers(b.last())
            =~= block_markers(a) + (block_markers(b.drop_last()) + stmt_markers(b.last())));
    }
}

/// Lowering the statements of a block keeps their markers, in order.
proof fn lemma_parts_markers(b: Seq<StmtV>, level: nat)
    requires
        block_keeps_order(b),
    ensures
        parts_markers(lowered_parts(b, level)) == block_markers(b),
    decreases b, 1nat,
{
    if b.len() > 0 {
        vstd::seq::axiom_seq_len_decreases(b, b.drop_last());
        assert(block_keeps_order(b.drop_last())) by {
            assert forall|i: int| 0 <= i < b.drop_last().len() implies stmt_keeps_order(
                #[trigger] b.drop_last()[i],
            ) && (stmt_markers(b.drop_last()[i]).len() > 0 ==> forall|n: nat| #[trigger]
                lower_stmt(b.drop_last()[i], n) is Some) by {
                assert(b.drop_last()[i] == b[i]);
            }
        }
        lemma_parts_markers(b.drop_last(), level);
        let last = b[b.len() - 1];
        assert(stmt_keeps_order(last));
        let p = lowered_parts(b.drop_last(), level);
        match lower_stmt(last, level) {
            Some(t) => {
                lemma_stmt_markers(last, level);
                assert(p.push(t).drop_last() =~= p);
            },
            None => {
                assert(stmt_markers(last).len() == 0);
                assert(block_markers(b.drop_last()) + stmt_markers(last) =~= block_markers(
                    b.drop_last(),
                ));
            },
        }
    }
}

/// Lowering a block keeps the markers of its statements, in order.
pub proof fn lemma_block_markers(b: Seq<StmtV>, indent: nat, increase: bool, enclosed: bool)
    requires
        block_keeps_order(b),
    ensures
        marker_names(lower_block(b, indent, increase, enclosed)) == block_markers(b),
    decreases b, 2nat,
{
    let level = if increase {
        indent + 1
    } else {
        indent
    };
    lemma_parts_markers(b, level);
    lemma_indent_no_markers(level);
    let parts = lowered_parts(b, level);
    lemma_layout_markers(parts, indent_tokens(level), enclosed);
    let ret = layout(parts, indent_tokens(level), enclosed);
    if !enclosed && ret.len() > 0 {
        assert(ret =~= ret.drop_last().push(newline()));
        lemma_marker_names_push(ret.drop_last(), newline());
        assert(marker_names(ret.drop_last()) + token_marker(newline()) =~= marker_names(
            ret.drop_last(),
        ));
    }
}

/// Lowering a statement keeps its markers, in order, wherever it lowers to
/// tokens and keeps their order.
pub proof fn lemma_stmt_markers(s: StmtV, indent: nat)
    requires
        stmt_keeps_order(s),
        lower_stmt(s, indent) is Some,
    ensures
        marker_names(lower_stmt(s, indent)->0) == stmt_markers(s),
    decreases s, 1nat,
{
    broadcast use lemma_marker_names_push, lemma_marker_names_add;

    let none = Seq::<Seq<char>>::empty();
    let t = lower_stmt(s, indent)->0;
    lemma_req_markers(";"@);
    match s {
        StmtV::CreateVariable { var, value, .. } => {
            lemma_decorated_markers(var.name, var.ty.ty, super::lower::explicit_for(value));
            lemma_req_markers("="@);
            match value {
                Some(v) => {
                    lemma_expr_markers(v);
                    assert(none + none + expr_markers(v) + none =~= expr_markers(v));
                },
                None => {
                    assert(none + none =~= none);
                },
            }
        },
        StmtV::SetVariable { place, value, .. } => {
            lemma_expr_markers(place);
            lemma_expr_markers(value);
            let mp = expr_markers(place);
            let mv = expr_markers(value);
            lemma_req_markers("="@);
            assert(none + mv + none =~= mv);
            if self_update(place, value) {
                assert(mp == none);
                match value.inner {
                    InnerV::Add(l, r) | InnerV::Sub(l, r) | InnerV::Mul(l, r) | InnerV::Div(l, r) => {
                        lemma_expr_markers(*r);
                        let mr = expr_markers(*r);
                        assert(mv == mp + mr);
                        assert(none + mr =~= mr);
                        assert(none + mr + none =~= mr);
                        lemma_req_markers("+="@);
                        lemma_req_markers("-="@);
                        lemma_req_markers("*="@);
                        lemma_req_markers("/="@);
                        lemma_plain2(req("++"@), semi());
                        lemma_plain2(req("--"@), semi());
                        assert(marker_names(set_tail(place, value)) == mr);
                    },
                    _ => {},
                }
                assert(mp + mv =~= mv);
            } else {
                assert(marker_names(set_tail(place, value)) == mv);
            }
        },
        StmtV::IncrementVariable { place, .. } | StmtV::DecrementVariable { place, .. } => {
            lemma_expr_markers(place);
            lemma_plain2(req("++"@), semi());
            lemma_plain2(req("--"@), semi());
            assert(expr_markers(place) + none =~= expr_markers(place));
        },
        StmtV::AddAssign { place, value, .. } | StmtV::SubAssign { place, value, .. }
        | StmtV::MulAssign { place, value, .. } | StmtV::DivAssign { place, value, .. } => {
            lemma_expr_markers(place);
            lemma_expr_markers(value);
            lemma_req_markers("+="@);
            lemma_req_markers("-="@);
            lemma_req_markers("*="@);
            lemma_req_markers("/="@);
            assert(expr_markers(place) + none + expr_markers(value) + none =~= expr_markers(place)
                + expr_markers(value));
        },
        StmtV::FunctionCall(c) => {
            lemma_source_markers(c.source);
            lemma_list_markers(c.args, ","@);
            lemma_req_markers("("@);
            lemma_plain2(req(")"@), semi());
            assert(source_markers(c.source) + none + list_markers(c.args) + none =~= call_markers(
                c,
            ));
        },
        StmtV::Return { expr, .. } => {
            lemma_req_markers("return"@);
            match expr {
                Some(e) => {
                    lemma_expr_markers(e);
                    assert(none + expr_markers(e) + none =~= expr_markers(e));
                },
                None => {
                    lemma_plain2(req("return"@), semi());
                },
            }
        },
        StmtV::IfStatement { condition, on_true, on_false, .. } => {
            lemma_stmt_if(s, indent);
        },
        StmtV::LoopStatement { condition, body, iterate, .. } => {
            lemma_stmt_loop(s, indent);
        },
        StmtV::ScopeStatement { body, .. } => {
            lemma_stmt_scope(s, indent);
        },
        StmtV::ContinueStatement { .. } => {
            lemma_plain2(req("continue"@), semi());
        },
        StmtV::BreakStatement { .. } => {
            lemma_plain2(req("break"@), semi());
        },
        StmtV::MarkerStatement { name, .. } => {
            assert(marker_names(seq![marker(name)]) =~= seq![name]);
        },
        _ => {},
    }
}

proof fn lemma_block_markers_first(b: Seq<StmtV>)
    requires
        b.len() > 0,
    ensures
        block_markers(b) == stmt_markers(b[0]) + block_markers(b.drop_first()),
        b.len() == 1 ==> block_markers(b) == stmt_markers(b[0]),
{
    let one = seq![b[0]];
    assert(b =~= one + b.drop_first());
    lemma_block_markers_add(one, b.drop_first());
    assert(one.drop_last() =~= Seq::<StmtV>::empty());
    assert(one.last() == b[0]);
    assert(block_markers(one.drop_last()) == Seq::<Seq<char>>::empty());
    assert(block_markers(one) =~= stmt_markers(b[0]));
    if b.len() == 1 {
        assert(b.drop_first() =~= Seq::<StmtV>::empty());
        assert(stmt_markers(b[0]) + Seq::<Seq<char>>::empty() =~= stmt_markers(b[0]));
    }
}

proof fn lemma_braced_markers(x: Seq<TokenView>, indent: nat)
    ensures
        marker_names(braced(x, indent)) == marker_names(x),
{
    broadcast use lemma_marker_names_push, lemma_marker_names_add;

    let none = Seq::<Seq<char>>::empty();
    lemma_indent_no_markers(indent);
    lemma_plain2(req("{"@), newline());
    lemma_req_markers("}"@);
    assert(none + marker_names(x) + none + none =~= marker_names(x));
}

/// A branch or loop body: its only statement, or the block in braces.
proof fn lemma_branch_markers(b: Seq<StmtV>, indent: nat, single: bool)
    requires
        block_keeps_order(b),
        single ==> b.len() == 1,
        single ==> lower_stmt(b[0], indent) is Some,
    ensures
        single ==> marker_names(lower_stmt(b[0], indent)->0) == block_markers(b),
        marker_names(braced(lower_block(b, indent, true, true), indent)) == block_markers(b),
    decreases b, 3nat,
{
    if single {
        assert(stmt_keeps_order(b[0]));
        lemma_stmt_markers(b[0], indent);
        lemma_block_markers_first(b);
    }
    lemma_block_markers(b, indent, true, true);
    lemma_braced_markers(lower_block(b, indent, true, true), indent);
}

proof fn lemma_stmt_if(s: StmtV, indent: nat)
    requires
        s is IfStatement,
        stmt_keeps_order(s),
        lower_stmt(s, indent) is Some,
    ensures
        marker_names(lower_stmt(s, indent)->0) == stmt_markers(s),
    decreases s, 0nat,
{
    broadcast use lemma_marker_names_push, lemma_marker_names_add;

    let none = Seq::<Seq<char>>::empty();
    if let StmtV::IfStatement { condition, on_true, on_false, .. } = s {
        lemma_expr_markers(condition);
        let mc = expr_markers(condition);
        let head = seq![req("if"@), req("("@)] + lower_expr(condition) + seq![req(")"@)];
        lemma_plain2(req("if"@), req("("@));
        lemma_req_markers(")"@);
        assert(marker_names(head) == mc) by {
            assert(none + mc + none =~= mc);
        }
        let single = super::lower::single_branch(on_true, on_false);
        lemma_branch_markers(on_true, indent, single);
        let mt = block_markers(on_true);
        let mf = block_markers(on_false);
        if on_false.len() == 0 {
            assert(on_false =~= Seq::<StmtV>::empty());
            assert(mf == none);
            assert(mc + mt + none =~= mc + mt);
        } else {
            lemma_branch_markers(on_false, indent, on_false.len() == 1);
            lemma_indent_no_markers(indent);
            assert(marker_names(seq![newline()]) =~= none);
            lemma_req_markers("else"@);
            assert(mc + mt + none + none + none + mf =~= mc + mt + mf);
        }
    }
}

proof fn lemma_stmt_loop(s: StmtV, indent: nat)
    requires
        s is LoopStatement,
        stmt_keeps_order(s),
        lower_stmt(s, indent) is Some,
    ensures
        marker_names(lower_stmt(s, indent)->0) == stmt_markers(s),
    decreases s, 0nat,
{
    broadcast use lemma_marker_names_push, lemma_marker_names_add;

    let none = Seq::<Seq<char>>::empty();
    if let StmtV::LoopStatement { condition, body, iterate, .. } = s {
        let mc = opt_markers(condition);
        let cond = match condition {
            Some(c) => lower_expr(c),
            None => Seq::empty(),
        };
        match condition {
            Some(c) => lemma_expr_markers(c),
            None => {},
        }
        assert(marker_names(cond) == mc);
        lemma_branch_markers(body, indent, body.len() == 1);
        let mb = block_markers(body);
        let mi = block_markers(iterate);
        let st = if iterate.len() == 0 {
            Seq::empty()
        } else {
            trim_semi(lower_stmt(iterate[0], indent)->0)
        };
        if iterate.len() == 0 {
            assert(iterate =~= Seq::<StmtV>::empty());
            assert(mi == none);
        } else {
            assert(stmt_keeps_order(iterate[0]));
            lemma_stmt_markers(iterate[0], indent);
            lemma_trim_semi_markers(lower_stmt(iterate[0], indent)->0);
            lemma_block_markers_first(iterate);
            if iterate.len() > 1 {
                assert(stmt_markers(iterate[0]) + none =~= stmt_markers(iterate[0]));
            }
        }
        assert(marker_names(st) == mi);
        lemma_plain3(req("for"@), req("("@), semi());
        lemma_req_markers(";"@);
        lemma_req_markers(")"@);
        assert(none + mc + none + mi + none + mb =~= mc + mi + mb);
        assert(mc + mi + mb =~= mc + mb + mi);
    }
}

proof fn lemma_stmt_scope(s: StmtV, indent: nat)
    requires
        s is ScopeStatement,
        stmt_keeps_order(s),
        lower_stmt(s, indent) is Some,
    ensures
        marker_names(lower_stmt(s, indent)->0) == stmt_markers(s),
    decreases s, 0nat,
{
    broadcast use lemma_marker_names_push, lemma_marker_names_add;

    let none = Seq::<Seq<char>>::empty();
    if let StmtV::ScopeStatement { body, .. } = s {
        if body.len() >= 2 && body[1] is LoopStatement {
            let init = lower_stmt(body[0], indent)->0;
            let lp = lower_stmt(body[1], indent)->0;
            assert(stmt_keeps_order(body[0]));
            assert(stmt_keeps_order(body[1]));
            lemma_stmt_markers(body[0], indent);
            lemma_stmt_markers(body[1], indent);
            lemma_trim_semi_markers(init);
            assert(lp.take(2) =~= seq![req("for"@), req("("@)]);
            lemma_plain2(req("for"@), req("("@));
            assert(lp =~= lp.take(2) + lp.skip(2));
            assert(marker_names(lp.skip(2)) == stmt_markers(body[1]));
            let two = body.take(2);
            assert(body =~= two + body.skip(2));
            lemma_block_markers_add(two, body.skip(2));
            lemma_block_markers_first(two);
            assert(two.drop_first() =~= seq![body[1]]);
            lemma_block_markers_first(two.drop_first());
            assert(block_markers(body) =~= stmt_markers(body[0]) + stmt_markers(body[1]));
        } else {
            lemma_block_markers(body, indent, false, false);
        }
    }
}

// ---------------------------------------------------------------------------
// Declarations and programs
// ---------------------------------------------------------------------------

/// The markers of a declaration: a marker declaration is one, a static has
/// those of its value, a function those of its body, a constant those of
/// its value.
pub open spec fn decl_markers(d: MIRDeclaration) -> Seq<Seq<char>> {
    match d {
        MIRDeclaration::Static(v) => expr_markers(v.value@),
        MIRDeclaration::Function(f) => block_markers(stmts_view(f.body@)),
        MIRDeclaration::Constant(c) => expr_markers(c.value@),
        MIRDeclaration::Marker(m) => seq![m.name@],
    }
}

/// The markers of the declarations of a program, in order.
pub open spec fn decls_markers(ds: Seq<MIRDeclaration>) -> Seq<Seq<char>>
    decreases ds.len(),
{
    if ds.len() == 0 {
        Seq::empty()
    } else {
        decls_markers(ds.drop_last()) + decl_markers(ds.last())
    }
}

/// The declaration is not one that lowering drops with its markers (a
/// constant, which is inlined where it is used, or an external function's
/// body), and the statements of a function body keep their markers' order.
pub open spec fn decl_keeps_order(d: MIRDeclaration) -> bool {
    match d {
        MIRDeclaration::Function(f) => if f.fn_type == MIRFunctionType::Extern {
            block_markers(stmts_view(f.body@)).len() == 0
        } else {
            block_keeps_order(stmts_view(f.body@))
        },
        MIRDeclaration::Constant(c) => expr_markers(c.value@).len() == 0,
        _ => true,
    }
}

proof fn lemma_arg_decls_markers(args: Seq<MIRVariable>)
    ensures
        marker_names(arg_decls(args)) == Seq::<Seq<char>>::empty(),
    decreases args.len(),
{
    broadcast use lemma_marker_names_push, lemma_marker_names_add;

    if args.len() == 1 {
        lemma_decorated_markers(args[0].name@, args[0].ty.ty@, false);
    } else if args.len() > 1 {
        lemma_arg_decls_markers(args.drop_last());
        lemma_decorated_markers(args.last().name@, args.last().ty.ty@, false);
        lemma_req_markers(","@);
        let none = Seq::<Seq<char>>::empty();
        assert(none + none + none =~= none);
    }
}

proof fn lemma_decl_markers(d: MIRDeclaration, indent: nat)
    requires
        decl_keeps_order(d),
    ensures
        marker_names(decl_tokens(d, indent)) == decl_markers(d),
{
    broadcast use lemma_marker_names_push, lemma_marker_names_add;

    let none = Seq::<Seq<char>>::empty();
    match d {
        MIRDeclaration::Static(v) => {
            let mv = expr_markers(v.value@);
            lemma_decorated_markers(v.name@, v.ty.ty@, super::lower::static_explicit(v.value@));
            lemma_expr_markers(v.value@);
            lemma_req_markers("="@);
            lemma_req_markers(";"@);
            assert(none + none + mv + none =~= mv);
        },
        MIRDeclaration::Function(f) => {
            if f.fn_type != MIRFunctionType::Extern {
                let b = stmts_view(f.body@);
                let mb = block_markers(b);
                lemma_decorated_markers(f.name@, f.ret_ty.ty@, false);
                lemma_arg_decls_markers(f.args@);
                lemma_block_markers(b, indent, true, true);
                lemma_req_markers("("@);
                lemma_plain3(req(")"@), req("{"@), newline());
                lemma_plain2(req("}"@), newline());
                assert(none + none + none + none + mb + none =~= mb);
            }
        },
        MIRDeclaration::Constant(_) => {},
        MIRDeclaration::Marker(m) => {
            assert(marker_names(seq![marker(m.name@)]) =~= seq![m.name@]);
        },
    }
}

/// Markers keep their order from the program to its C tokens: where no
/// declaration is one that lowering drops with its markers and every
/// function body keeps its markers' order (see [`decl_keeps_order`]), the
/// marker tokens of the lowered declarations name the program's markers, in
/// the order in which they stand in the program; the includes before them
/// hold none.
pub proof fn lemma_program_markers(imports: Seq<String>, ds: Seq<MIRDeclaration>, indent: nat)
    requires
        forall|i: int| 0 <= i < ds.len() ==> decl_keeps_order(#[trigger] ds[i]),
    ensures
        marker_names(decls_tokens(ds, indent)) == decls_markers(ds),
        marker_names(lower_imports_tokens(imports) + decls_tokens(ds, indent)) == decls_markers(ds),
    decreases ds.len(),
{
    broadcast use lemma_marker_names_push, lemma_marker_names_add;

    if ds.len() > 0 {
        assert forall|i: int| 0 <= i < ds.drop_last().len() implies decl_keeps_order(
            #[trigger] ds.drop_last()[i],
        ) by {
            assert(ds.drop_last()[i] == ds[i]);
        }
        lemma_program_markers(imports, ds.drop_last(), indent);
        assert(decl_keeps_order(ds[ds.len() - 1]));
        lemma_decl_markers(ds.last(), indent);
    }
    lemma_imports_markers(imports);
    assert(Seq::<Seq<char>>::empty() + decls_markers(ds) =~= decls_markers(ds));
}

proof fn lemma_imports_markers(imports: Seq<String>)
    ensures
        marker_names(lower_imports_tokens(imports)) == Seq::<Seq<char>>::empty(),
    decreases imports.len(),
{
    broadcast use lemma_marker_names_push, lemma_marker_names_add;

    if imports.len() > 0 {
        lemma_imports_markers(imports.drop_last());
        lemma_plain3(req("#include"@), req(imports.last()@), req("\n"@));
        let none = Seq::<Seq<char>>::empty();
        assert(none + none =~= none);
    }
}

// ---------------------------------------------------------------------------
// Merging, compression and the finished program
// ---------------------------------------------------------------------------

proof fn lemma_update_last_markers(s: Seq<TokenView>, x: TokenView)
    requires
        s.len() > 0,
        token_marker(x) == token_marker(s.last()),
    ensures
        marker_names(s.update(s.len() - 1, x)) == marker_names(s),
{
    assert(s.update(s.len() - 1, x) =~= s.drop_last().push(x));
    lemma_marker_names_push(s.drop_last(), x);
    assert(s =~= s.drop_last().push(s.last()));
    lemma_marker_names_push(s.drop_last(), s.last());
}

/// Merging tokens keeps every marker a token of its own, with its text, in
/// order: the marker tokens of the merged prefix are those of the prefix.
pub proof fn lemma_merged_markers<I: TokenInfo + ?Sized>(
    info: &I,
    s: Seq<TokenView>,
    only: Option<(Seq<char>, Seq<char>)>,
    n: nat,
)
    requires
        n <= s.len(),
        all_have_text(s),
    ensures
        marker_names(merged_prefix(info, s, only, n)) == marker_names(s.take(n as int)),
    decreases n,
{
    crate::codegen::token::lemma_merged_prefix_props(info, s, only, n);
    if n > 1 {
        lemma_merged_markers(info, s, only, (n - 1) as nat);
        crate::codegen::token::lemma_merged_prefix_props(info, s, only, (n - 1) as nat);
        let acc = merged_prefix(info, s, only, (n - 1) as nat);
        let right = s[n - 1];
        assert(s.take(n as int) =~= s.take(n - 1).push(right));
        lemma_marker_names_push(s.take(n - 1), right);
        lemma_marker_names_push(acc, right);
        if spec_should_merge(acc.last(), right, only) {
            let (merged, new_left) = spec_try_merge(info, acc.last(), right);
            assert(token_marker(new_left) == token_marker(acc.last()));
            lemma_update_last_markers(acc, new_left);
            let up = acc.update(acc.len() - 1, new_left);
            lemma_marker_names_push(up, right);
            if merged {
                assert(token_marker(right) =~= Seq::<Seq<char>>::empty());
                assert(marker_names(acc) + token_marker(right) =~= marker_names(acc));
            }
        }
    }
}

proof fn lemma_merge_rounds_markers<I: TokenInfo + ?Sized>(info: &I, b: Seq<TokenView>)
    requires
        all_have_text(b),
    ensures
        marker_names(merge_rounds(info, b)) == marker_names(b),
    decreases b.len(),
{
    if within_limits(b) {
        match super::compress::best_merge(info, b) {
            None => {},
            Some((l, r)) => {
                let nb = merged_prefix(info, b, Some((l, r)), b.len());
                lemma_merged_markers(info, b, Some((l, r)), b.len());
                crate::codegen::token::lemma_merged_prefix_props(info, b, Some((l, r)), b.len());
                assert(b.take(b.len() as int) =~= b);
                if nb.len() < b.len() {
                    lemma_merge_rounds_markers(info, nb);
                }
            },
        }
    }
}

proof fn lemma_replace_text_markers(b: Seq<TokenView>, t: Seq<char>, name: Seq<char>)
    ensures
        marker_names(replace_text(b, t, name)) == marker_names(b),
    decreases b.len(),
{
    if b.len() > 0 {
        lemma_replace_text_markers(b.drop_last(), t, name);
        assert(replace_text(b, t, name).drop_last() =~= replace_text(b.drop_last(), t, name));
    }
}

proof fn lemma_define_rounds_markers<I: TokenInfo + ?Sized>(
    info: &I,
    b0: Seq<TokenView>,
    used: Seq<Seq<char>>,
    st: DefineState,
    fuel: nat,
)
    ensures
        marker_names(define_rounds(info, b0, used, st, fuel).body) == marker_names(st.body),
        marker_names(define_lines(define_rounds(info, b0, used, st, fuel).defines)) == marker_names(
            define_lines(st.defines),
        ),
    decreases fuel,
{
    if !(fuel == 0 || st.name_num + used.len() + 2 >= usize::MAX) {
        match super::compress::best_define_upto(info, b0, st.body, st.removed, b0.len() as int) {
            None => {},
            Some(i) => {
                let t = b0[i].0->0;
                let n = super::compress::first_unused(used, st.name_num, (used.len() + 1) as nat);
                let name = crate::util::name::spec_name_of(n);
                let next = DefineState {
                    body: replace_text(st.body, t, name),
                    removed: st.removed.push(t),
                    name_num: n + 1,
                    defines: st.defines.push((t, name)),
                };
                lemma_define_rounds_markers(info, b0, used, next, (fuel - 1) as nat);
                lemma_replace_text_markers(st.body, t, name);
                lemma_define_lines_markers(st.defines);
                lemma_define_lines_markers(next.defines);
            },
        }
    }
}

proof fn lemma_define_lines_markers(ds: Seq<(Seq<char>, Seq<char>)>)
    ensures
        marker_names(define_lines(ds)) == Seq::<Seq<char>>::empty(),
    decreases ds.len(),
{
    broadcast use lemma_marker_names_add;

    if ds.len() > 0 {
        lemma_define_lines_markers(ds.drop_last());
        lemma_req_markers("#define "@ + ds.last().1 + seq![' '] + super::compress::escape_newlines(ds.last().0) + seq!['\n']);
        assert(Seq::<Seq<char>>::empty() + Seq::<Seq<char>>::empty() =~= Seq::<Seq<char>>::empty());
    }
}

/// Compression with defines keeps the markers of the header and of the
/// body: the define lines hold none, and merging and renaming leave every
/// marker token as it was, in order.
pub proof fn lemma_compressed_markers<I: TokenInfo + ?Sized>(
    info: &I,
    header: Seq<TokenView>,
    body: Seq<TokenView>,
)
    requires
        all_have_text(body),
    ensures
        marker_names(compressed(info, header, body).0) == marker_names(header),
        marker_names(compressed(info, header, body).1) == marker_names(body),
{
    broadcast use lemma_marker_names_add;

    if body.len() > 1 {
        let b0 = merge_rounds(info, body);
        lemma_merge_rounds_markers(info, body);
        if within_limits(b0) {
            let used = texts_of(header + body);
            let st0 = DefineState {
                body: b0,
                removed: Seq::empty(),
                name_num: 0,
                defines: Seq::empty(),
            };
            lemma_define_rounds_markers(info, b0, used, st0, (b0.len() + 1) as nat);
            lemma_define_lines_markers(define_rounds(info, b0, used, st0, (b0.len() + 1) as nat).defines);
            assert(marker_names(header) + Seq::<Seq<char>>::empty() =~= marker_names(header));
        }
    }
}

proof fn lemma_strip_fancy_markers(t: Seq<TokenView>)
    ensures
        marker_names(strip_fancy(t)) == marker_names(t),
    decreases t.len(),
{
    reveal(Seq::filter);
    if t.len() > 0 {
        lemma_strip_fancy_markers(t.drop_last());
        if t.last().1 == TokenStyle::Fancy {
            assert(token_marker(t.last()) =~= Seq::<Seq<char>>::empty());
            assert(marker_names(t.drop_last()) + token_marker(t.last()) =~= marker_names(t.drop_last()));
        } else {
            lemma_marker_names_push(strip_fancy(t.drop_last()), t.last());
        }
    }
}

/// The tokens that a program's text is finished from: the includes and the
/// declarations, without fancy tokens and compressed when the output is not
/// fancy.
pub open spec fn finish_input(
    l: super::lower::CLowerer,
    imports: Seq<String>,
    decls: Seq<MIRDeclaration>,
    fancy: bool,
) -> Seq<TokenView> {
    let h0 = lower_imports_tokens(imports);
    let b0 = decls_tokens(decls, l.indent_level as nat);
    if fancy {
        h0 + b0
    } else {
        let hb = compressed(&l, strip_fancy(h0), strip_fancy(b0));
        hb.0 + hb.1
    }
}

/// Markers keep their order all the way to the program text: the text is
/// finished from [`finish_input`], whose marker tokens, and those of its
/// merged form from which the quine's fragments are cut, name the program's
/// markers in the order in which they stand in the program.
pub proof fn lemma_program_text_markers(
    l: super::lower::CLowerer,
    imports: Seq<String>,
    ds: Seq<MIRDeclaration>,
    fancy: bool,
)
    requires
        forall|i: int| 0 <= i < ds.len() ==> decl_keeps_order(#[trigger] ds[i]),
    ensures
        program_text(l, imports, ds, fancy) == (if fancy || all_have_text(
            strip_fancy(decls_tokens(ds, l.indent_level as nat)),
        ) {
            finish_spec(&l, finish_input(l, imports, ds, fancy))
        } else {
            None
        }),
        (fancy || all_have_text(strip_fancy(decls_tokens(ds, l.indent_level as nat)))) ==> marker_names(
            finish_input(l, imports, ds, fancy),
        ) == decls_markers(ds),
        (fancy || all_have_text(strip_fancy(decls_tokens(ds, l.indent_level as nat)))) && all_have_text(
            finish_input(l, imports, ds, fancy),
        ) ==> marker_names(
            merged_prefix(
                &l,
                finish_input(l, imports, ds, fancy),
                None,
                finish_input(l, imports, ds, fancy).len(),
            ),
        ) == decls_markers(ds),
{
    broadcast use lemma_marker_names_add;

    let indent = l.indent_level as nat;
    let h0 = lower_imports_tokens(imports);
    let b0 = decls_tokens(ds, indent);
    lemma_program_markers(imports, ds, indent);
    lemma_imports_markers(imports);
    let fi = finish_input(l, imports, ds, fancy);
    if !fancy && all_have_text(strip_fancy(b0)) {
        lemma_strip_fancy_markers(h0);
        lemma_strip_fancy_markers(b0);
        lemma_compressed_markers(&l, strip_fancy(h0), strip_fancy(b0));
        assert(Seq::<Seq<char>>::empty() + decls_markers(ds) =~= decls_markers(ds));
    }
    if all_have_text(fi) && (fancy || all_have_text(strip_fancy(b0))) {
        lemma_merged_markers(&l, fi, None, fi.len());
        assert(fi.take(fi.len() as int) =~= fi);
    }
}

} // verus!
