//! The text form of MIR: how a program is shown after parsing or after the
//! MIR passes.

use super::expr::{call_size, expr_size, exprs_size, inner_size, lemma_exprs_size_elems};
use super::eq::lemma_types_view_index;
use super::view::{
    exprs_view, lemma_exprs_view_index, lemma_stmts_size_elems, lemma_stmts_view_index, stmt_size,
    stmts_size, stmts_view, types_view, ArgsV, CallV, ExprV, InnerV, SourceV, StmtV, TypeV,
};
use super::{
    MIRConstant, MIRDeclarationKey, MIRExpression, MIRExpressionInner, MIRFnCall, MIRFnSource,
    MIRFunction, MIRFunctionType, MIRMarker, MIRProgram, MIRStatement, MIRStatic, MIRTypeInner,
    MIRVariable,
};
use crate::util::text::{decimal_digits, decimal_text, i128_to_decimal, push_char, u128_to_decimal};
use vstd::prelude::*;
use vstd::seq::axiom_seq_len_decreases;
use super::interpreter::BinKind;

verus! {

// ---------------------------------------------------------------------------
// Appending text
// ---------------------------------------------------------------------------

/// Appends a string slice.
pub fn push_str(out: &mut String, s: &str)
    ensures
        final(out)@ == old(out)@ + s@,
{
    out.append(s);
}

// ---------------------------------------------------------------------------
// Types
// ---------------------------------------------------------------------------

/// The name of a type as the MIR text shows it.
pub open spec fn type_text(t: TypeV) -> Seq<char>
    decreases t, 0nat,
{
    match t {
        TypeV::UnknownNumber => "number"@,
        TypeV::NotConstructed => "unconstructed"@,
        TypeV::I32 => "i32"@,
        TypeV::U32 => "u32"@,
        TypeV::Bool => "bool"@,
        TypeV::Unit => "()"@,
        TypeV::String => "string"@,
        TypeV::Char => "char"@,
        TypeV::FunctionPtr(a, r) => "fn("@ + types_text(a.args) + (if a.variadic {
            if a.args.len() == 0 {
                "..."@
            } else {
                ", ..."@
            }
        } else {
            Seq::empty()
        }) + ") -> "@ + type_text(*r),
        TypeV::Named(n) => n,
        TypeV::Ref(i) => "&"@ + type_text(*i),
        TypeV::Array(i) => "&["@ + type_text(*i) + "]"@,
        TypeV::ArrayFixed(i, n) => "["@ + type_text(*i) + "; "@ + decimal_digits(n as nat) + "]"@,
    }
}

/// The names of types, separated by ", ".
pub open spec fn types_text(s: Seq<TypeV>) -> Seq<char>
    decreases s, s.len(),
{
    if s.len() == 0 {
        Seq::empty()
    } else if s.len() == 1 {
        type_text(s[0])
    } else {
        proof {
            axiom_seq_len_decreases(s, s.drop_last());
        }
        types_text(s.drop_last()) + ", "@ + type_text(s.last())
    }
}

/// Appends the name of a type.
pub fn write_type(out: &mut String, t: &MIRTypeInner)
    ensures
        final(out)@ == old(out)@ + type_text(t@),
    decreases t,
{
    match t {
        MIRTypeInner::UnknownNumber => push_str(out, "number"),
        MIRTypeInner::NotConstructed => push_str(out, "unconstructed"),
        MIRTypeInner::I32 => push_str(out, "i32"),
        MIRTypeInner::U32 => push_str(out, "u32"),
        MIRTypeInner::Bool => push_str(out, "bool"),
        MIRTypeInner::Unit => push_str(out, "()"),
        MIRTypeInner::String => push_str(out, "string"),
        MIRTypeInner::Char => push_str(out, "char"),
        MIRTypeInner::FunctionPtr(a, r) => {
            let ghost start = out@;
            let ghost tv = types_view(a.args@);
            proof {
                lemma_types_view_index(a.args@);
            }
            push_str(out, "fn(");
            let ghost after_open = out@;
            let mut i: usize = 0;
            while i < a.args.len()
                invariant
                    i <= a.args@.len(),
                    tv == types_view(a.args@),
                    tv.len() == a.args@.len(),
                    forall|j: int| 0 <= j < tv.len() ==> #[trigger] tv[j] == a.args@[j]@,
                    *t == MIRTypeInner::FunctionPtr(*a, *r),
                    out@ == after_open + types_text(tv.take(i as int)),
                decreases a.args@.len() - i,
            {
                assert(decreases_to!(*t => (*t)->FunctionPtr_0));
                assert(decreases_to!((*t)->FunctionPtr_0 => ((*t)->FunctionPtr_0).args));
                assert(decreases_to!(a.args => a.args@));
                assert(decreases_to!(a.args@ => a.args@[i as int]));
                assert(decreases_to!(*t => a.args@[i as int]));
                let ghost before = out@;
                assert(tv.take(i as int + 1).drop_last() =~= tv.take(i as int));
                assert(tv.take(i as int + 1).last() == tv[i as int]);
                if i > 0 {
                    push_str(out, ", ");
                } else {
                    assert(tv.take(1) =~= seq![tv[0]]);
                }
                write_type(out, &a.args[i]);
                i = i + 1;
            }
            assert(tv.take(tv.len() as int) =~= tv);
            if a.variadic {
                if a.args.len() == 0 {
                    push_str(out, "...");
                } else {
                    push_str(out, ", ...");
                }
            }
            push_str(out, ") -> ");
            write_type(out, r);
            proof {
                let v = if a.variadic {
                    if tv.len() == 0 {
                        "..."@
                    } else {
                        ", ..."@
                    }
                } else {
                    Seq::empty()
                };
                assert(out@ =~= start + ("fn("@ + types_text(tv) + v + ") -> "@ + type_text(r@)));
            }
        },
        MIRTypeInner::Named(n) => push_str(out, n.as_str()),
        MIRTypeInner::Ref(i) => {
            push_str(out, "&");
            write_type(out, i);
            assert(out@ =~= old(out)@ + ("&"@ + type_text(i@)));
        },
        MIRTypeInner::Array(i) => {
            push_str(out, "&[");
            write_type(out, i);
            push_str(out, "]");
            assert(out@ =~= old(out)@ + ("&["@ + type_text(i@) + "]"@));
        },
        MIRTypeInner::ArrayFixed(i, n) => {
            push_str(out, "[");
            write_type(out, i);
            push_str(out, "; ");
            let d = u128_to_decimal(*n as u128);
            push_str(out, d.as_str());
            push_str(out, "]");
            assert(out@ =~= old(out)@ + ("["@ + type_text(i@) + "; "@ + decimal_digits(*n as nat)
                + "]"@));
        },
    }
}

/// The name of a type as the MIR text shows it.
pub fn type_string(t: &MIRTypeInner) -> (res: String)
    ensures
        res@ == type_text(t@),
{
    let mut out = String::new();
    write_type(&mut out, t);
    out
}

// ---------------------------------------------------------------------------
// Expressions
// ---------------------------------------------------------------------------

/// The text of an expression: operators are fully parenthesised.
pub open spec fn expr_text(e: ExprV) -> Seq<char>
    decreases e, 1nat,
{
    inner_text(e.inner)
}

/// The text of an expression's inner part.
pub open spec fn inner_text(i: InnerV) -> Seq<char>
    decreases i, 0nat,
{
    match i {
        InnerV::Add(l, r) => "("@ + expr_text(*l) + " + "@ + expr_text(*r) + ")"@,
        InnerV::Sub(l, r) => "("@ + expr_text(*l) + " - "@ + expr_text(*r) + ")"@,
        InnerV::Mul(l, r) => "("@ + expr_text(*l) + " * "@ + expr_text(*r) + ")"@,
        InnerV::Div(l, r) => "("@ + expr_text(*l) + " / "@ + expr_text(*r) + ")"@,
        InnerV::Equal(l, r) => "("@ + expr_text(*l) + " == "@ + expr_text(*r) + ")"@,
        InnerV::NotEqual(l, r) => "("@ + expr_text(*l) + " != "@ + expr_text(*r) + ")"@,
        InnerV::Less(l, r) => "("@ + expr_text(*l) + " < "@ + expr_text(*r) + ")"@,
        InnerV::Greater(l, r) => "("@ + expr_text(*l) + " > "@ + expr_text(*r) + ")"@,
        InnerV::LessEq(l, r) => "("@ + expr_text(*l) + " <= "@ + expr_text(*r) + ")"@,
        InnerV::GreaterEq(l, r) => "("@ + expr_text(*l) + " >= "@ + expr_text(*r) + ")"@,
        InnerV::BoolAnd(l, r) => "("@ + expr_text(*l) + " && "@ + expr_text(*r) + ")"@,
        InnerV::BoolOr(l, r) => "("@ + expr_text(*l) + " || "@ + expr_text(*r) + ")"@,
        InnerV::Index(l, r) => "("@ + expr_text(*l) + "["@ + expr_text(*r) + "])"@,
        InnerV::Number(v) => decimal_text(v as int),
        InnerV::String(x) => "\""@ + x + "\""@,
        InnerV::Char(c) => seq!['\'', c, '\''],
        InnerV::Bool(b) => if b {
            "true"@
        } else {
            "false"@
        },
        InnerV::Unit => "()"@,
        InnerV::Variable(n, idx) => match idx {
            Some(k) => n + " ("@ + decimal_digits(k as nat) + ")"@,
            None => n,
        },
        InnerV::FunctionCall(c) => call_text(*c),
        InnerV::Ref(x) => "(&"@ + expr_text(*x) + ")"@,
        InnerV::Deref(x) => "(*"@ + expr_text(*x) + ")"@,
        InnerV::Neg(x) => "(-"@ + expr_text(*x) + ")"@,
        InnerV::Not(x) => "(!"@ + expr_text(*x) + ")"@,
        InnerV::Member(x, f) => "("@ + expr_text(*x) + "."@ + f + ")"@,
        InnerV::Array(xs) => "["@ + exprs_text(xs) + "]"@,
        InnerV::Ternary(c, t, f) => "("@ + expr_text(*c) + " ? "@ + expr_text(*t) + " : "@
            + expr_text(*f) + ")"@,
        InnerV::Quine => "$quine"@,
        InnerV::QuineLen => "$quineLen"@,
        InnerV::QuineSpace => "$quineSpace"@,
        InnerV::QuineLine => "$quineLine"@,
        InnerV::Binding(l, x, _) => "binding "@ + l.name + " ("@ + expr_text(*x) + ")"@,
    }
}

/// The texts of expressions, separated by ", ".
pub open spec fn exprs_text(s: Seq<ExprV>) -> Seq<char>
    decreases s, s.len(),
{
    if s.len() == 0 {
        Seq::empty()
    } else if s.len() == 1 {
        expr_text(s[0])
    } else {
        proof {
            axiom_seq_len_decreases(s, s.drop_last());
        }
        exprs_text(s.drop_last()) + ", "@ + expr_text(s.last())
    }
}

/// The text of a call: the callee, then the arguments in parentheses.
pub open spec fn call_text(c: CallV) -> Seq<char>
    decreases c, 0nat,
{
    source_text(c.source) + "("@ + exprs_text(c.args) + ")"@
}

/// The text of a callee: its name, or the expression giving it.
pub open spec fn source_text(s: SourceV) -> Seq<char>
    decreases s, 0nat,
{
    match s {
        SourceV::Direct(name, _) => name,
        SourceV::Indirect(e) => expr_text(e),
    }
}

/// Appends "(l op r)".
fn write_binary(out: &mut String, l: &MIRExpression, op: &str, r: &MIRExpression)
    ensures
        final(out)@ == old(out)@ + ("("@ + expr_text(l@) + op@ + expr_text(r@) + ")"@),
    decreases expr_size(*l) + expr_size(*r), 2nat,
{
    push_str(out, "(");
    write_expr(out, l);
    push_str(out, op);
    write_expr(out, r);
    push_str(out, ")");
    assert(out@ =~= old(out)@ + ("("@ + expr_text(l@) + op@ + expr_text(r@) + ")"@));
}

/// Appends "(op x)" around the text of `x`.
fn write_prefixed(out: &mut String, op: &str, x: &MIRExpression)
    ensures
        final(out)@ == old(out)@ + (op@ + expr_text(x@) + ")"@),
    decreases expr_size(*x), 2nat,
{
    push_str(out, op);
    write_expr(out, x);
    push_str(out, ")");
    assert(out@ =~= old(out)@ + (op@ + expr_text(x@) + ")"@));
}

/// Appends the text of an expression.
pub fn write_expr(out: &mut String, e: &MIRExpression)
    ensures
        final(out)@ == old(out)@ + expr_text(e@),
    decreases expr_size(*e), 1nat,
{
    write_inner(out, &e.inner);
}

/// Appends the text of an expression's inner part.
fn write_inner(out: &mut String, i: &MIRExpressionInner)
    ensures
        final(out)@ == old(out)@ + inner_text(i@),
    decreases inner_size(*i), 0nat,
{
    match i {
        MIRExpressionInner::Add(l, r) => write_binary(out, l, " + ", r),
        MIRExpressionInner::Sub(l, r) => write_binary(out, l, " - ", r),
        MIRExpressionInner::Mul(l, r) => write_binary(out, l, " * ", r),
        MIRExpressionInner::Div(l, r) => write_binary(out, l, " / ", r),
        MIRExpressionInner::Equal(l, r) => write_binary(out, l, " == ", r),
        MIRExpressionInner::NotEqual(l, r) => write_binary(out, l, " != ", r),
        MIRExpressionInner::Less(l, r) => write_binary(out, l, " < ", r),
        MIRExpressionInner::Greater(l, r) => write_binary(out, l, " > ", r),
        MIRExpressionInner::LessEq(l, r) => write_binary(out, l, " <= ", r),
        MIRExpressionInner::GreaterEq(l, r) => write_binary(out, l, " >= ", r),
        MIRExpressionInner::BoolAnd(l, r) => write_binary(out, l, " && ", r),
        MIRExpressionInner::BoolOr(l, r) => write_binary(out, l, " || ", r),
        MIRExpressionInner::Index(l, r) => {
            push_str(out, "(");
            write_expr(out, l);
            push_str(out, "[");
            write_expr(out, r);
            push_str(out, "])");
            assert(out@ =~= old(out)@ + ("("@ + expr_text(l@) + "["@ + expr_text(r@) + "])"@));
        },
        MIRExpressionInner::Number(v) => {
            let d = i128_to_decimal(*v);
            push_str(out, d.as_str());
        },
        MIRExpressionInner::String(x) => {
            push_str(out, "\"");
            push_str(out, x.as_str());
            push_str(out, "\"");
            assert(out@ =~= old(out)@ + ("\""@ + x@ + "\""@));
        },
        MIRExpressionInner::Char(c) => {
            push_char(out, '\'');
            push_char(out, *c);
            push_char(out, '\'');
            assert(out@ =~= old(out)@ + seq!['\'', *c, '\'']);
        },
        MIRExpressionInner::Bool(b) => if *b {
            push_str(out, "true")
        } else {
            push_str(out, "false")
        },
        MIRExpressionInner::Unit => push_str(out, "()"),
        MIRExpressionInner::Variable(n, idx) => {
            push_str(out, n.as_str());
            match idx {
                Some(k) => {
                    push_str(out, " (");
                    let d = u128_to_decimal(*k as u128);
                    push_str(out, d.as_str());
                    push_str(out, ")");
                    assert(out@ =~= old(out)@ + (n@ + " ("@ + decimal_digits(*k as nat) + ")"@));
                },
                None => {},
            }
        },
        MIRExpressionInner::FunctionCall(c) => write_call(out, c),
        MIRExpressionInner::Ref(x) => write_prefixed(out, "(&", x),
        MIRExpressionInner::Deref(x) => write_prefixed(out, "(*", x),
        MIRExpressionInner::Neg(x) => write_prefixed(out, "(-", x),
        MIRExpressionInner::Not(x) => write_prefixed(out, "(!", x),
        MIRExpressionInner::Member(x, f) => {
            push_str(out, "(");
            write_expr(out, x);
            push_str(out, ".");
            push_str(out, f.as_str());
            push_str(out, ")");
            assert(out@ =~= old(out)@ + ("("@ + expr_text(x@) + "."@ + f@ + ")"@));
        },
        MIRExpressionInner::Array(xs) => {
            push_str(out, "[");
            write_exprs(out, xs);
            push_str(out, "]");
            assert(out@ =~= old(out)@ + ("["@ + exprs_text(exprs_view(xs@)) + "]"@));
        },
        MIRExpressionInner::Ternary(c, t, f) => {
            push_str(out, "(");
            write_expr(out, c);
            push_str(out, " ? ");
            write_expr(out, t);
            push_str(out, " : ");
            write_expr(out, f);
            push_str(out, ")");
            assert(out@ =~= old(out)@ + ("("@ + expr_text(c@) + " ? "@ + expr_text(t@) + " : "@
                + expr_text(f@) + ")"@));
        },
        MIRExpressionInner::Quine => push_str(out, "$quine"),
        MIRExpressionInner::QuineLen => push_str(out, "$quineLen"),
        MIRExpressionInner::QuineSpace => push_str(out, "$quineSpace"),
        MIRExpressionInner::QuineLine => push_str(out, "$quineLine"),
        MIRExpressionInner::Binding(l, x, _) => {
            push_str(out, "binding ");
            push_str(out, l.name.as_str());
            push_str(out, " (");
            write_expr(out, x);
            push_str(out, ")");
            assert(out@ =~= old(out)@ + ("binding "@ + l.name@ + " ("@ + expr_text(x@) + ")"@));
        },
    }
}

/// Appends the texts of expressions, separated by ", ".
fn write_exprs(out: &mut String, v: &Vec<MIRExpression>)
    ensures
        final(out)@ == old(out)@ + exprs_text(exprs_view(v@)),
    decreases exprs_size(v@), 0nat,
{
    let ghost xs = exprs_view(v@);
    proof {
        lemma_exprs_view_index(v@);
        lemma_exprs_size_elems(v@);
        assert(xs.take(0) =~= Seq::<ExprV>::empty());
    }
    let mut i: usize = 0;
    while i < v.len()
        invariant
            i <= v@.len(),
            xs == exprs_view(v@),
            xs.len() == v@.len(),
            forall|j: int| 0 <= j < xs.len() ==> #[trigger] xs[j] == v@[j]@,
            forall|j: int| 0 <= j < v@.len() ==> expr_size(#[trigger] v@[j]) < exprs_size(v@),
            out@ == old(out)@ + exprs_text(xs.take(i as int)),
        decreases v@.len() - i,
    {
        assert(xs.take(i as int + 1).drop_last() =~= xs.take(i as int));
        assert(xs.take(i as int + 1).last() == xs[i as int]);
        if i > 0 {
            push_str(out, ", ");
        } else {
            assert(xs.take(1) =~= seq![xs[0]]);
        }
        write_expr(out, &v[i]);
        i = i + 1;
    }
    assert(xs.take(xs.len() as int) =~= xs);
}

/// Appends the text of a call.
fn write_call(out: &mut String, c: &MIRFnCall)
    ensures
        final(out)@ == old(out)@ + call_text(c@),
    decreases call_size(*c), 0nat,
{
    match &c.source {
        MIRFnSource::Direct(name, _) => push_str(out, name.as_str()),
        MIRFnSource::Indirect(e) => write_expr(out, e),
    }
    push_str(out, "(");
    write_exprs(out, &c.args);
    push_str(out, ")");
    assert(out@ =~= old(out)@ + (source_text(c.source@) + "("@ + exprs_text(exprs_view(c.args@)) + ")"@));
}

impl MIRExpression {
    /// The text of the expression.
    pub fn to_text(&self) -> (res: String)
        ensures
            res@ == expr_text(self@),
    {
        let mut out = String::new();
        write_expr(&mut out, self);
        out
    }
}

// ---------------------------------------------------------------------------
// Lines and indentation
// ---------------------------------------------------------------------------

/// The pieces of a text between its newlines: one more than it has newlines.
pub open spec fn line_pieces(t: Seq<char>) -> Seq<Seq<char>>
    decreases t.len(),
{
    if t.len() == 0 {
        seq![Seq::empty()]
    } else {
        let p = line_pieces(t.drop_last());
        if t.last() == '\n' {
            p.push(Seq::empty())
        } else {
            p.update(p.len() - 1, p.last().push(t.last()))
        }
    }
}

/// A text has at least one piece.
pub proof fn lemma_line_pieces_len(t: Seq<char>)
    ensures
        line_pieces(t).len() >= 1,
    decreases t.len(),
{
    if t.len() > 0 {
        lemma_line_pieces_len(t.drop_last());
    }
}

/// A line without the carriage return of its "\r\n" ending.
pub open spec fn strip_cr(l: Seq<char>) -> Seq<char> {
    if l.len() > 0 && l.last() == '\r' {
        l.drop_last()
    } else {
        l
    }
}

/// The lines of a text, as Rust's `str::lines` gives them: split at "\n"
/// and "\r\n", where a final line ending adds no empty line.
pub open spec fn text_lines(t: Seq<char>) -> Seq<Seq<char>> {
    let p = line_pieces(t);
    let ended = Seq::new((p.len() - 1) as nat, |i: int| strip_cr(p[i]));
    if p.last().len() == 0 {
        ended
    } else {
        ended.push(p.last())
    }
}

/// Lines, each indented by four spaces, separated by newlines.
pub open spec fn indent_join(ls: Seq<Seq<char>>) -> Seq<char>
    decreases ls.len(),
{
    if ls.len() == 0 {
        Seq::empty()
    } else if ls.len() == 1 {
        "    "@ + ls[0]
    } else {
        indent_join(ls.drop_last()) + "\n"@ + "    "@ + ls.last()
    }
}

/// A text with each of its lines indented by four spaces.
pub open spec fn indented(t: Seq<char>) -> Seq<char> {
    indent_join(text_lines(t))
}

/// The texts of strings.
pub open spec fn string_views(s: Seq<String>) -> Seq<Seq<char>> {
    s.map_values(|x: String| x@)
}

/// Appends the first `end` characters of a string slice.
fn push_prefix(out: &mut String, s: &str, end: usize)
    requires
        end <= s@.len(),
    ensures
        final(out)@ == old(out)@ + s@.take(end as int),
{
    let mut i: usize = 0;
    while i < end
        invariant
            i <= end,
            end <= s@.len(),
            out@ == old(out)@ + s@.take(i as int),
        decreases end - i,
    {
        let c = s.get_char(i);
        push_char(out, c);
        assert(s@.take(i as int + 1) =~= s@.take(i as int).push(c));
        i = i + 1;
    }
}

/// Appends a line of the indented text: a newline before all but the first.
fn push_line(out: &mut String, line: &str, end: usize, first: bool)
    requires
        end <= line@.len(),
    ensures
        final(out)@ == old(out)@ + (if first {
            Seq::empty()
        } else {
            "\n"@
        }) + "    "@ + line@.take(end as int),
{
    if !first {
        push_str(out, "\n");
    }
    push_str(out, "    ");
    push_prefix(out, line, end);
}

/// Appends a text with each of its lines indented by four spaces.
pub fn write_indented(out: &mut String, t: &str)
    ensures
        final(out)@ == old(out)@ + indented(t@),
{
    let n = t.unicode_len();
    let mut pieces: Vec<String> = Vec::new();
    let mut cur = String::new();
    let mut i: usize = 0;
    assert(t@.take(0) =~= Seq::<char>::empty());
    while i < n
        invariant
            i <= n,
            n == t@.len(),
            string_views(pieces@).push(cur@) == line_pieces(t@.take(i as int)),
        decreases n - i,
    {
        let c = t.get_char(i);
        assert(t@.take(i as int + 1).drop_last() =~= t@.take(i as int));
        assert(t@.take(i as int + 1).last() == c);
        if c == '\n' {
            let done = cur;
            pieces.push(done);
            cur = String::new();
            assert(string_views(pieces@).push(cur@) =~= line_pieces(t@.take(i as int)).push(
                Seq::empty(),
            ));
        } else {
            let ghost before = string_views(pieces@).push(cur@);
            push_char(&mut cur, c);
            assert(string_views(pieces@).push(cur@) =~= before.update(
                before.len() - 1,
                before.last().push(c),
            ));
        }
        i = i + 1;
    }
    assert(t@.take(n as int) =~= t@);
    let ghost p = line_pieces(t@);
    let ghost ls = text_lines(t@);
    let m = pieces.len();
    proof {
        lemma_line_pieces_len(t@);
        assert(p.len() == m + 1);
        assert(ls.take(0) =~= Seq::<Seq<char>>::empty());
        assert forall|j: int| 0 <= j < m implies #[trigger] ls[j] == strip_cr(pieces@[j]@) by {
            assert(p[j] == string_views(pieces@)[j]);
        }
    }
    let mut j: usize = 0;
    while j < m
        invariant
            j <= m,
            m == pieces@.len(),
            p == line_pieces(t@),
            ls == text_lines(t@),
            p.len() == m + 1,
            p.last() == cur@,
            forall|k: int| 0 <= k < m ==> #[trigger] ls[k] == strip_cr(pieces@[k]@),
            ls.len() >= m,
            out@ == old(out)@ + indent_join(ls.take(j as int)),
        decreases m - j,
    {
        let piece = &pieces[j];
        let len = piece.unicode_len();
        let end = if len > 0 && piece.as_str().get_char(len - 1) == '\r' {
            len - 1
        } else {
            len
        };
        assert(piece@.take(end as int) == strip_cr(piece@)) by {
            if len > 0 && piece@.last() == '\r' {
                assert(piece@.take(end as int) =~= piece@.drop_last());
            } else {
                assert(piece@.take(end as int) =~= piece@);
            }
        }
        push_line(out, piece.as_str(), end, j == 0);
        proof {
            assert(ls.take(j as int + 1).drop_last() =~= ls.take(j as int));
            assert(ls.take(j as int + 1).last() == ls[j as int]);
            if j == 0 {
                assert(ls.take(1) =~= seq![ls[0]]);
            }
        }
        j = j + 1;
    }
    let clen = cur.unicode_len();
    if clen > 0 {
        push_line(out, cur.as_str(), clen, m == 0);
        proof {
            assert(ls.len() == m + 1);
            assert(ls[m as int] == cur@);
            assert(ls.take(m as int + 1).drop_last() =~= ls.take(m as int));
            assert(cur@.take(clen as int) =~= cur@);
            if m == 0 {
                assert(ls.take(1) =~= seq![ls[0]]);
            }
            assert(ls.take(m as int + 1) =~= ls);
        }
    } else {
        proof {
            assert(ls.len() == m);
            assert(ls.take(m as int) =~= ls);
        }
    }
}

// ---------------------------------------------------------------------------
// Statements
// ---------------------------------------------------------------------------

/// The index of a variable, as " (index)", if it has one.
pub open spec fn idx_text(idx: Option<usize>) -> Seq<char> {
    match idx {
        Some(k) => " ("@ + decimal_digits(k as nat) + ")"@,
        None => Seq::empty(),
    }
}

/// The text of a statement; nested blocks are indented by four spaces.
pub open spec fn stmt_text(s: StmtV) -> Seq<char>
    decreases s, 0nat,
{
    match s {
        StmtV::CreateVariable { var, value, .. } => "let "@ + var.name + idx_text(var.var_idx)
            + ": "@ + type_text(var.ty.ty) + (match value {
            Some(v) => " = "@ + expr_text(v) + ";"@,
            None => ";"@,
        }),
        StmtV::DropVariable(n, k, _) => "drop "@ + n + " ("@ + decimal_digits(k as nat) + ");"@,
        StmtV::SetVariable { place, value, .. } => expr_text(place) + " = "@ + expr_text(value) + ";"@,
        StmtV::AddAssign { place, value, .. } => expr_text(place) + " += "@ + expr_text(value) + ";"@,
        StmtV::SubAssign { place, value, .. } => expr_text(place) + " -= "@ + expr_text(value) + ";"@,
        StmtV::MulAssign { place, value, .. } => expr_text(place) + " *= "@ + expr_text(value) + ";"@,
        StmtV::DivAssign { place, value, .. } => expr_text(place) + " /= "@ + expr_text(value) + ";"@,
        StmtV::IncrementVariable { place, .. } => expr_text(place) + "++;"@,
        StmtV::DecrementVariable { place, .. } => expr_text(place) + "--;"@,
        StmtV::FunctionCall(c) => call_text(c),
        StmtV::Return { expr, .. } => "return"@ + (match expr {
            Some(e) => " "@ + expr_text(e),
            None => Seq::empty(),
        }) + ";"@,
        StmtV::Label { name, .. } => "label "@ + name + ":"@,
        StmtV::Goto { name, .. } => "goto "@ + name + ";"@,
        StmtV::GotoNotEqual { name, condition, .. } => "goto_ne("@ + expr_text(condition) + ") "@
            + name + ";"@,
        StmtV::IfStatement { condition, on_true, on_false, .. } => "if "@ + expr_text(condition)
            + " {\n"@ + block_text(on_true) + "}"@ + (if on_false.len() > 0 {
            " else {\n"@ + block_text(on_false) + "}"@
        } else {
            Seq::empty()
        }),
        StmtV::LoopStatement { condition, body, iterate, .. } => (match condition {
            Some(c) => "while "@ + expr_text(c) + " {\n"@,
            None => "loop {\n"@,
        }) + block_text(body) + (if iterate.len() > 0 {
            "} iterate {\n"@ + block_text(iterate)
        } else {
            Seq::empty()
        }) + "}"@,
        StmtV::ScopeStatement { body, .. } => "{\n"@ + block_text(body) + "}"@,
        StmtV::ContinueStatement { .. } => "continue;"@,
        StmtV::BreakStatement { .. } => "break;"@,
        StmtV::MarkerStatement { name, .. } => "marker "@ + name + ";"@,
    }
}

/// The text of a block: each statement indented, on lines of its own.
pub open spec fn block_text(b: Seq<StmtV>) -> Seq<char>
    decreases b, b.len(),
{
    if b.len() == 0 {
        Seq::empty()
    } else {
        proof {
            axiom_seq_len_decreases(b, b.drop_last());
        }
        block_text(b.drop_last()) + indented(stmt_text(b.last())) + "\n"@
    }
}

/// Appends the text of a variable's creation.
#[verifier::spinoff_prover]
fn write_create(out: &mut String, s: &MIRStatement)
    requires
        *s is CreateVariable,
    ensures
        final(out)@ == old(out)@ + stmt_text(s@),
    decreases stmt_size(*s), 1nat,
{
    match s {
        MIRStatement::CreateVariable { var, value, .. } => {
            push_str(out, "let ");
            push_str(out, var.name.as_str());
            match var.var_idx {
                Some(k) => {
                    push_str(out, " (");
                    let d = u128_to_decimal(k as u128);
                    push_str(out, d.as_str());
                    push_str(out, ")");
                },
                None => {},
            }
            let ghost mid = out@;
            push_str(out, ": ");
            write_type(out, &var.ty.ty);
            match value {
                Some(v) => {
                    push_str(out, " = ");
                    write_expr(out, v);
                    push_str(out, ";");
                },
                None => push_str(out, ";"),
            }
            proof {
                let tail = match value {
                    Some(v) => " = "@ + expr_text(v@) + ";"@,
                    None => ";"@,
                };
                assert(mid =~= old(out)@ + ("let "@ + var.name@ + idx_text(var.var_idx)));
                assert(out@ =~= old(out)@ + ("let "@ + var.name@ + idx_text(var.var_idx) + ": "@
                    + type_text(var.ty.ty@) + tail));
            }
        },
        _ => {
            proof {
                assert(false);
            }
        },
    }
}

/// Appends the text of an if statement.
#[verifier::spinoff_prover]
fn write_if(out: &mut String, s: &MIRStatement)
    requires
        *s is IfStatement,
    ensures
        final(out)@ == old(out)@ + stmt_text(s@),
    decreases stmt_size(*s), 1nat,
{
    match s {
        MIRStatement::IfStatement { condition, on_true, on_false, .. } => {
            proof {
                lemma_stmts_size_elems(on_true@);
                lemma_stmts_size_elems(on_false@);
            }
            push_str(out, "if ");
            write_expr(out, condition);
            push_str(out, " {\n");
            write_block(out, on_true);
            push_str(out, "}");
            let ghost mid = out@;
            if on_false.len() > 0 {
                push_str(out, " else {\n");
                write_block(out, on_false);
                push_str(out, "}");
            }
            proof {
                lemma_stmts_view_index(on_false@);
                let tail = if stmts_view(on_false@).len() > 0 {
                    " else {\n"@ + block_text(stmts_view(on_false@)) + "}"@
                } else {
                    Seq::empty()
                };
                assert(out@ =~= mid + tail);
                assert(out@ =~= old(out)@ + ("if "@ + expr_text(condition@) + " {\n"@ + block_text(
                    stmts_view(on_true@),
                ) + "}"@ + tail));
            }
        },
        _ => {
            proof {
                assert(false);
            }
        },
    }
}

/// Appends the text of a loop.
#[verifier::spinoff_prover]
fn write_loop(out: &mut String, s: &MIRStatement)
    requires
        *s is LoopStatement,
    ensures
        final(out)@ == old(out)@ + stmt_text(s@),
    decreases stmt_size(*s), 1nat,
{
    match s {
        MIRStatement::LoopStatement { condition, body, iterate, .. } => {
            proof {
                lemma_stmts_size_elems(body@);
                lemma_stmts_size_elems(iterate@);
            }
            match condition {
                Some(c) => {
                    push_str(out, "while ");
                    write_expr(out, c);
                    push_str(out, " {\n");
                },
                None => push_str(out, "loop {\n"),
            }
            let ghost head = out@;
            write_block(out, body);
            let ghost mid = out@;
            if iterate.len() > 0 {
                push_str(out, "} iterate {\n");
                write_block(out, iterate);
            }
            let ghost mid2 = out@;
            push_str(out, "}");
            proof {
                lemma_stmts_view_index(iterate@);
                let opening = match condition {
                    Some(c) => "while "@ + expr_text(c@) + " {\n"@,
                    None => "loop {\n"@,
                };
                let it = if stmts_view(iterate@).len() > 0 {
                    "} iterate {\n"@ + block_text(stmts_view(iterate@))
                } else {
                    Seq::empty()
                };
                assert(head =~= old(out)@ + opening);
                assert(mid2 =~= mid + it);
                assert(out@ =~= old(out)@ + (opening + block_text(stmts_view(body@)) + it + "}"@));
            }
        },
        _ => {
            proof {
                assert(false);
            }
        },
    }
}

/// Appends the text of a statement.
#[verifier::spinoff_prover]
pub fn write_stmt(out: &mut String, s: &MIRStatement)
    ensures
        final(out)@ == old(out)@ + stmt_text(s@),
    decreases stmt_size(*s), 2nat,
{
    match s {
        MIRStatement::CreateVariable { .. } => write_create(out, s),
        MIRStatement::DropVariable(n, k, _) => {
            push_str(out, "drop ");
            push_str(out, n.as_str());
            push_str(out, " (");
            let d = u128_to_decimal(*k as u128);
            push_str(out, d.as_str());
            push_str(out, ");");
            assert(out@ =~= old(out)@ + ("drop "@ + n@ + " ("@ + decimal_digits(*k as nat) + ");"@));
        },
        MIRStatement::SetVariable { place, value, .. } => {
            write_expr(out, place);
            push_str(out, " = ");
            write_expr(out, value);
            push_str(out, ";");
            assert(out@ =~= old(out)@ + (expr_text(place@) + " = "@ + expr_text(value@) + ";"@));
        },
        MIRStatement::AddAssign { place, value, .. } => {
            write_expr(out, place);
            push_str(out, " += ");
            write_expr(out, value);
            push_str(out, ";");
            assert(out@ =~= old(out)@ + (expr_text(place@) + " += "@ + expr_text(value@) + ";"@));
        },
        MIRStatement::SubAssign { place, value, .. } => {
            write_expr(out, place);
            push_str(out, " -= ");
            write_expr(out, value);
            push_str(out, ";");
            assert(out@ =~= old(out)@ + (expr_text(place@) + " -= "@ + expr_text(value@) + ";"@));
        },
        MIRStatement::MulAssign { place, value, .. } => {
            write_expr(out, place);
            push_str(out, " *= ");
            write_expr(out, value);
            push_str(out, ";");
            assert(out@ =~= old(out)@ + (expr_text(place@) + " *= "@ + expr_text(value@) + ";"@));
        },
        MIRStatement::DivAssign { place, value, .. } => {
            write_expr(out, place);
            push_str(out, " /= ");
            write_expr(out, value);
            push_str(out, ";");
            assert(out@ =~= old(out)@ + (expr_text(place@) + " /= "@ + expr_text(value@) + ";"@));
        },
        MIRStatement::IncrementVariable { place, .. } => {
            write_expr(out, place);
            push_str(out, "++;");
        },
        MIRStatement::DecrementVariable { place, .. } => {
            write_expr(out, place);
            push_str(out, "--;");
        },
        MIRStatement::FunctionCall(c) => write_call(out, c),
        MIRStatement::Return { expr, .. } => {
            push_str(out, "return");
            match expr {
                Some(e) => {
                    push_str(out, " ");
                    write_expr(out, e);
                    assert(out@ =~= old(out)@ + "return"@ + (" "@ + expr_text(e@)));
                },
                None => {},
            }
            push_str(out, ";");
            proof {
                let mid = match expr {
                    Some(e) => " "@ + expr_text(e@),
                    None => Seq::empty(),
                };
                assert(out@ =~= old(out)@ + ("return"@ + mid + ";"@));
            }
        },
        MIRStatement::Label { name, .. } => {
            push_str(out, "label ");
            push_str(out, name.as_str());
            push_str(out, ":");
            assert(out@ =~= old(out)@ + ("label "@ + name@ + ":"@));
        },
        MIRStatement::Goto { name, .. } => {
            push_str(out, "goto ");
            push_str(out, name.as_str());
            push_str(out, ";");
            assert(out@ =~= old(out)@ + ("goto "@ + name@ + ";"@));
        },
        MIRStatement::GotoNotEqual { name, condition, .. } => {
            push_str(out, "goto_ne(");
            write_expr(out, condition);
            push_str(out, ") ");
            push_str(out, name.as_str());
            push_str(out, ";");
            assert(out@ =~= old(out)@ + ("goto_ne("@ + expr_text(condition@) + ") "@ + name@ + ";"@));
        },
        MIRStatement::IfStatement { .. } => write_if(out, s),
        MIRStatement::LoopStatement { .. } => write_loop(out, s),
        MIRStatement::ScopeStatement { body, .. } => {
            proof {
                lemma_stmts_size_elems(body@);
            }
            push_str(out, "{\n");
            write_block(out, body);
            push_str(out, "}");
            assert(out@ =~= old(out)@ + ("{\n"@ + block_text(stmts_view(body@)) + "}"@));
        },
        MIRStatement::ContinueStatement { .. } => push_str(out, "continue;"),
        MIRStatement::BreakStatement { .. } => push_str(out, "break;"),
        MIRStatement::MarkerStatement { name, .. } => {
            push_str(out, "marker ");
            push_str(out, name.as_str());
            push_str(out, ";");
            assert(out@ =~= old(out)@ + ("marker "@ + name@ + ";"@));
        },
    }
}

/// Appends the text of a block (see [`block_text`]).
pub fn write_block(out: &mut String, b: &Vec<MIRStatement>)
    ensures
        final(out)@ == old(out)@ + block_text(stmts_view(b@)),
    decreases stmts_size(b@), 1nat,
{
    let ghost bv = stmts_view(b@);
    proof {
        lemma_stmts_view_index(b@);
        lemma_stmts_size_elems(b@);
        assert(bv.take(0) =~= Seq::<StmtV>::empty());
    }
    let mut i: usize = 0;
    while i < b.len()
        invariant
            i <= b@.len(),
            bv == stmts_view(b@),
            bv.len() == b@.len(),
            forall|j: int| 0 <= j < bv.len() ==> #[trigger] bv[j] == b@[j]@,
            forall|j: int| 0 <= j < b@.len() ==> stmt_size(#[trigger] b@[j]) < stmts_size(b@),
            out@ == old(out)@ + block_text(bv.take(i as int)),
        decreases b@.len() - i,
    {
        assert(bv.take(i as int + 1).drop_last() =~= bv.take(i as int));
        assert(bv.take(i as int + 1).last() == bv[i as int]);
        let mut t = String::new();
        write_stmt(&mut t, &b[i]);
        write_indented(out, t.as_str());
        push_str(out, "\n");
        i = i + 1;
    }
    assert(bv.take(bv.len() as int) =~= bv);
}

impl MIRStatement {
    /// The text of the statement.
    pub fn to_text(&self) -> (res: String)
        ensures
            res@ == stmt_text(self@),
    {
        let mut out = String::new();
        write_stmt(&mut out, self);
        out
    }
}

// ---------------------------------------------------------------------------
// Declarations and programs
// ---------------------------------------------------------------------------

/// What Rust's `Debug` formatting makes of a string: the string quoted, with
/// special characters escaped.
pub uninterp spec fn str_debug(s: Seq<char>) -> Seq<char>;

/// The string quoted and escaped as Rust's `Debug` formatting of `str` does
/// (calls `format!` with `{:?}`). The result is named, not stated: it is
/// the text `Debug` gives for the string's characters.
#[verifier::external_body]
fn debug_quoted(s: &str) -> (res: String)
    ensures
        res@ == str_debug(s@),
{
    format!("{:?}", s)
}

/// The text of a function argument: its name, its index if it has one, and
/// its type.
pub open spec fn arg_text(v: MIRVariable) -> Seq<char> {
    v.name@ + idx_text(v.var_idx) + ": "@ + type_text(v.ty.ty@)
}

/// The texts of function arguments, separated by ", ".
pub open spec fn args_text(s: Seq<MIRVariable>) -> Seq<char>
    decreases s.len(),
{
    if s.len() == 0 {
        Seq::empty()
    } else if s.len() == 1 {
        arg_text(s[0])
    } else {
        args_text(s.drop_last()) + ", "@ + arg_text(s.last())
    }
}

/// The keyword that shows how a function is used.
pub open spec fn fn_type_text(t: MIRFunctionType) -> Seq<char> {
    match t {
        MIRFunctionType::Export => Seq::empty(),
        MIRFunctionType::Inline => "inline "@,
        MIRFunctionType::Helper => "helper "@,
        MIRFunctionType::Extern => "extern "@,
    }
}

/// The text of a function: its signature, then its body as a block, or for
/// an external function where it comes from.
pub open spec fn function_text(f: MIRFunction) -> Seq<char> {
    signature_text(f) + body_text(f)
}

/// The signature of a function: how it is used, its name, its arguments and
/// its return type.
pub open spec fn signature_text(f: MIRFunction) -> Seq<char> {
    fn_type_text(f.fn_type) + "function "@ + f.name@ + "("@ + args_text(f.args@) + (if f.args_ty.variadic {
        (if f.args@.len() > 0 {
            ", "@
        } else {
            Seq::empty()
        }) + "..."@
    } else {
        Seq::empty()
    }) + ") : "@ + type_text(f.ret_ty.ty@)
}

/// The end of a function's text: where an external function comes from, or
/// the body of any other function.
pub open spec fn body_text(f: MIRFunction) -> Seq<char> {
    if f.fn_type == MIRFunctionType::Extern {
        match f.extern_import {
            Some(i) => " from "@ + str_debug(i@) + ";\n"@,
            None => ";\n"@,
        }
    } else {
        " {\n"@ + block_text(stmts_view(f.body@)) + "}"@
    }
}

/// The text of a constant.
pub open spec fn constant_text(c: MIRConstant) -> Seq<char> {
    "const "@ + c.name@ + ": "@ + type_text(c.ty.ty@) + " = "@ + expr_text(c.value@) + ";"@
}

/// The text of a static.
pub open spec fn static_text(c: MIRStatic) -> Seq<char> {
    "static "@ + c.name@ + ": "@ + type_text(c.ty.ty@) + " = "@ + expr_text(c.value@) + ";"@
}

/// The text of a marker.
pub open spec fn marker_text(m: MIRMarker) -> Seq<char> {
    "marker "@ + m.name@ + ";"@
}

/// The text of the item a declaration names.
pub open spec fn decl_text(p: MIRProgram, k: MIRDeclarationKey) -> Seq<char> {
    match k {
        MIRDeclarationKey::Constant(c) => constant_text(p.constants@[c.0 as int]),
        MIRDeclarationKey::Static(c) => static_text(p.statics@[c.0 as int]),
        MIRDeclarationKey::Function(c) => function_text(p.functions@[c.0 as int]),
        MIRDeclarationKey::Marker(c) => marker_text(p.markers@[c.0 as int]),
    }
}

/// The text of declarations, each followed by a newline.
pub open spec fn decls_text(p: MIRProgram, ks: Seq<MIRDeclarationKey>) -> Seq<char>
    decreases ks.len(),
{
    if ks.len() == 0 {
        Seq::empty()
    } else {
        decls_text(p, ks.drop_last()) + decl_text(p, ks.last()) + "\n"@
    }
}

/// The text of a program: its declarations in order.
pub open spec fn program_text(p: MIRProgram) -> Seq<char> {
    decls_text(p, p.decls@)
}

/// Appends the texts of function arguments.
fn write_args(out: &mut String, args: &Vec<MIRVariable>)
    ensures
        final(out)@ == old(out)@ + args_text(args@),
{
    let mut i: usize = 0;
    assert(args@.take(0) =~= Seq::<MIRVariable>::empty());
    while i < args.len()
        invariant
            i <= args@.len(),
            out@ == old(out)@ + args_text(args@.take(i as int)),
        decreases args@.len() - i,
    {
        let ghost before = out@;
        assert(args@.take(i as int + 1).drop_last() =~= args@.take(i as int));
        assert(args@.take(i as int + 1).last() == args@[i as int]);
        if i > 0 {
            push_str(out, ", ");
        } else {
            assert(args@.take(1) =~= seq![args@[0]]);
        }
        let ghost mid = out@;
        let v = &args[i];
        push_str(out, v.name.as_str());
        match v.var_idx {
            Some(k) => {
                push_str(out, " (");
                let d = u128_to_decimal(k as u128);
                push_str(out, d.as_str());
                push_str(out, ")");
            },
            None => {},
        }
        push_str(out, ": ");
        write_type(out, &v.ty.ty);
        assert(out@ =~= mid + arg_text(*v));
        i = i + 1;
    }
    assert(args@.take(args@.len() as int) =~= args@);
}

/// Appends the signature of a function.
#[verifier::spinoff_prover]
fn write_signature(out: &mut String, f: &MIRFunction)
    ensures
        final(out)@ == old(out)@ + signature_text(*f),
{
    match f.fn_type {
        MIRFunctionType::Export => {},
        MIRFunctionType::Inline => push_str(out, "inline "),
        MIRFunctionType::Helper => push_str(out, "helper "),
        MIRFunctionType::Extern => push_str(out, "extern "),
    }
    let ghost a = out@;
    push_str(out, "function ");
    push_str(out, f.name.as_str());
    push_str(out, "(");
    write_args(out, &f.args);
    let ghost b = out@;
    if f.args_ty.variadic {
        if f.args.len() > 0 {
            push_str(out, ", ");
        }
        push_str(out, "...");
    }
    let ghost c = out@;
    push_str(out, ") : ");
    write_type(out, &f.ret_ty.ty);
    proof {
        let v = if f.args_ty.variadic {
            (if f.args@.len() > 0 {
                ", "@
            } else {
                Seq::empty()
            }) + "..."@
        } else {
            Seq::empty()
        };
        assert(a =~= old(out)@ + fn_type_text(f.fn_type));
        assert(b =~= a + ("function "@ + f.name@ + "("@ + args_text(f.args@)));
        assert(c =~= b + v);
        assert(out@ =~= old(out)@ + signature_text(*f));
    }
}

/// Appends the end of a function's text (see [`body_text`]).
#[verifier::spinoff_prover]
fn write_fn_body(out: &mut String, f: &MIRFunction)
    ensures
        final(out)@ == old(out)@ + body_text(*f),
{
    let is_extern = matches!(f.fn_type, MIRFunctionType::Extern);
    if is_extern {
        match &f.extern_import {
            Some(i) => {
                push_str(out, " from ");
                let q = debug_quoted(i.as_str());
                push_str(out, q.as_str());
                push_str(out, ";\n");
                assert(out@ =~= old(out)@ + (" from "@ + str_debug(i@) + ";\n"@));
            },
            None => push_str(out, ";\n"),
        }
    } else {
        push_str(out, " {\n");
        write_block(out, &f.body);
        push_str(out, "}");
        assert(out@ =~= old(out)@ + (" {\n"@ + block_text(stmts_view(f.body@)) + "}"@));
    }
}

/// Appends the text of a function.
fn write_function(out: &mut String, f: &MIRFunction)
    ensures
        final(out)@ == old(out)@ + function_text(*f),
{
    write_signature(out, f);
    write_fn_body(out, f);
    assert(out@ =~= old(out)@ + function_text(*f));
}

/// Appends the text of a constant.
fn write_constant(out: &mut String, c: &MIRConstant)
    ensures
        final(out)@ == old(out)@ + constant_text(*c),
{
    push_str(out, "const ");
    push_str(out, c.name.as_str());
    push_str(out, ": ");
    write_type(out, &c.ty.ty);
    push_str(out, " = ");
    write_expr(out, &c.value);
    push_str(out, ";");
    assert(out@ =~= old(out)@ + constant_text(*c));
}

/// Appends the text of a static.
fn write_static(out: &mut String, c: &MIRStatic)
    ensures
        final(out)@ == old(out)@ + static_text(*c),
{
    push_str(out, "static ");
    push_str(out, c.name.as_str());
    push_str(out, ": ");
    write_type(out, &c.ty.ty);
    push_str(out, " = ");
    write_expr(out, &c.value);
    push_str(out, ";");
    assert(out@ =~= old(out)@ + static_text(*c));
}

impl MIRFunction {
    /// The text of the function.
    pub fn to_text(&self) -> (res: String)
        ensures
            res@ == function_text(*self),
    {
        let mut out = String::new();
        write_function(&mut out, self);
        out
    }
}

impl MIRConstant {
    /// The text of the constant.
    pub fn to_text(&self) -> (res: String)
        ensures
            res@ == constant_text(*self),
    {
        let mut out = String::new();
        write_constant(&mut out, self);
        out
    }
}

impl MIRStatic {
    /// The text of the static.
    pub fn to_text(&self) -> (res: String)
        ensures
            res@ == static_text(*self),
    {
        let mut out = String::new();
        write_static(&mut out, self);
        out
    }
}

impl MIRMarker {
    /// The text of the marker.
    pub fn to_text(&self) -> (res: String)
        ensures
            res@ == marker_text(*self),
    {
        let mut out = String::new();
        push_str(&mut out, "marker ");
        push_str(&mut out, self.name.as_str());
        push_str(&mut out, ";");
        assert(out@ =~= marker_text(*self));
        out
    }
}

impl MIRProgram {
    /// The text of the program: each declaration, in order, on lines of its own.
    pub fn to_text(&self) -> (res: String)
        requires
            self.wf(),
        ensures
            res@ == program_text(*self),
    {
        let mut out = String::new();
        let mut i: usize = 0;
        assert(self.decls@.take(0) =~= Seq::<MIRDeclarationKey>::empty());
        while i < self.decls.len()
            invariant
                i <= self.decls@.len(),
                self.wf(),
                out@ == decls_text(*self, self.decls@.take(i as int)),
            decreases self.decls@.len() - i,
        {
            assert(self.decls@.take(i as int + 1).drop_last() =~= self.decls@.take(i as int));
            assert(self.decls@.take(i as int + 1).last() == self.decls@[i as int]);
            assert(self.has_key(self.decls@[i as int]));
            match self.decls[i] {
                MIRDeclarationKey::Constant(k) => write_constant(&mut out, &self.constants[k.0]),
                MIRDeclarationKey::Static(k) => write_static(&mut out, &self.statics[k.0]),
                MIRDeclarationKey::Function(k) => write_function(&mut out, &self.functions[k.0]),
                MIRDeclarationKey::Marker(k) => {
                    let t = self.markers[k.0].to_text();
                    push_str(&mut out, t.as_str());
                },
            }
            push_str(&mut out, "\n");
            i = i + 1;
        }
        assert(self.decls@.take(self.decls@.len() as int) =~= self.decls@);
        out
    }
}

// ---------------------------------------------------------------------------
// Laws of the text of operators
// ---------------------------------------------------------------------------

/// The node of a binary operator over two operands.
pub open spec fn bin_inner(k: BinKind, l: ExprV, r: ExprV) -> InnerV {
    let (bl, br) = (Box::new(l), Box::new(r));
    match k {
        BinKind::Add => InnerV::Add(bl, br),
        BinKind::Sub => InnerV::Sub(bl, br),
        BinKind::Mul => InnerV::Mul(bl, br),
        BinKind::Div => InnerV::Div(bl, br),
        BinKind::Equal => InnerV::Equal(bl, br),
        BinKind::NotEqual => InnerV::NotEqual(bl, br),
        BinKind::Greater => InnerV::Greater(bl, br),
        BinKind::Less => InnerV::Less(bl, br),
        BinKind::GreaterEq => InnerV::GreaterEq(bl, br),
        BinKind::LessEq => InnerV::LessEq(bl, br),
        BinKind::And => InnerV::BoolAnd(bl, br),
        BinKind::Or => InnerV::BoolOr(bl, br),
    }
}

/// The text of a binary operator is its operands' texts with the
/// operator's own symbol between them, in parentheses.
pub proof fn lemma_binary_text(l: ExprV, r: ExprV)
    ensures
        inner_text(InnerV::Add(Box::new(l), Box::new(r))) == "("@ + expr_text(l) + " + "@ + expr_text(r)
            + ")"@,
        inner_text(InnerV::Sub(Box::new(l), Box::new(r))) == "("@ + expr_text(l) + " - "@ + expr_text(r)
            + ")"@,
        inner_text(InnerV::Mul(Box::new(l), Box::new(r))) == "("@ + expr_text(l) + " * "@ + expr_text(r)
            + ")"@,
        inner_text(InnerV::Div(Box::new(l), Box::new(r))) == "("@ + expr_text(l) + " / "@ + expr_text(r)
            + ")"@,
        inner_text(InnerV::Equal(Box::new(l), Box::new(r))) == "("@ + expr_text(l) + " == "@ + expr_text(r)
            + ")"@,
        inner_text(InnerV::NotEqual(Box::new(l), Box::new(r))) == "("@ + expr_text(l) + " != "@ + expr_text(r)
            + ")"@,
        inner_text(InnerV::Greater(Box::new(l), Box::new(r))) == "("@ + expr_text(l) + " > "@ + expr_text(r)
            + ")"@,
        inner_text(InnerV::Less(Box::new(l), Box::new(r))) == "("@ + expr_text(l) + " < "@ + expr_text(r)
            + ")"@,
        inner_text(InnerV::GreaterEq(Box::new(l), Box::new(r))) == "("@ + expr_text(l) + " >= "@ + expr_text(r)
            + ")"@,
        inner_text(InnerV::LessEq(Box::new(l), Box::new(r))) == "("@ + expr_text(l) + " <= "@ + expr_text(r)
            + ")"@,
        inner_text(InnerV::BoolAnd(Box::new(l), Box::new(r))) == "("@ + expr_text(l) + " && "@ + expr_text(r)
            + ")"@,
        inner_text(InnerV::BoolOr(Box::new(l), Box::new(r))) == "("@ + expr_text(l) + " || "@ + expr_text(r)
            + ")"@,
{
}

/// The text of a unary operator is its symbol before its operand's
/// text, in parentheses.
pub proof fn lemma_unary_text(x: ExprV)
    ensures
        inner_text(InnerV::Neg(Box::new(x))) == "(-"@ + expr_text(x) + ")"@,
        inner_text(InnerV::Not(Box::new(x))) == "(!"@ + expr_text(x) + ")"@,
        inner_text(InnerV::Ref(Box::new(x))) == "(&"@ + expr_text(x) + ")"@,
        inner_text(InnerV::Deref(Box::new(x))) == "(*"@ + expr_text(x) + ")"@,
{
}

spec fn op_symbol(k: BinKind) -> Seq<char> {
    match k {
        BinKind::Add => " + "@,
        BinKind::Sub => " - "@,
        BinKind::Mul => " * "@,
        BinKind::Div => " / "@,
        BinKind::Equal => " == "@,
        BinKind::NotEqual => " != "@,
        BinKind::Greater => " > "@,
        BinKind::Less => " < "@,
        BinKind::GreaterEq => " >= "@,
        BinKind::LessEq => " <= "@,
        BinKind::And => " && "@,
        BinKind::Or => " || "@,
    }
}

proof fn lemma_op_symbol_text(k: BinKind, l: ExprV, r: ExprV)
    ensures
        inner_text(bin_inner(k, l, r)) == "("@ + expr_text(l) + op_symbol(k) + expr_text(r) + ")"@,
{
}

proof fn lemma_op_symbols_distinct(k1: BinKind, k2: BinKind)
    requires
        k1 != k2,
    ensures
        op_symbol(k1) != op_symbol(k2),
{
    reveal_strlit(" + ");
    reveal_strlit(" - ");
    reveal_strlit(" * ");
    reveal_strlit(" / ");
    reveal_strlit(" == ");
    reveal_strlit(" != ");
    reveal_strlit(" > ");
    reveal_strlit(" < ");
    reveal_strlit(" >= ");
    reveal_strlit(" <= ");
    reveal_strlit(" && ");
    reveal_strlit(" || ");
    assert(op_symbol(k1).len() != op_symbol(k2).len() || op_symbol(k1)[1] != op_symbol(k2)[1]);
}

proof fn lemma_middle_differs(a: Seq<char>, x: Seq<char>, y: Seq<char>, b: Seq<char>, c: Seq<char>)
    requires
        x != y,
    ensures
        a + x + b + c != a + y + b + c,
{
    if x.len() == y.len() {
        assert(!(x =~= y));
        let j = choose|j: int| 0 <= j < x.len() && x[j] != y[j];
        assert((a + x + b + c)[a.len() + j] == x[j]);
        assert((a + y + b + c)[a.len() + j] == y[j]);
    } else {
        assert((a + x + b + c).len() != (a + y + b + c).len());
    }
}

/// Different binary operators over the same operands have different
/// texts: the text tells which operator it shows.
pub proof fn lemma_binary_texts_distinct(k1: BinKind, k2: BinKind, l: ExprV, r: ExprV)
    requires
        k1 != k2,
    ensures
        inner_text(bin_inner(k1, l, r)) != inner_text(bin_inner(k2, l, r)),
{
    lemma_op_symbol_text(k1, l, r);
    lemma_op_symbol_text(k2, l, r);
    lemma_op_symbols_distinct(k1, k2);
    lemma_middle_differs("("@ + expr_text(l), op_symbol(k1), op_symbol(k2), expr_text(r), ")"@);
}

} // verus!
