//! Lowering of structured control flow (ifs, loops, scopes) to labels and
//! jumps.
//!
//! Nested blocks are lowered before the statement that holds them, so an
//! `if` inside the branch of another takes its label number first. Label
//! numbers count up from 0 in each function and wrap as a `u32` does.

use super::opt::same_but_body;
use super::view::{
    lemma_stmts_size_elems, lemma_stmts_view_add, lemma_stmts_view_push, stmt_size, stmts_size,
    stmts_view, ExprV, SpanV, StmtV,
};
use super::label::{jump_target, jumps_resolvable, last_label, lemma_last_label};
use super::{MIRFunction, MIRProgram, MIRStatement};
use crate::mir::display::push_str;
use crate::parser::span::Span;
use crate::util::text::{decimal_digits, u128_to_decimal};
use vstd::prelude::*;
use vstd::seq::axiom_seq_len_decreases;

verus! {

/// The label number that follows `n`, wrapping at `u32::MAX`.
pub open spec fn next_label(n: u32) -> u32 {
    if n == u32::MAX {
        0
    } else {
        (n + 1) as u32
    }
}

fn next_label_exec(n: u32) -> (res: u32)
    ensures
        res == next_label(n),
{
    n.wrapping_add(1)
}

// ---------------------------------------------------------------------------
// Ifs
// ---------------------------------------------------------------------------

/// The label after the `if` numbered `n`.
pub open spec fn if_end_label(n: u32) -> Seq<char> {
    "$if_"@ + decimal_digits(n as nat)
}

/// The label of the else branch of the `if` numbered `n`.
pub open spec fn if_else_label(n: u32) -> Seq<char> {
    if_end_label(n) + "_else"@
}

/// What an `if` whose branches are already lowered becomes, numbered `k`.
pub open spec fn lowered_if(
    condition: ExprV,
    on_true: Seq<StmtV>,
    on_false: Seq<StmtV>,
    span: SpanV,
    k: u32,
) -> Seq<StmtV> {
    if on_false.len() == 0 {
        seq![StmtV::GotoNotEqual { name: if_end_label(k), index: None, condition, span }]
            + on_true + seq![StmtV::Label { name: if_end_label(k), span }]
    } else {
        seq![StmtV::GotoNotEqual { name: if_else_label(k), index: None, condition, span }]
            + on_true + seq![
            StmtV::Goto { name: if_end_label(k), index: None, span },
            StmtV::Label { name: if_else_label(k), span },
        ] + on_false + seq![StmtV::Label { name: if_end_label(k), span }]
    }
}

/// A block with every `if` replaced by jumps and labels, starting at label
/// number `n`. Yields the new block and the next label number.
pub open spec fn ifs_flat_block(b: Seq<StmtV>, n: u32) -> (Seq<StmtV>, u32)
    decreases b, b.len(),
{
    if b.len() == 0 {
        (Seq::empty(), n)
    } else {
        proof {
            axiom_seq_len_decreases(b, b.drop_last());
        }
        let p = ifs_flat_block(b.drop_last(), n);
        let x = ifs_flat_stmt(b.last(), p.1);
        (p.0 + x.0, x.1)
    }
}

/// What one statement becomes when its ifs are lowered, starting at label
/// number `n`: the statements in its place and the next label number.
pub open spec fn ifs_flat_stmt(s: StmtV, n: u32) -> (Seq<StmtV>, u32)
    decreases s, 0nat,
{
    match s {
        StmtV::IfStatement { condition, on_true, on_false, span } => {
            let t = ifs_flat_block(on_true, n);
            let f = ifs_flat_block(on_false, t.1);
            (lowered_if(condition, t.0, f.0, span, f.1), next_label(f.1))
        },
        StmtV::LoopStatement { condition, body, iterate, span } => {
            let b = ifs_flat_block(body, n);
            let i = ifs_flat_block(iterate, b.1);
            (seq![StmtV::LoopStatement { condition, body: b.0, iterate: i.0, span }], i.1)
        },
        StmtV::ScopeStatement { body, span } => {
            let b = ifs_flat_block(body, n);
            (seq![StmtV::ScopeStatement { body: b.0, span }], b.1)
        },
        _ => (seq![s], n),
    }
}

proof fn lemma_ifs_flat_block_push(b: Seq<StmtV>, s: StmtV, n: u32)
    ensures
        ifs_flat_block(b.push(s), n) == ({
            let p = ifs_flat_block(b, n);
            let x = ifs_flat_stmt(s, p.1);
            (p.0 + x.0, x.1)
        }),
{
    assert(b.push(s).drop_last() =~= b);
}

/// The text of a label: `prefix`, the number, then `suffix`.
fn numbered_label(prefix: &str, k: u32, suffix: &str) -> (res: String)
    ensures
        res@ == prefix@ + decimal_digits(k as nat) + suffix@,
{
    let mut s = String::new();
    push_str(&mut s, prefix);
    let digits = u128_to_decimal(k as u128);
    push_str(&mut s, digits.as_str());
    push_str(&mut s, suffix);
    s
}

fn one_stmt(s: MIRStatement) -> (res: Vec<MIRStatement>)
    ensures
        stmts_view(res@) == seq![s@],
{
    let mut out = Vec::new();
    proof {
        lemma_stmts_view_push(out@, s);
    }
    out.push(s);
    assert(stmts_view(out@) =~= seq![s@]);
    out
}

fn push_stmt(out: &mut Vec<MIRStatement>, s: MIRStatement)
    ensures
        stmts_view(final(out)@) == stmts_view(old(out)@).push(s@),
{
    proof {
        lemma_stmts_view_push(out@, s);
    }
    out.push(s);
}

fn append_stmts(out: &mut Vec<MIRStatement>, mut more: Vec<MIRStatement>)
    ensures
        stmts_view(final(out)@) == stmts_view(old(out)@) + stmts_view(more@),
{
    proof {
        lemma_stmts_view_add(out@, more@);
    }
    out.append(&mut more);
}

fn lower_if(
    condition: super::MIRExpression,
    on_true: Vec<MIRStatement>,
    on_false: Vec<MIRStatement>,
    span: Span,
    k: u32,
) -> (res: Vec<MIRStatement>)
    ensures
        stmts_view(res@) == lowered_if(
            condition@,
            stmts_view(on_true@),
            stmts_view(on_false@),
            span@,
            k,
        ),
{
    let ghost t = stmts_view(on_true@);
    let ghost f = stmts_view(on_false@);
    let ghost sp = span@;
    let ghost c = condition@;
    let end_label = numbered_label("$if_", k, "");
    proof {
        reveal_strlit("");
    }
    assert(end_label@ =~= if_end_label(k));
    let mut out: Vec<MIRStatement> = Vec::new();
    if on_false.len() == 0 {
        proof {
            assert(f.len() == 0);
        }
        push_stmt(
            &mut out,
            MIRStatement::GotoNotEqual {
                name: end_label.clone(),
                index: None,
                condition,
                span: span.clone(),
            },
        );
        append_stmts(&mut out, on_true);
        push_stmt(&mut out, MIRStatement::Label { name: end_label, span });
        assert(stmts_view(out@) =~= lowered_if(c, t, f, sp, k));
    } else {
        proof {
            assert(f.len() != 0);
        }
        let else_label = numbered_label("$if_", k, "_else");
        assert(else_label@ == if_else_label(k));
        push_stmt(
            &mut out,
            MIRStatement::GotoNotEqual {
                name: else_label.clone(),
                index: None,
                condition,
                span: span.clone(),
            },
        );
        append_stmts(&mut out, on_true);
        push_stmt(
            &mut out,
            MIRStatement::Goto { name: end_label.clone(), index: None, span: span.clone() },
        );
        push_stmt(&mut out, MIRStatement::Label { name: else_label, span: span.clone() });
        append_stmts(&mut out, on_false);
        push_stmt(&mut out, MIRStatement::Label { name: end_label, span });
        assert(stmts_view(out@) =~= lowered_if(c, t, f, sp, k));
    }
    out
}

fn ifs_stmt(s: MIRStatement, n: u32) -> (res: (Vec<MIRStatement>, u32))
    ensures
        (stmts_view(res.0@), res.1) == ifs_flat_stmt(s@, n),
    decreases stmt_size(s), 0nat,
{
    match s {
        MIRStatement::IfStatement { condition, on_true, on_false, span } => {
            let (t, n1) = ifs_block(on_true, n);
            let (f, n2) = ifs_block(on_false, n1);
            let out = lower_if(condition, t, f, span, n2);
            (out, next_label_exec(n2))
        },
        MIRStatement::LoopStatement { condition, body, iterate, span } => {
            let (b, n1) = ifs_block(body, n);
            let (i, n2) = ifs_block(iterate, n1);
            (one_stmt(MIRStatement::LoopStatement { condition, body: b, iterate: i, span }), n2)
        },
        MIRStatement::ScopeStatement { body, span } => {
            let (b, n1) = ifs_block(body, n);
            (one_stmt(MIRStatement::ScopeStatement { body: b, span }), n1)
        },
        other => (one_stmt(other), n),
    }
}

fn ifs_block(v: Vec<MIRStatement>, n: u32) -> (res: (Vec<MIRStatement>, u32))
    ensures
        (stmts_view(res.0@), res.1) == ifs_flat_block(stmts_view(v@), n),
    decreases stmts_size(v@), 0nat,
{
    let ghost orig = v@;
    proof {
        lemma_stmts_size_elems(orig);
    }
    let len = v.len();
    let mut rest = v;
    let mut out: Vec<MIRStatement> = Vec::new();
    let mut m = n;
    let mut k: usize = 0;
    assert(orig.take(0) =~= Seq::<MIRStatement>::empty());
    while k < len
        invariant
            len == orig.len(),
            k <= len,
            rest@ =~= orig.subrange(k as int, len as int),
            (stmts_view(out@), m) == ifs_flat_block(stmts_view(orig.take(k as int)), n),
            forall|i: int| 0 <= i < orig.len() ==> stmt_size(#[trigger] orig[i]) < stmts_size(orig),
            stmts_size(orig) == stmts_size(v@),
        decreases len - k,
    {
        let x = rest.remove(0);
        assert(x == orig[k as int]);
        assert(orig.take(k as int + 1) =~= orig.take(k as int).push(x));
        proof {
            lemma_stmts_view_push(orig.take(k as int), x);
            lemma_ifs_flat_block_push(stmts_view(orig.take(k as int)), x@, n);
        }
        let (xs, m2) = ifs_stmt(x, m);
        append_stmts(&mut out, xs);
        m = m2;
        k = k + 1;
    }
    assert(orig.take(len as int) =~= orig);
    (out, m)
}

/// No `if` statement stands in the block, at any depth.
pub open spec fn no_ifs(b: Seq<StmtV>) -> bool
    decreases b, b.len(),
{
    if b.len() == 0 {
        true
    } else {
        proof {
            axiom_seq_len_decreases(b, b.drop_last());
        }
        no_ifs(b.drop_last()) && stmt_no_ifs(b.last())
    }
}

/// No `if` statement is, or stands inside, the statement.
pub open spec fn stmt_no_ifs(s: StmtV) -> bool
    decreases s, 0nat,
{
    match s {
        StmtV::IfStatement { .. } => false,
        StmtV::LoopStatement { body, iterate, .. } => no_ifs(body) && no_ifs(iterate),
        StmtV::ScopeStatement { body, .. } => no_ifs(body),
        _ => true,
    }
}

proof fn lemma_no_ifs_concat(a: Seq<StmtV>, b: Seq<StmtV>)
    ensures
        no_ifs(a + b) == (no_ifs(a) && no_ifs(b)),
    decreases b.len(),
{
    if b.len() == 0 {
        assert(a + b =~= a);
    } else {
        lemma_no_ifs_concat(a, b.drop_last());
        assert((a + b).drop_last() =~= a + b.drop_last());
        assert((a + b).last() == b.last());
    }
}

proof fn lemma_no_ifs_single(s: StmtV)
    ensures
        no_ifs(seq![s]) == stmt_no_ifs(s),
{
    assert(seq![s].drop_last() =~= Seq::<StmtV>::empty());
    assert(no_ifs(Seq::<StmtV>::empty()));
    assert(seq![s].last() == s);
}

proof fn lemma_ifs_flat_block_no_ifs(b: Seq<StmtV>, n: u32)
    ensures
        no_ifs(ifs_flat_block(b, n).0),
    decreases b, b.len(),
{
    if b.len() > 0 {
        axiom_seq_len_decreases(b, b.drop_last());
        let p = ifs_flat_block(b.drop_last(), n);
        lemma_ifs_flat_block_no_ifs(b.drop_last(), n);
        lemma_ifs_flat_stmt_no_ifs(b.last(), p.1);
        lemma_no_ifs_concat(p.0, ifs_flat_stmt(b.last(), p.1).0);
    }
}

proof fn lemma_ifs_flat_stmt_no_ifs(s: StmtV, n: u32)
    ensures
        no_ifs(ifs_flat_stmt(s, n).0),
    decreases s, 0nat,
{
    match s {
        StmtV::IfStatement { condition, on_true, on_false, span } => {
            let t = ifs_flat_block(on_true, n);
            let f = ifs_flat_block(on_false, t.1);
            let k = f.1;
            lemma_ifs_flat_block_no_ifs(on_true, n);
            lemma_ifs_flat_block_no_ifs(on_false, t.1);
            let g = StmtV::GotoNotEqual { name: if_end_label(k), index: None, condition, span };
            let ge = StmtV::GotoNotEqual { name: if_else_label(k), index: None, condition, span };
            let j = StmtV::Goto { name: if_end_label(k), index: None, span };
            let le = StmtV::Label { name: if_else_label(k), span };
            let l = StmtV::Label { name: if_end_label(k), span };
            lemma_no_ifs_single(g);
            lemma_no_ifs_single(ge);
            lemma_no_ifs_single(l);
            assert(seq![j, le] =~= seq![j] + seq![le]);
            lemma_no_ifs_single(j);
            lemma_no_ifs_single(le);
            lemma_no_ifs_concat(seq![j], seq![le]);
            lemma_no_ifs_concat(seq![g], t.0);
            lemma_no_ifs_concat(seq![g] + t.0, seq![l]);
            lemma_no_ifs_concat(seq![ge], t.0);
            lemma_no_ifs_concat(seq![ge] + t.0, seq![j, le]);
            lemma_no_ifs_concat(seq![ge] + t.0 + seq![j, le], f.0);
            lemma_no_ifs_concat(seq![ge] + t.0 + seq![j, le] + f.0, seq![l]);
        },
        StmtV::LoopStatement { condition, body, iterate, span } => {
            let b = ifs_flat_block(body, n);
            lemma_ifs_flat_block_no_ifs(body, n);
            lemma_ifs_flat_block_no_ifs(iterate, b.1);
            lemma_no_ifs_single(ifs_flat_stmt(s, n).0[0]);
            assert(ifs_flat_stmt(s, n).0 =~= seq![ifs_flat_stmt(s, n).0[0]]);
        },
        StmtV::ScopeStatement { body, span } => {
            lemma_ifs_flat_block_no_ifs(body, n);
            lemma_no_ifs_single(ifs_flat_stmt(s, n).0[0]);
            assert(ifs_flat_stmt(s, n).0 =~= seq![ifs_flat_stmt(s, n).0[0]]);
        },
        _ => {
            lemma_no_ifs_single(s);
        },
    }
}

/// After [`flatten_ifs`], no `if` statement is left in a function body, at
/// any depth.
pub proof fn lemma_flatten_ifs_leaves_no_ifs(f: MIRFunction)
    ensures
        no_ifs(ifs_flattened(f)),
{
    lemma_ifs_flat_block_no_ifs(stmts_view(f.body@), 0);
}


// ---------------------------------------------------------------------------
// Loops
// ---------------------------------------------------------------------------

/// The label at the top of the loop numbered `n`.
pub open spec fn loop_head_label(n: u32) -> Seq<char> {
    "$loop_"@ + decimal_digits(n as nat) + "_head"@
}

/// The label after the loop numbered `n`.
pub open spec fn loop_tail_label(n: u32) -> Seq<char> {
    "$loop_"@ + decimal_digits(n as nat) + "_tail"@
}

/// The label a `continue` in the loop numbered `n` goes to: the start of
/// its iterate block.
pub open spec fn loop_continue_label(n: u32) -> Seq<char> {
    "$loop_"@ + decimal_digits(n as nat) + "_continue"@
}

/// What a loop whose blocks are already lowered becomes, numbered `k`.
pub open spec fn lowered_loop(
    condition: Option<ExprV>,
    body: Seq<StmtV>,
    iterate: Seq<StmtV>,
    span: SpanV,
    k: u32,
) -> Seq<StmtV> {
    seq![StmtV::Label { name: loop_head_label(k), span }] + match condition {
        Some(c) => seq![
            StmtV::GotoNotEqual { name: loop_tail_label(k), index: None, condition: c, span },
        ],
        None => Seq::empty(),
    } + body + seq![StmtV::Label { name: loop_continue_label(k), span }] + iterate + seq![
        StmtV::Goto { name: loop_head_label(k), index: None, span },
        StmtV::Label { name: loop_tail_label(k), span },
    ]
}

/// A block with every loop replaced by jumps and labels, scopes inlined,
/// and `continue` and `break` turned into jumps to the labels of the
/// innermost loop around them (`inner`, if any), starting at label number
/// `n`. Yields the new block and the next label number, or `None` where a
/// `continue` or `break` stands outside every loop.
pub open spec fn loops_flat_block(b: Seq<StmtV>, inner: Option<u32>, n: u32) -> Option<
    (Seq<StmtV>, u32),
>
    decreases b, b.len(),
{
    if b.len() == 0 {
        Some((Seq::empty(), n))
    } else {
        proof {
            axiom_seq_len_decreases(b, b.drop_last());
        }
        match loops_flat_block(b.drop_last(), inner, n) {
            None => None,
            Some(p) => match loops_flat_stmt(b.last(), inner, p.1) {
                None => None,
                Some(x) => Some((p.0 + x.0, x.1)),
            },
        }
    }
}

/// What one statement becomes when its loops are lowered.
pub open spec fn loops_flat_stmt(s: StmtV, inner: Option<u32>, n: u32) -> Option<
    (Seq<StmtV>, u32),
>
    decreases s, 0nat,
{
    match s {
        StmtV::LoopStatement { condition, body, iterate, span } => {
            match loops_flat_block(body, Some(n), next_label(n)) {
                None => None,
                Some(b) => match loops_flat_block(iterate, Some(n), b.1) {
                    None => None,
                    Some(i) => Some((lowered_loop(condition, b.0, i.0, span, n), i.1)),
                },
            }
        },
        StmtV::ScopeStatement { body, span } => loops_flat_block(body, inner, n),
        StmtV::ContinueStatement { span } => match inner {
            None => None,
            Some(k) => Some(
                (seq![StmtV::Goto { name: loop_continue_label(k), index: None, span }], n),
            ),
        },
        StmtV::BreakStatement { span } => match inner {
            None => None,
            Some(k) => Some((seq![StmtV::Goto { name: loop_tail_label(k), index: None, span }], n)),
        },
        StmtV::IfStatement { condition, on_true, on_false, span } => {
            match loops_flat_block(on_true, inner, n) {
                None => None,
                Some(t) => match loops_flat_block(on_false, inner, t.1) {
                    None => None,
                    Some(f) => Some(
                        (
                            seq![
                                StmtV::IfStatement { condition, on_true: t.0, on_false: f.0, span },
                            ],
                            f.1,
                        ),
                    ),
                },
            }
        },
        _ => Some((seq![s], n)),
    }
}

proof fn lemma_loops_flat_block_push(b: Seq<StmtV>, s: StmtV, inner: Option<u32>, n: u32)
    ensures
        loops_flat_block(b.push(s), inner, n) == match loops_flat_block(b, inner, n) {
            None => None,
            Some(p) => match loops_flat_stmt(s, inner, p.1) {
                None => None,
                Some(x) => Some((p.0 + x.0, x.1)),
            },
        },
{
    assert(b.push(s).drop_last() =~= b);
}

/// Every `continue` and `break` of the block stands inside a loop, counting
/// a loop around the block when `in_loop` holds.
pub open spec fn loop_jumps_ok(b: Seq<StmtV>, in_loop: bool) -> bool
    decreases b, b.len(),
{
    if b.len() == 0 {
        true
    } else {
        proof {
            axiom_seq_len_decreases(b, b.drop_last());
        }
        loop_jumps_ok(b.drop_last(), in_loop) && stmt_loop_jumps_ok(b.last(), in_loop)
    }
}

/// [`loop_jumps_ok`] for one statement.
pub open spec fn stmt_loop_jumps_ok(s: StmtV, in_loop: bool) -> bool
    decreases s, 0nat,
{
    match s {
        StmtV::LoopStatement { body, iterate, .. } => loop_jumps_ok(body, true) && loop_jumps_ok(
            iterate,
            true,
        ),
        StmtV::ScopeStatement { body, .. } => loop_jumps_ok(body, in_loop),
        StmtV::ContinueStatement { .. } | StmtV::BreakStatement { .. } => in_loop,
        StmtV::IfStatement { on_true, on_false, .. } => loop_jumps_ok(on_true, in_loop)
            && loop_jumps_ok(on_false, in_loop),
        _ => true,
    }
}

proof fn lemma_loops_flat_block_ok(b: Seq<StmtV>, inner: Option<u32>, n: u32)
    ensures
        loops_flat_block(b, inner, n) is Some <==> loop_jumps_ok(b, inner is Some),
    decreases b, b.len(),
{
    if b.len() > 0 {
        axiom_seq_len_decreases(b, b.drop_last());
        lemma_loops_flat_block_ok(b.drop_last(), inner, n);
        match loops_flat_block(b.drop_last(), inner, n) {
            None => {},
            Some(p) => {
                lemma_loops_flat_stmt_ok(b.last(), inner, p.1);
            },
        }
    }
}

proof fn lemma_loops_flat_stmt_ok(s: StmtV, inner: Option<u32>, n: u32)
    ensures
        loops_flat_stmt(s, inner, n) is Some <==> stmt_loop_jumps_ok(s, inner is Some),
    decreases s, 0nat,
{
    match s {
        StmtV::LoopStatement { condition, body, iterate, span } => {
            lemma_loops_flat_block_ok(body, Some(n), next_label(n));
            match loops_flat_block(body, Some(n), next_label(n)) {
                None => {},
                Some(b) => {
                    lemma_loops_flat_block_ok(iterate, Some(n), b.1);
                },
            }
            if loop_jumps_ok(body, true) {
                let b = loops_flat_block(body, Some(n), next_label(n))->0;
                lemma_loops_flat_block_ok(iterate, Some(n), b.1);
            }
        },
        StmtV::ScopeStatement { body, span } => {
            lemma_loops_flat_block_ok(body, inner, n);
        },
        StmtV::IfStatement { condition, on_true, on_false, span } => {
            lemma_loops_flat_block_ok(on_true, inner, n);
            if loop_jumps_ok(on_true, inner is Some) {
                let t = loops_flat_block(on_true, inner, n)->0;
                lemma_loops_flat_block_ok(on_false, inner, t.1);
            }
        },
        _ => {},
    }
}

fn check_loop_jumps_stmt(s: &MIRStatement, in_loop: bool) -> (res: bool)
    ensures
        res == stmt_loop_jumps_ok(s@, in_loop),
    decreases stmt_size(*s), 0nat,
{
    match s {
        MIRStatement::LoopStatement { body, iterate, .. } => check_loop_jumps(body, true)
            && check_loop_jumps(iterate, true),
        MIRStatement::ScopeStatement { body, .. } => check_loop_jumps(body, in_loop),
        MIRStatement::ContinueStatement { .. } | MIRStatement::BreakStatement { .. } => in_loop,
        MIRStatement::IfStatement { on_true, on_false, .. } => check_loop_jumps(on_true, in_loop)
            && check_loop_jumps(on_false, in_loop),
        _ => true,
    }
}

fn check_loop_jumps(v: &Vec<MIRStatement>, in_loop: bool) -> (res: bool)
    ensures
        res == loop_jumps_ok(stmts_view(v@), in_loop),
    decreases stmts_size(v@), 1nat,
{
    proof {
        lemma_stmts_size_elems(v@);
    }
    let mut k: usize = 0;
    assert(v@.take(0) =~= Seq::<MIRStatement>::empty());
    while k < v.len()
        invariant
            k <= v.len(),
            loop_jumps_ok(stmts_view(v@.take(k as int)), in_loop),
            forall|i: int| 0 <= i < v@.len() ==> stmt_size(#[trigger] v@[i]) < stmts_size(v@),
        decreases v.len() - k,
    {
        assert(v@.take(k as int + 1) =~= v@.take(k as int).push(v@[k as int]));
        proof {
            lemma_stmts_view_push(v@.take(k as int), v@[k as int]);
            assert(stmts_view(v@.take(k as int)).push(v@[k as int]@).drop_last() =~= stmts_view(
                v@.take(k as int),
            ));
        }
        if !check_loop_jumps_stmt(&v[k], in_loop) {
            proof {
                super::view::lemma_stmts_view_index(v@);
                lemma_stmts_view_take(v@, k as int + 1);
                if loop_jumps_ok(stmts_view(v@), in_loop) {
                    lemma_loop_jumps_prefix(stmts_view(v@), k as int + 1, in_loop);
                }
            }
            return false;
        }
        k = k + 1;
    }
    assert(v@.take(v.len() as int) =~= v@);
    true
}

proof fn lemma_stmts_view_take(s: Seq<MIRStatement>, k: int)
    requires
        0 <= k <= s.len(),
    ensures
        stmts_view(s.take(k)) == stmts_view(s).take(k),
{
    super::view::lemma_stmts_view_index(s);
    super::view::lemma_stmts_view_index(s.take(k));
    assert(stmts_view(s.take(k)) =~= stmts_view(s).take(k));
}

proof fn lemma_loop_jumps_prefix(b: Seq<StmtV>, k: int, in_loop: bool)
    requires
        0 <= k <= b.len(),
        loop_jumps_ok(b, in_loop),
    ensures
        loop_jumps_ok(b.take(k), in_loop),
    decreases b.len(),
{
    if k < b.len() {
        assert(b.drop_last().take(k) =~= b.take(k));
        lemma_loop_jumps_prefix(b.drop_last(), k, in_loop);
    } else {
        assert(b.take(k) =~= b);
    }
}


proof fn lemma_loop_jumps_elems(b: Seq<StmtV>, in_loop: bool)
    requires
        loop_jumps_ok(b, in_loop),
    ensures
        forall|i: int| 0 <= i < b.len() ==> stmt_loop_jumps_ok(#[trigger] b[i], in_loop),
    decreases b.len(),
{
    if b.len() > 0 {
        lemma_loop_jumps_elems(b.drop_last(), in_loop);
        assert forall|i: int| 0 <= i < b.len() implies stmt_loop_jumps_ok(#[trigger] b[i], in_loop) by {
            if i < b.len() - 1 {
                assert(b[i] == b.drop_last()[i]);
            }
        }
    }
}

fn lower_loop(
    condition: Option<super::MIRExpression>,
    body: Vec<MIRStatement>,
    iterate: Vec<MIRStatement>,
    span: Span,
    k: u32,
) -> (res: Vec<MIRStatement>)
    ensures
        stmts_view(res@) == lowered_loop(
            super::view::opt_expr_view(condition),
            stmts_view(body@),
            stmts_view(iterate@),
            span@,
            k,
        ),
{
    let ghost b = stmts_view(body@);
    let ghost it = stmts_view(iterate@);
    let ghost sp = span@;
    let ghost c = super::view::opt_expr_view(condition);
    let head = numbered_label("$loop_", k, "_head");
    let tail = numbered_label("$loop_", k, "_tail");
    let cont = numbered_label("$loop_", k, "_continue");
    let mut out: Vec<MIRStatement> = Vec::new();
    push_stmt(&mut out, MIRStatement::Label { name: head.clone(), span: span.clone() });
    let ghost first = stmts_view(out@);
    match condition {
        Some(cond) => {
            push_stmt(
                &mut out,
                MIRStatement::GotoNotEqual {
                    name: tail.clone(),
                    index: None,
                    condition: cond,
                    span: span.clone(),
                },
            );
        },
        None => {},
    }
    let ghost guard = stmts_view(out@);
    assert(guard =~= first + match c {
        Some(e) => seq![
            StmtV::GotoNotEqual { name: loop_tail_label(k), index: None, condition: e, span: sp },
        ],
        None => Seq::empty(),
    });
    append_stmts(&mut out, body);
    push_stmt(&mut out, MIRStatement::Label { name: cont, span: span.clone() });
    append_stmts(&mut out, iterate);
    push_stmt(&mut out, MIRStatement::Goto { name: head, index: None, span: span.clone() });
    push_stmt(&mut out, MIRStatement::Label { name: tail, span });
    assert(stmts_view(out@) =~= lowered_loop(c, b, it, sp, k));
    out
}

fn loops_stmt(s: MIRStatement, inner: Option<u32>, n: u32) -> (res: (Vec<MIRStatement>, u32))
    requires
        stmt_loop_jumps_ok(s@, inner is Some),
    ensures
        loops_flat_stmt(s@, inner, n) == Some((stmts_view(res.0@), res.1)),
    decreases stmt_size(s), 0nat,
{
    match s {
        MIRStatement::LoopStatement { condition, body, iterate, span } => {
            let (b, n1) = loops_block(body, Some(n), next_label_exec(n));
            let (i, n2) = loops_block(iterate, Some(n), n1);
            (lower_loop(condition, b, i, span, n), n2)
        },
        MIRStatement::ScopeStatement { body, span } => loops_block(body, inner, n),
        MIRStatement::ContinueStatement { span } => {
            match inner {
                Some(k) => {
                    let name = numbered_label("$loop_", k, "_continue");
                    (one_stmt(MIRStatement::Goto { name, index: None, span }), n)
                },
                None => {
                    proof {
                        assert(false);
                    }
                    (Vec::new(), n)
                },
            }
        },
        MIRStatement::BreakStatement { span } => {
            match inner {
                Some(k) => {
                    let name = numbered_label("$loop_", k, "_tail");
                    (one_stmt(MIRStatement::Goto { name, index: None, span }), n)
                },
                None => {
                    proof {
                        assert(false);
                    }
                    (Vec::new(), n)
                },
            }
        },
        MIRStatement::IfStatement { condition, on_true, on_false, span } => {
            let (t, n1) = loops_block(on_true, inner, n);
            let (f, n2) = loops_block(on_false, inner, n1);
            (one_stmt(MIRStatement::IfStatement { condition, on_true: t, on_false: f, span }), n2)
        },
        other => (one_stmt(other), n),
    }
}

fn loops_block(v: Vec<MIRStatement>, inner: Option<u32>, n: u32) -> (res: (Vec<MIRStatement>, u32))
    requires
        loop_jumps_ok(stmts_view(v@), inner is Some),
    ensures
        loops_flat_block(stmts_view(v@), inner, n) == Some((stmts_view(res.0@), res.1)),
    decreases stmts_size(v@), 0nat,
{
    let ghost orig = v@;
    proof {
        lemma_stmts_size_elems(orig);
        super::view::lemma_stmts_view_index(orig);
        lemma_loop_jumps_elems(stmts_view(orig), inner is Some);
        assert forall|i: int| 0 <= i < orig.len() implies stmt_loop_jumps_ok(
            #[trigger] orig[i]@,
            inner is Some,
        ) by {
            assert(stmts_view(orig)[i] == orig[i]@);
        }
    }
    let len = v.len();
    let mut rest = v;
    let mut out: Vec<MIRStatement> = Vec::new();
    let mut m = n;
    let mut k: usize = 0;
    assert(orig.take(0) =~= Seq::<MIRStatement>::empty());
    while k < len
        invariant
            len == orig.len(),
            k <= len,
            rest@ =~= orig.subrange(k as int, len as int),
            loops_flat_block(stmts_view(orig.take(k as int)), inner, n) == Some(
                (stmts_view(out@), m),
            ),
            forall|i: int| 0 <= i < orig.len() ==> stmt_size(#[trigger] orig[i]) < stmts_size(orig),
            forall|i: int|
                0 <= i < orig.len() ==> stmt_loop_jumps_ok(#[trigger] orig[i]@, inner is Some),
            stmts_size(orig) == stmts_size(v@),
        decreases len - k,
    {
        let x = rest.remove(0);
        assert(x == orig[k as int]);
        assert(orig.take(k as int + 1) =~= orig.take(k as int).push(x));
        proof {
            lemma_stmts_view_push(orig.take(k as int), x);
            lemma_loops_flat_block_push(stmts_view(orig.take(k as int)), x@, inner, n);
        }
        let (xs, m2) = loops_stmt(x, inner, m);
        append_stmts(&mut out, xs);
        m = m2;
        k = k + 1;
    }
    assert(orig.take(len as int) =~= orig);
    (out, m)
}

/// The body of a function with every `if` replaced by jumps and labels,
/// label numbers starting at 0.
pub open spec fn ifs_flattened(f: MIRFunction) -> Seq<StmtV> {
    ifs_flat_block(stmts_view(f.body@), 0).0
}

/// Replaces every `if` statement, at any depth, by a conditional jump past
/// its then-branch, and for an `if` with an else-branch a jump over that
/// branch, with labels `$if_N` and `$if_N_else`. Always succeeds.
pub fn flatten_ifs(program: &mut MIRProgram) -> (res: bool)
    ensures
        res,
        final(program).functions@.len() == old(program).functions@.len(),
        forall|i: int|
            0 <= i < old(program).functions@.len() ==> {
                let f = #[trigger] old(program).functions@[i];
                let g = final(program).functions@[i];
                &&& same_but_body(g, f)
                &&& stmts_view(g.body@) == ifs_flattened(f)
            },
        *final(program) == (MIRProgram { functions: final(program).functions, ..*old(program) }),
{
    let mut fs: Vec<MIRFunction> = Vec::new();
    std::mem::swap(&mut fs, &mut program.functions);
    let ghost orig = fs@;
    let n = fs.len();
    let mut rest = fs;
    let mut out: Vec<MIRFunction> = Vec::new();
    let mut k: usize = 0;
    while k < n
        invariant
            n == orig.len(),
            k <= n,
            rest@ =~= orig.subrange(k as int, n as int),
            out@.len() == k,
            forall|i: int|
                0 <= i < k ==> {
                    let f = #[trigger] orig[i];
                    let g = out@[i];
                    &&& same_but_body(g, f)
                    &&& stmts_view(g.body@) == ifs_flattened(f)
                },
        decreases n - k,
    {
        let f = rest.remove(0);
        assert(f == orig[k as int]);
        let MIRFunction { name, fn_type, ret_ty, args, args_ty, body, span, extern_import } = f;
        let (body2, _) = ifs_block(body, 0);
        out.push(MIRFunction { name, fn_type, ret_ty, args, args_ty, body: body2, span, extern_import });
        k = k + 1;
    }
    program.functions = out;
    true
}


/// The body of a function with every loop replaced by jumps and labels,
/// label numbers starting at 0, or `None` where a `continue` or `break`
/// stands outside every loop.
pub open spec fn loops_flattened(f: MIRFunction) -> Option<Seq<StmtV>> {
    match loops_flat_block(stmts_view(f.body@), None, 0) {
        Some(p) => Some(p.0),
        None => None,
    }
}

/// Replaces every loop statement, at any depth, by labels `$loop_N_head`,
/// `$loop_N_continue` and `$loop_N_tail` and the jumps between them,
/// inlines every scope, and turns `continue` and `break` into jumps to the
/// labels of the innermost loop around them. Fails, leaving the program
/// unchanged, where a `continue` or `break` stands outside every loop.
pub fn flatten_loops(program: &mut MIRProgram) -> (res: bool)
    ensures
        res == forall|i: int|
            0 <= i < old(program).functions@.len() ==> (#[trigger] loops_flattened(
                old(program).functions@[i],
            )) is Some,
        res ==> {
            &&& final(program).functions@.len() == old(program).functions@.len()
            &&& forall|i: int|
                0 <= i < old(program).functions@.len() ==> {
                    let f = #[trigger] old(program).functions@[i];
                    let g = final(program).functions@[i];
                    &&& same_but_body(g, f)
                    &&& loops_flattened(f) == Some(stmts_view(g.body@))
                }
            &&& *final(program) == (MIRProgram {
                functions: final(program).functions,
                ..*old(program)
            })
        },
        !res ==> *final(program) == *old(program),
{
    let n = program.functions.len();
    let mut j: usize = 0;
    while j < n
        invariant
            n == program.functions@.len(),
            j <= n,
            forall|i: int| 0 <= i < j ==> (#[trigger] loops_flattened(program.functions@[i])) is Some,
        decreases n - j,
    {
        let ok = check_loop_jumps(&program.functions[j].body, false);
        proof {
            lemma_loops_flat_block_ok(stmts_view(program.functions@[j as int].body@), None, 0);
        }
        if !ok {
            assert(loops_flattened(program.functions@[j as int]) is None);
            return false;
        }
        j = j + 1;
    }
    let mut fs: Vec<MIRFunction> = Vec::new();
    std::mem::swap(&mut fs, &mut program.functions);
    let ghost orig = fs@;
    let mut rest = fs;
    let mut out: Vec<MIRFunction> = Vec::new();
    let mut k: usize = 0;
    while k < n
        invariant
            n == orig.len(),
            k <= n,
            rest@ =~= orig.subrange(k as int, n as int),
            forall|i: int| 0 <= i < n ==> (#[trigger] loops_flattened(orig[i])) is Some,
            out@.len() == k,
            forall|i: int|
                0 <= i < k ==> {
                    let f = #[trigger] orig[i];
                    let g = out@[i];
                    &&& same_but_body(g, f)
                    &&& loops_flattened(f) == Some(stmts_view(g.body@))
                },
        decreases n - k,
    {
        let f = rest.remove(0);
        assert(f == orig[k as int]);
        assert(loops_flattened(orig[k as int]) is Some);
        proof {
            lemma_loops_flat_block_ok(stmts_view(f.body@), None, 0);
        }
        let MIRFunction { name, fn_type, ret_ty, args, args_ty, body, span, extern_import } = f;
        let (body2, _) = loops_block(body, None, 0);
        out.push(MIRFunction { name, fn_type, ret_ty, args, args_ty, body: body2, span, extern_import });
        k = k + 1;
    }
    program.functions = out;
    true
}

/// No loop, scope, `continue` or `break` statement stands in the block, at
/// any depth.
pub open spec fn no_loops(b: Seq<StmtV>) -> bool
    decreases b, b.len(),
{
    if b.len() == 0 {
        true
    } else {
        proof {
            axiom_seq_len_decreases(b, b.drop_last());
        }
        no_loops(b.drop_last()) && stmt_no_loops(b.last())
    }
}

/// [`no_loops`] for one statement.
pub open spec fn stmt_no_loops(s: StmtV) -> bool
    decreases s, 0nat,
{
    match s {
        StmtV::LoopStatement { .. } | StmtV::ScopeStatement { .. }
        | StmtV::ContinueStatement { .. } | StmtV::BreakStatement { .. } => false,
        StmtV::IfStatement { on_true, on_false, .. } => no_loops(on_true) && no_loops(on_false),
        _ => true,
    }
}

proof fn lemma_no_loops_concat(a: Seq<StmtV>, b: Seq<StmtV>)
    ensures
        no_loops(a + b) == (no_loops(a) && no_loops(b)),
    decreases b.len(),
{
    if b.len() == 0 {
        assert(a + b =~= a);
    } else {
        lemma_no_loops_concat(a, b.drop_last());
        assert((a + b).drop_last() =~= a + b.drop_last());
        assert((a + b).last() == b.last());
    }
}

proof fn lemma_no_loops_single(s: StmtV)
    ensures
        no_loops(seq![s]) == stmt_no_loops(s),
{
    assert(seq![s].drop_last() =~= Seq::<StmtV>::empty());
    assert(no_loops(Seq::<StmtV>::empty()));
    assert(seq![s].last() == s);
}

proof fn lemma_loops_flat_block_no_loops(b: Seq<StmtV>, inner: Option<u32>, n: u32)
    requires
        loops_flat_block(b, inner, n) is Some,
    ensures
        no_loops((loops_flat_block(b, inner, n)->0).0),
    decreases b, b.len(),
{
    if b.len() > 0 {
        axiom_seq_len_decreases(b, b.drop_last());
        let p = loops_flat_block(b.drop_last(), inner, n)->0;
        lemma_loops_flat_block_no_loops(b.drop_last(), inner, n);
        lemma_loops_flat_stmt_no_loops(b.last(), inner, p.1);
        lemma_no_loops_concat(p.0, (loops_flat_stmt(b.last(), inner, p.1)->0).0);
    }
}

proof fn lemma_loops_flat_stmt_no_loops(s: StmtV, inner: Option<u32>, n: u32)
    requires
        loops_flat_stmt(s, inner, n) is Some,
    ensures
        no_loops((loops_flat_stmt(s, inner, n)->0).0),
    decreases s, 0nat,
{
    match s {
        StmtV::LoopStatement { condition, body, iterate, span } => {
            let b = loops_flat_block(body, Some(n), next_label(n))->0;
            let i = loops_flat_block(iterate, Some(n), b.1)->0;
            lemma_loops_flat_block_no_loops(body, Some(n), next_label(n));
            lemma_loops_flat_block_no_loops(iterate, Some(n), b.1);
            let h = StmtV::Label { name: loop_head_label(n), span };
            let c = StmtV::Label { name: loop_continue_label(n), span };
            let g = StmtV::Goto { name: loop_head_label(n), index: None, span };
            let t = StmtV::Label { name: loop_tail_label(n), span };
            let guard = match condition {
                Some(e) => seq![
                    StmtV::GotoNotEqual { name: loop_tail_label(n), index: None, condition: e, span },
                ],
                None => Seq::empty(),
            };
            lemma_no_loops_single(h);
            lemma_no_loops_single(c);
            lemma_no_loops_single(g);
            lemma_no_loops_single(t);
            match condition {
                Some(e) => {
                    lemma_no_loops_single(guard[0]);
                    assert(guard =~= seq![guard[0]]);
                },
                None => {
                    assert(no_loops(guard));
                },
            }
            assert(seq![g, t] =~= seq![g] + seq![t]);
            lemma_no_loops_concat(seq![g], seq![t]);
            lemma_no_loops_concat(seq![h], guard);
            lemma_no_loops_concat(seq![h] + guard, b.0);
            lemma_no_loops_concat(seq![h] + guard + b.0, seq![c]);
            lemma_no_loops_concat(seq![h] + guard + b.0 + seq![c], i.0);
            lemma_no_loops_concat(seq![h] + guard + b.0 + seq![c] + i.0, seq![g, t]);
        },
        StmtV::ScopeStatement { body, span } => {
            lemma_loops_flat_block_no_loops(body, inner, n);
        },
        StmtV::ContinueStatement { span } => {
            lemma_no_loops_single((loops_flat_stmt(s, inner, n)->0).0[0]);
            assert((loops_flat_stmt(s, inner, n)->0).0 =~= seq![(loops_flat_stmt(s, inner, n)->0).0[0]]);
        },
        StmtV::BreakStatement { span } => {
            lemma_no_loops_single((loops_flat_stmt(s, inner, n)->0).0[0]);
            assert((loops_flat_stmt(s, inner, n)->0).0 =~= seq![(loops_flat_stmt(s, inner, n)->0).0[0]]);
        },
        StmtV::IfStatement { condition, on_true, on_false, span } => {
            let t = loops_flat_block(on_true, inner, n)->0;
            lemma_loops_flat_block_no_loops(on_true, inner, n);
            lemma_loops_flat_block_no_loops(on_false, inner, t.1);
            lemma_no_loops_single((loops_flat_stmt(s, inner, n)->0).0[0]);
            assert((loops_flat_stmt(s, inner, n)->0).0 =~= seq![(loops_flat_stmt(s, inner, n)->0).0[0]]);
        },
        _ => {
            lemma_no_loops_single(s);
        },
    }
}

/// Where [`flatten_loops`] succeeds on a function, no loop, scope,
/// `continue` or `break` is left in its body, at any depth.
pub proof fn lemma_flatten_loops_leaves_no_loops(f: MIRFunction)
    requires
        loops_flattened(f) is Some,
    ensures
        no_loops(loops_flattened(f)->0),
{
    lemma_loops_flat_block_no_loops(stmts_view(f.body@), None, 0);
}


proof fn lemma_ifs_flat_block_keeps_no_loops(b: Seq<StmtV>, n: u32)
    requires
        no_loops(b),
    ensures
        no_loops(ifs_flat_block(b, n).0),
    decreases b, b.len(),
{
    if b.len() > 0 {
        axiom_seq_len_decreases(b, b.drop_last());
        let p = ifs_flat_block(b.drop_last(), n);
        lemma_ifs_flat_block_keeps_no_loops(b.drop_last(), n);
        lemma_ifs_flat_stmt_keeps_no_loops(b.last(), p.1);
        lemma_no_loops_concat(p.0, ifs_flat_stmt(b.last(), p.1).0);
    }
}

proof fn lemma_ifs_flat_stmt_keeps_no_loops(s: StmtV, n: u32)
    requires
        stmt_no_loops(s),
    ensures
        no_loops(ifs_flat_stmt(s, n).0),
    decreases s, 0nat,
{
    match s {
        StmtV::IfStatement { condition, on_true, on_false, span } => {
            let t = ifs_flat_block(on_true, n);
            let f = ifs_flat_block(on_false, t.1);
            let k = f.1;
            lemma_ifs_flat_block_keeps_no_loops(on_true, n);
            lemma_ifs_flat_block_keeps_no_loops(on_false, t.1);
            let g = StmtV::GotoNotEqual { name: if_end_label(k), index: None, condition, span };
            let ge = StmtV::GotoNotEqual { name: if_else_label(k), index: None, condition, span };
            let j = StmtV::Goto { name: if_end_label(k), index: None, span };
            let le = StmtV::Label { name: if_else_label(k), span };
            let l = StmtV::Label { name: if_end_label(k), span };
            lemma_no_loops_single(g);
            lemma_no_loops_single(ge);
            lemma_no_loops_single(l);
            assert(seq![j, le] =~= seq![j] + seq![le]);
            lemma_no_loops_single(j);
            lemma_no_loops_single(le);
            lemma_no_loops_concat(seq![j], seq![le]);
            lemma_no_loops_concat(seq![g], t.0);
            lemma_no_loops_concat(seq![g] + t.0, seq![l]);
            lemma_no_loops_concat(seq![ge], t.0);
            lemma_no_loops_concat(seq![ge] + t.0, seq![j, le]);
            lemma_no_loops_concat(seq![ge] + t.0 + seq![j, le], f.0);
            lemma_no_loops_concat(seq![ge] + t.0 + seq![j, le] + f.0, seq![l]);
        },
        _ => {
            lemma_no_loops_single(s);
        },
    }
}

/// Lowering the loops of a function and then its ifs leaves a flat body:
/// no `if`, loop, scope, `continue` or `break` at any depth, so that one
/// index names any statement.
pub proof fn lemma_flattening_gives_flat_body(f: MIRFunction, g: MIRFunction)
    requires
        loops_flattened(f) == Some(stmts_view(g.body@)),
    ensures
        no_ifs(ifs_flattened(g)),
        no_loops(ifs_flattened(g)),
{
    lemma_flatten_loops_leaves_no_loops(f);
    lemma_flatten_ifs_leaves_no_ifs(g);
    lemma_ifs_flat_block_keeps_no_loops(stmts_view(g.body@), 0);
}


// ---------------------------------------------------------------------------
// Jumps after lowering
// ---------------------------------------------------------------------------

/// The names the jumps of a block go to (`want_labels` false), or the names
/// of its labels (`want_labels` true), nested blocks included.
pub open spec fn block_names(b: Seq<StmtV>, want_labels: bool) -> Set<Seq<char>>
    decreases b, b.len(),
{
    if b.len() == 0 {
        Set::empty()
    } else {
        proof {
            axiom_seq_len_decreases(b, b.drop_last());
        }
        block_names(b.drop_last(), want_labels).union(stmt_names(b.last(), want_labels))
    }
}

/// [`block_names`] for one statement.
pub open spec fn stmt_names(s: StmtV, want_labels: bool) -> Set<Seq<char>>
    decreases s, 0nat,
{
    match s {
        StmtV::Goto { name, .. } => if want_labels {
            Set::empty()
        } else {
            set![name]
        },
        StmtV::GotoNotEqual { name, .. } => if want_labels {
            Set::empty()
        } else {
            set![name]
        },
        StmtV::Label { name, .. } => if want_labels {
            set![name]
        } else {
            Set::empty()
        },
        StmtV::IfStatement { on_true, on_false, .. } => block_names(on_true, want_labels).union(
            block_names(on_false, want_labels),
        ),
        StmtV::LoopStatement { body, iterate, .. } => block_names(body, want_labels).union(
            block_names(iterate, want_labels),
        ),
        StmtV::ScopeStatement { body, .. } => block_names(body, want_labels),
        _ => Set::empty(),
    }
}

/// Every jump of the block, at any depth, goes to a name that some label of
/// the block, at any depth, has.
pub open spec fn jumps_have_labels(b: Seq<StmtV>) -> bool {
    block_names(b, false).subset_of(block_names(b, true))
}

proof fn lemma_names_concat(a: Seq<StmtV>, b: Seq<StmtV>, w: bool)
    ensures
        block_names(a + b, w) == block_names(a, w).union(block_names(b, w)),
    decreases b.len(),
{
    if b.len() == 0 {
        assert(a + b =~= a);
        assert(block_names(a, w).union(block_names(b, w)) =~= block_names(a, w));
    } else {
        lemma_names_concat(a, b.drop_last(), w);
        assert((a + b).drop_last() =~= a + b.drop_last());
        assert((a + b).last() == b.last());
        assert(block_names(a + b, w) =~= block_names(a, w).union(block_names(b, w)));
    }
}

proof fn lemma_names_single(s: StmtV, w: bool)
    ensures
        block_names(seq![s], w) == stmt_names(s, w),
{
    assert(seq![s].drop_last() =~= Seq::<StmtV>::empty());
    assert(seq![s].last() == s);
    assert(block_names(Seq::<StmtV>::empty(), w) == Set::<Seq<char>>::empty());
    assert(block_names(seq![s], w) == block_names(Seq::<StmtV>::empty(), w).union(
        stmt_names(s, w),
    ));
    assert(block_names(seq![s], w) =~= stmt_names(s, w));
}

/// The names in `a` followed by `b` followed by `c`.
proof fn lemma_names_concat3(a: Seq<StmtV>, b: Seq<StmtV>, c: Seq<StmtV>, w: bool)
    ensures
        block_names(a + b + c, w) == block_names(a, w).union(block_names(b, w)).union(
            block_names(c, w),
        ),
{
    lemma_names_concat(a, b, w);
    lemma_names_concat(a + b, c, w);
}

proof fn lemma_ifs_flat_block_names(b: Seq<StmtV>, n: u32)
    ensures
        block_names(b, true).subset_of(block_names(ifs_flat_block(b, n).0, true)),
        block_names(ifs_flat_block(b, n).0, false).subset_of(
            block_names(b, false).union(block_names(ifs_flat_block(b, n).0, true)),
        ),
    decreases b, b.len(),
{
    if b.len() > 0 {
        axiom_seq_len_decreases(b, b.drop_last());
        let p = ifs_flat_block(b.drop_last(), n);
        let x = ifs_flat_stmt(b.last(), p.1);
        lemma_ifs_flat_block_names(b.drop_last(), n);
        lemma_ifs_flat_stmt_names(b.last(), p.1);
        lemma_names_concat(p.0, x.0, true);
        lemma_names_concat(p.0, x.0, false);
    }
}

proof fn lemma_ifs_flat_stmt_names(s: StmtV, n: u32)
    ensures
        stmt_names(s, true).subset_of(block_names(ifs_flat_stmt(s, n).0, true)),
        block_names(ifs_flat_stmt(s, n).0, false).subset_of(
            stmt_names(s, false).union(block_names(ifs_flat_stmt(s, n).0, true)),
        ),
    decreases s, 0nat,
{
    match s {
        StmtV::IfStatement { condition, on_true, on_false, span } => {
            let t = ifs_flat_block(on_true, n);
            let f = ifs_flat_block(on_false, t.1);
            let k = f.1;
            lemma_ifs_flat_block_names(on_true, n);
            lemma_ifs_flat_block_names(on_false, t.1);
            let g = StmtV::GotoNotEqual { name: if_end_label(k), index: None, condition, span };
            let ge = StmtV::GotoNotEqual { name: if_else_label(k), index: None, condition, span };
            let j = StmtV::Goto { name: if_end_label(k), index: None, span };
            let le = StmtV::Label { name: if_else_label(k), span };
            let l = StmtV::Label { name: if_end_label(k), span };
            lemma_names_single(g, true);
            lemma_names_single(g, false);
            lemma_names_single(ge, true);
            lemma_names_single(ge, false);
            lemma_names_single(l, true);
            lemma_names_single(l, false);
            assert(seq![j, le] =~= seq![j] + seq![le]);
            lemma_names_single(j, true);
            lemma_names_single(j, false);
            lemma_names_single(le, true);
            lemma_names_single(le, false);
            lemma_names_concat(seq![j], seq![le], true);
            lemma_names_concat(seq![j], seq![le], false);
            if f.0.len() == 0 {
                lemma_names_concat3(seq![g], t.0, seq![l], true);
                lemma_names_concat3(seq![g], t.0, seq![l], false);
            } else {
                lemma_names_concat3(seq![ge], t.0, seq![j, le], true);
                lemma_names_concat3(seq![ge], t.0, seq![j, le], false);
                lemma_names_concat3(seq![ge] + t.0 + seq![j, le], f.0, seq![l], true);
                lemma_names_concat3(seq![ge] + t.0 + seq![j, le], f.0, seq![l], false);
            }
        },
        StmtV::LoopStatement { condition, body, iterate, span } => {
            let b = ifs_flat_block(body, n);
            lemma_ifs_flat_block_names(body, n);
            lemma_ifs_flat_block_names(iterate, b.1);
            lemma_names_single(ifs_flat_stmt(s, n).0[0], true);
            lemma_names_single(ifs_flat_stmt(s, n).0[0], false);
            assert(ifs_flat_stmt(s, n).0 =~= seq![ifs_flat_stmt(s, n).0[0]]);
        },
        StmtV::ScopeStatement { body, span } => {
            lemma_ifs_flat_block_names(body, n);
            lemma_names_single(ifs_flat_stmt(s, n).0[0], true);
            lemma_names_single(ifs_flat_stmt(s, n).0[0], false);
            assert(ifs_flat_stmt(s, n).0 =~= seq![ifs_flat_stmt(s, n).0[0]]);
        },
        _ => {
            lemma_names_single(s, true);
            lemma_names_single(s, false);
        },
    }
}

/// Lowering ifs keeps every jump going to a label.
proof fn lemma_ifs_flat_keeps_labels(b: Seq<StmtV>, n: u32)
    requires
        jumps_have_labels(b),
    ensures
        jumps_have_labels(ifs_flat_block(b, n).0),
{
    lemma_ifs_flat_block_names(b, n);
}


/// The labels a `continue` or `break` inside the loop numbered `k` may go
/// to; none outside every loop.
pub open spec fn inner_loop_names(inner: Option<u32>) -> Set<Seq<char>> {
    match inner {
        Some(k) => set![loop_tail_label(k), loop_continue_label(k)],
        None => Set::empty(),
    }
}

proof fn lemma_loops_flat_block_names(b: Seq<StmtV>, inner: Option<u32>, n: u32)
    requires
        loops_flat_block(b, inner, n) is Some,
    ensures
        block_names(b, true).subset_of(block_names((loops_flat_block(b, inner, n)->0).0, true)),
        block_names((loops_flat_block(b, inner, n)->0).0, false).subset_of(
            block_names(b, false).union(
                block_names((loops_flat_block(b, inner, n)->0).0, true),
            ).union(inner_loop_names(inner)),
        ),
    decreases b, b.len(),
{
    if b.len() > 0 {
        axiom_seq_len_decreases(b, b.drop_last());
        let p = loops_flat_block(b.drop_last(), inner, n)->0;
        let x = loops_flat_stmt(b.last(), inner, p.1)->0;
        lemma_loops_flat_block_names(b.drop_last(), inner, n);
        lemma_loops_flat_stmt_names(b.last(), inner, p.1);
        lemma_names_concat(p.0, x.0, true);
        lemma_names_concat(p.0, x.0, false);
    }
}

proof fn lemma_loops_flat_stmt_names(s: StmtV, inner: Option<u32>, n: u32)
    requires
        loops_flat_stmt(s, inner, n) is Some,
    ensures
        stmt_names(s, true).subset_of(block_names((loops_flat_stmt(s, inner, n)->0).0, true)),
        block_names((loops_flat_stmt(s, inner, n)->0).0, false).subset_of(
            stmt_names(s, false).union(
                block_names((loops_flat_stmt(s, inner, n)->0).0, true),
            ).union(inner_loop_names(inner)),
        ),
    decreases s, 0nat,
{
    let out = (loops_flat_stmt(s, inner, n)->0).0;
    match s {
        StmtV::LoopStatement { condition, body, iterate, span } => {
            let b = loops_flat_block(body, Some(n), next_label(n))->0;
            let i = loops_flat_block(iterate, Some(n), b.1)->0;
            lemma_loops_flat_block_names(body, Some(n), next_label(n));
            lemma_loops_flat_block_names(iterate, Some(n), b.1);
            let h = StmtV::Label { name: loop_head_label(n), span };
            let c = StmtV::Label { name: loop_continue_label(n), span };
            let g = StmtV::Goto { name: loop_head_label(n), index: None, span };
            let t = StmtV::Label { name: loop_tail_label(n), span };
            let guard = match condition {
                Some(e) => seq![
                    StmtV::GotoNotEqual { name: loop_tail_label(n), index: None, condition: e, span },
                ],
                None => Seq::empty(),
            };
            lemma_names_single(h, true);
            lemma_names_single(h, false);
            lemma_names_single(c, true);
            lemma_names_single(c, false);
            lemma_names_single(g, true);
            lemma_names_single(g, false);
            lemma_names_single(t, true);
            lemma_names_single(t, false);
            match condition {
                Some(e) => {
                    lemma_names_single(guard[0], true);
                    lemma_names_single(guard[0], false);
                    assert(guard =~= seq![guard[0]]);
                },
                None => {
                    assert(block_names(guard, true) =~= Set::<Seq<char>>::empty());
                    assert(block_names(guard, false) =~= Set::<Seq<char>>::empty());
                },
            }
            assert(seq![g, t] =~= seq![g] + seq![t]);
            lemma_names_concat(seq![g], seq![t], true);
            lemma_names_concat(seq![g], seq![t], false);
            lemma_names_concat3(seq![h], guard, b.0, true);
            lemma_names_concat3(seq![h], guard, b.0, false);
            lemma_names_concat3(seq![h] + guard + b.0, seq![c], i.0, true);
            lemma_names_concat3(seq![h] + guard + b.0, seq![c], i.0, false);
            lemma_names_concat(seq![h] + guard + b.0 + seq![c] + i.0, seq![g, t], true);
            lemma_names_concat(seq![h] + guard + b.0 + seq![c] + i.0, seq![g, t], false);
            assert(out == seq![h] + guard + b.0 + seq![c] + i.0 + seq![g, t]);
        },
        StmtV::ScopeStatement { body, span } => {
            lemma_loops_flat_block_names(body, inner, n);
        },
        StmtV::ContinueStatement { span } => {
            lemma_names_single(out[0], true);
            lemma_names_single(out[0], false);
            assert(out =~= seq![out[0]]);
        },
        StmtV::BreakStatement { span } => {
            lemma_names_single(out[0], true);
            lemma_names_single(out[0], false);
            assert(out =~= seq![out[0]]);
        },
        StmtV::IfStatement { condition, on_true, on_false, span } => {
            let t = loops_flat_block(on_true, inner, n)->0;
            lemma_loops_flat_block_names(on_true, inner, n);
            lemma_loops_flat_block_names(on_false, inner, t.1);
            lemma_names_single(out[0], true);
            lemma_names_single(out[0], false);
            assert(out =~= seq![out[0]]);
        },
        _ => {
            lemma_names_single(s, true);
            lemma_names_single(s, false);
        },
    }
}


proof fn lemma_names_elem(b: Seq<StmtV>, i: int, w: bool)
    requires
        0 <= i < b.len(),
    ensures
        stmt_names(b[i], w).subset_of(block_names(b, w)),
    decreases b.len(),
{
    if i < b.len() - 1 {
        lemma_names_elem(b.drop_last(), i, w);
        assert(b.drop_last()[i] == b[i]);
    }
}

proof fn lemma_flat_label_at(b: Seq<StmtV>, name: Seq<char>)
    requires
        no_ifs(b),
        no_loops(b),
        block_names(b, true).contains(name),
    ensures
        exists|j: int| 0 <= j < b.len() && (#[trigger] b[j] matches StmtV::Label { name: n, .. } && n == name),
    decreases b.len(),
{
    if b.len() == 0 {
        assert(!block_names(b, true).contains(name));
    } else if stmt_names(b.last(), true).contains(name) {
        let j = b.len() - 1;
        assert(stmt_no_ifs(b.last()) && stmt_no_loops(b.last()));
        match b.last() {
            StmtV::Label { .. } => {},
            StmtV::IfStatement { .. } | StmtV::LoopStatement { .. } | StmtV::ScopeStatement {
                ..
            } => {},
            _ => {
                assert(!stmt_names(b.last(), true).contains(name));
            },
        }
        assert(b[j] matches StmtV::Label { name: n, .. } && n == name);
    } else {
        lemma_flat_label_at(b.drop_last(), name);
        let j = choose|j: int|
            0 <= j < b.drop_last().len() && (#[trigger] b.drop_last()[j] matches StmtV::Label {
                name: n,
                ..
            } && n == name);
        assert(b[j] == b.drop_last()[j]);
    }
}

/// In a flat body whose jumps all go to names of its labels, every jump
/// can be resolved to a position.
proof fn lemma_flat_jumps_resolvable(b: Seq<StmtV>)
    requires
        no_ifs(b),
        no_loops(b),
        jumps_have_labels(b),
    ensures
        jumps_resolvable(b),
{
    assert forall|i: int|
        0 <= i < b.len() && #[trigger] jump_target(b[i]) is Some implies last_label(
        b,
        jump_target(b[i])->0,
    ) is Some by {
        let name = jump_target(b[i])->0;
        lemma_names_elem(b, i, false);
        assert(stmt_names(b[i], false).contains(name));
        lemma_flat_label_at(b, name);
        lemma_last_label(b, name);
    }
}

/// Lowering the loops of a function and then its ifs, where each jump of
/// the function goes to a name some label of it has (as when it has no
/// jumps at all), gives a body whose every jump can be resolved to the
/// position of a label: resolving the jumps afterwards cannot fail.
pub proof fn lemma_flattened_jumps_resolve(f: MIRFunction, g: MIRFunction)
    requires
        jumps_have_labels(stmts_view(f.body@)),
        loops_flattened(f) == Some(stmts_view(g.body@)),
    ensures
        jumps_resolvable(ifs_flattened(g)),
{
    let fb = stmts_view(f.body@);
    let gb = stmts_view(g.body@);
    lemma_loops_flat_block_names(fb, None, 0);
    assert(inner_loop_names(None) =~= Set::<Seq<char>>::empty());
    assert(jumps_have_labels(gb));
    lemma_ifs_flat_keeps_labels(gb, 0);
    lemma_flattening_gives_flat_body(f, g);
    lemma_flat_jumps_resolvable(ifs_flattened(g));
}

} // verus!
