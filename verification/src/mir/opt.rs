//! Simplifications of function bodies.

use super::view::{
    lemma_stmts_size_elems, lemma_stmts_view_add, lemma_stmts_view_push, stmt_size, stmts_size,
    stmts_view, InnerV, StmtV,
};
use super::{MIRExpressionInner, MIRFunction, MIRStatement};
use vstd::prelude::*;
use vstd::seq::axiom_seq_len_decreases;

verus! {

/// `a` and `b` are the same function but for their bodies.
pub open spec fn same_but_body(a: MIRFunction, b: MIRFunction) -> bool {
    &&& a.name == b.name
    &&& a.fn_type == b.fn_type
    &&& a.ret_ty == b.ret_ty
    &&& a.args == b.args
    &&& a.args_ty == b.args_ty
    &&& a.span == b.span
    &&& a.extern_import == b.extern_import
}

// ---------------------------------------------------------------------------
// Trivial ifs
// ---------------------------------------------------------------------------

/// A block with every `if` on a literal boolean replaced by the branch it
/// takes, nested blocks first. Yields whether any `if` was replaced, and
/// the new block.
pub open spec fn without_trivial_ifs(b: Seq<StmtV>) -> (bool, Seq<StmtV>)
    decreases b, b.len(),
{
    if b.len() == 0 {
        (false, Seq::empty())
    } else {
        proof {
            axiom_seq_len_decreases(b, b.drop_last());
        }
        let p = without_trivial_ifs(b.drop_last());
        let x = stmt_without_trivial_ifs(b.last());
        (p.0 || x.0, p.1 + x.1)
    }
}

/// What one statement becomes when trivial ifs are removed: the statements
/// that stand in its place.
pub open spec fn stmt_without_trivial_ifs(s: StmtV) -> (bool, Seq<StmtV>)
    decreases s, 0nat,
{
    match s {
        StmtV::IfStatement { condition, on_true, on_false, span } => {
            let t = without_trivial_ifs(on_true);
            let f = without_trivial_ifs(on_false);
            match condition.inner {
                InnerV::Bool(c) => (
                    true,
                    if c {
                        t.1
                    } else {
                        f.1
                    },
                ),
                _ => (
                    t.0 || f.0,
                    seq![StmtV::IfStatement { condition, on_true: t.1, on_false: f.1, span }],
                ),
            }
        },
        StmtV::LoopStatement { condition, body, iterate, span } => {
            let b = without_trivial_ifs(body);
            let i = without_trivial_ifs(iterate);
            (b.0 || i.0, seq![StmtV::LoopStatement { condition, body: b.1, iterate: i.1, span }])
        },
        StmtV::ScopeStatement { body, span } => {
            let b = without_trivial_ifs(body);
            (b.0, seq![StmtV::ScopeStatement { body: b.1, span }])
        },
        _ => (false, seq![s]),
    }
}

proof fn lemma_without_trivial_ifs_push(b: Seq<StmtV>, s: StmtV)
    ensures
        without_trivial_ifs(b.push(s)) == ({
            let p = without_trivial_ifs(b);
            let x = stmt_without_trivial_ifs(s);
            (p.0 || x.0, p.1 + x.1)
        }),
{
    assert(b.push(s).drop_last() =~= b);
}

fn trivial_ifs_stmt(s: MIRStatement) -> (res: (Vec<MIRStatement>, bool))
    ensures
        (res.1, stmts_view(res.0@)) == stmt_without_trivial_ifs(s@),
    decreases stmt_size(s), 0nat,
{
    match s {
        MIRStatement::IfStatement { condition, on_true, on_false, span } => {
            let (t, mt) = trivial_ifs_block(on_true);
            let (f, mf) = trivial_ifs_block(on_false);
            let lit = match &condition.inner {
                MIRExpressionInner::Bool(c) => Some(*c),
                _ => None,
            };
            match lit {
                Some(c) => if c {
                    (t, true)
                } else {
                    (f, true)
                },
                None => {
                    let mut out = Vec::new();
                    let st = MIRStatement::IfStatement { condition, on_true: t, on_false: f, span };
                    proof {
                        lemma_stmts_view_push(out@, st);
                    }
                    out.push(st);
                    assert(stmts_view(out@) =~= seq![out@[0]@]);
                    (out, mt || mf)
                },
            }
        },
        MIRStatement::LoopStatement { condition, body, iterate, span } => {
            let (b, mb) = trivial_ifs_block(body);
            let (i, mi) = trivial_ifs_block(iterate);
            let mut out = Vec::new();
            let st = MIRStatement::LoopStatement { condition, body: b, iterate: i, span };
            proof {
                lemma_stmts_view_push(out@, st);
            }
            out.push(st);
            assert(stmts_view(out@) =~= seq![out@[0]@]);
            (out, mb || mi)
        },
        MIRStatement::ScopeStatement { body, span } => {
            let (b, mb) = trivial_ifs_block(body);
            let mut out = Vec::new();
            let st = MIRStatement::ScopeStatement { body: b, span };
            proof {
                lemma_stmts_view_push(out@, st);
            }
            out.push(st);
            assert(stmts_view(out@) =~= seq![out@[0]@]);
            (out, mb)
        },
        other => {
            let ghost ov = other@;
            let mut out = Vec::new();
            proof {
                lemma_stmts_view_push(out@, other);
            }
            out.push(other);
            assert(stmts_view(out@) =~= seq![ov]);
            (out, false)
        },
    }
}

fn trivial_ifs_block(v: Vec<MIRStatement>) -> (res: (Vec<MIRStatement>, bool))
    ensures
        (res.1, stmts_view(res.0@)) == without_trivial_ifs(stmts_view(v@)),
    decreases stmts_size(v@), 0nat,
{
    let ghost orig = v@;
    proof {
        lemma_stmts_size_elems(orig);
    }
    let n = v.len();
    let mut rest = v;
    let mut out: Vec<MIRStatement> = Vec::new();
    let mut m = false;
    let mut k: usize = 0;
    assert(orig.take(0) =~= Seq::<MIRStatement>::empty());
    while k < n
        invariant
            n == orig.len(),
            k <= n,
            rest@ =~= orig.subrange(k as int, n as int),
            (m, stmts_view(out@)) == without_trivial_ifs(stmts_view(orig.take(k as int))),
            forall|i: int| 0 <= i < orig.len() ==> stmt_size(#[trigger] orig[i]) < stmts_size(orig),
            stmts_size(orig) == stmts_size(v@),
        decreases n - k,
    {
        let x = rest.remove(0);
        assert(x == orig[k as int]);
        assert(orig.take(k as int + 1) =~= orig.take(k as int).push(x));
        proof {
            lemma_stmts_view_push(orig.take(k as int), x);
            lemma_without_trivial_ifs_push(stmts_view(orig.take(k as int)), x@);
        }
        let (mut xs, mx) = trivial_ifs_stmt(x);
        proof {
            lemma_stmts_view_add(out@, xs@);
        }
        out.append(&mut xs);
        m = m || mx;
        k = k + 1;
    }
    assert(orig.take(n as int) =~= orig);
    (out, m)
}

/// Replaces every `if` whose condition is a literal boolean by the branch
/// it takes, in the whole body. Returns `(success, modified)`; it always
/// succeeds.
pub fn remove_trivial_ifs(function: &mut MIRFunction) -> (res: (bool, bool))
    ensures
        res.0,
        res.1 == without_trivial_ifs(stmts_view(old(function).body@)).0,
        stmts_view(final(function).body@) == without_trivial_ifs(stmts_view(old(function).body@)).1,
        same_but_body(*final(function), *old(function)),
{
    let mut body = Vec::new();
    std::mem::swap(&mut function.body, &mut body);
    let (new_body, modified) = trivial_ifs_block(body);
    function.body = new_body;
    (true, modified)
}

// ---------------------------------------------------------------------------
// Dead code
// ---------------------------------------------------------------------------

/// Statements after which the rest of their block never runs.
pub open spec fn ends_block(s: StmtV) -> bool {
    s is Return || s is ContinueStatement || s is BreakStatement
}

/// A block with the statements that follow its first return, continue or
/// break removed, nested blocks likewise. Yields whether anything was
/// removed, the new block, and whether the block ends early.
pub open spec fn without_dead_code(b: Seq<StmtV>) -> (bool, Seq<StmtV>, bool)
    decreases b, b.len(),
{
    if b.len() == 0 {
        (false, Seq::empty(), false)
    } else {
        proof {
            axiom_seq_len_decreases(b, b.drop_last());
        }
        let p = without_dead_code(b.drop_last());
        if p.2 {
            (true, p.1, true)
        } else {
            let x = stmt_without_dead_code(b.last());
            (p.0 || x.0, p.1.push(x.1), ends_block(b.last()))
        }
    }
}

/// One statement with the dead code of its nested blocks removed.
pub open spec fn stmt_without_dead_code(s: StmtV) -> (bool, StmtV)
    decreases s, 0nat,
{
    match s {
        StmtV::IfStatement { condition, on_true, on_false, span } => {
            let t = without_dead_code(on_true);
            let f = without_dead_code(on_false);
            (t.0 || f.0, StmtV::IfStatement { condition, on_true: t.1, on_false: f.1, span })
        },
        StmtV::LoopStatement { condition, body, iterate, span } => {
            let b = without_dead_code(body);
            let i = without_dead_code(iterate);
            (b.0 || i.0, StmtV::LoopStatement { condition, body: b.1, iterate: i.1, span })
        },
        StmtV::ScopeStatement { body, span } => {
            let b = without_dead_code(body);
            (b.0, StmtV::ScopeStatement { body: b.1, span })
        },
        _ => (false, s),
    }
}

proof fn lemma_without_dead_code_push(b: Seq<StmtV>, s: StmtV)
    ensures
        without_dead_code(b.push(s)) == ({
            let p = without_dead_code(b);
            if p.2 {
                (true, p.1, true)
            } else {
                let x = stmt_without_dead_code(s);
                (p.0 || x.0, p.1.push(x.1), ends_block(s))
            }
        }),
{
    assert(b.push(s).drop_last() =~= b);
}

fn ends_block_exec(s: &MIRStatement) -> (res: bool)
    ensures
        res == ends_block(s@),
{
    match s {
        MIRStatement::Return { .. } | MIRStatement::ContinueStatement { .. }
        | MIRStatement::BreakStatement { .. } => true,
        _ => false,
    }
}

fn dead_code_stmt(s: MIRStatement) -> (res: (MIRStatement, bool))
    ensures
        (res.1, res.0@) == stmt_without_dead_code(s@),
    decreases stmt_size(s), 0nat,
{
    match s {
        MIRStatement::IfStatement { condition, on_true, on_false, span } => {
            let (t, mt) = dead_code_block(on_true);
            let (f, mf) = dead_code_block(on_false);
            (MIRStatement::IfStatement { condition, on_true: t, on_false: f, span }, mt || mf)
        },
        MIRStatement::LoopStatement { condition, body, iterate, span } => {
            let (b, mb) = dead_code_block(body);
            let (i, mi) = dead_code_block(iterate);
            (MIRStatement::LoopStatement { condition, body: b, iterate: i, span }, mb || mi)
        },
        MIRStatement::ScopeStatement { body, span } => {
            let (b, mb) = dead_code_block(body);
            (MIRStatement::ScopeStatement { body: b, span }, mb)
        },
        other => (other, false),
    }
}

fn dead_code_block(v: Vec<MIRStatement>) -> (res: (Vec<MIRStatement>, bool))
    ensures
        res.1 == without_dead_code(stmts_view(v@)).0,
        stmts_view(res.0@) == without_dead_code(stmts_view(v@)).1,
    decreases stmts_size(v@), 0nat,
{
    let ghost orig = v@;
    proof {
        lemma_stmts_size_elems(orig);
    }
    let n = v.len();
    let mut rest = v;
    let mut out: Vec<MIRStatement> = Vec::new();
    let mut m = false;
    let mut dead = false;
    let mut k: usize = 0;
    assert(orig.take(0) =~= Seq::<MIRStatement>::empty());
    while k < n
        invariant
            n == orig.len(),
            k <= n,
            rest@ =~= orig.subrange(k as int, n as int),
            (m, stmts_view(out@), dead) == without_dead_code(stmts_view(orig.take(k as int))),
            forall|i: int| 0 <= i < orig.len() ==> stmt_size(#[trigger] orig[i]) < stmts_size(orig),
            stmts_size(orig) == stmts_size(v@),
        decreases n - k,
    {
        let x = rest.remove(0);
        assert(x == orig[k as int]);
        assert(orig.take(k as int + 1) =~= orig.take(k as int).push(x));
        proof {
            lemma_stmts_view_push(orig.take(k as int), x);
            lemma_without_dead_code_push(stmts_view(orig.take(k as int)), x@);
        }
        if dead {
            m = true;
        } else {
            let ends = ends_block_exec(&x);
            let (x2, mx) = dead_code_stmt(x);
            proof {
                lemma_stmts_view_push(out@, x2);
            }
            out.push(x2);
            m = m || mx;
            dead = ends;
        }
        k = k + 1;
    }
    assert(orig.take(n as int) =~= orig);
    (out, m)
}

/// Removes, in every block of the body, the statements that follow a
/// return, continue or break. Returns `(success, modified)`; it always
/// succeeds.
pub fn remove_dead_code(function: &mut MIRFunction) -> (res: (bool, bool))
    ensures
        res.0,
        res.1 == without_dead_code(stmts_view(old(function).body@)).0,
        stmts_view(final(function).body@) == without_dead_code(stmts_view(old(function).body@)).1,
        same_but_body(*final(function), *old(function)),
{
    let mut body = Vec::new();
    std::mem::swap(&mut function.body, &mut body);
    let (new_body, modified) = dead_code_block(body);
    function.body = new_body;
    (true, modified)
}

// ---------------------------------------------------------------------------
// What the passes leave behind
// ---------------------------------------------------------------------------

/// No `if` on a literal boolean occurs in the statement, nested blocks included.
pub open spec fn stmt_has_no_trivial_if(s: StmtV) -> bool
    decreases s, 0nat,
{
    match s {
        StmtV::IfStatement { condition, on_true, on_false, .. } => {
            &&& !(condition.inner is Bool)
            &&& has_no_trivial_if(on_true)
            &&& has_no_trivial_if(on_false)
        },
        StmtV::LoopStatement { body, iterate, .. } => has_no_trivial_if(body) && has_no_trivial_if(
            iterate,
        ),
        StmtV::ScopeStatement { body, .. } => has_no_trivial_if(body),
        _ => true,
    }
}

/// No `if` on a literal boolean occurs in the block, nested blocks included.
pub open spec fn has_no_trivial_if(b: Seq<StmtV>) -> bool
    decreases b, 1nat,
{
    forall|i: int| 0 <= i < b.len() ==> stmt_has_no_trivial_if(#[trigger] b[i])
}

/// Removing trivial ifs leaves no `if` on a literal boolean anywhere in the
/// block.
pub proof fn lemma_trivial_ifs_removed(b: Seq<StmtV>)
    ensures
        has_no_trivial_if(without_trivial_ifs(b).1),
    decreases b, b.len(),
{
    if b.len() > 0 {
        axiom_seq_len_decreases(b, b.drop_last());
        lemma_trivial_ifs_removed(b.drop_last());
        lemma_stmt_trivial_ifs_removed(b.last());
        let p = without_trivial_ifs(b.drop_last()).1;
        let x = stmt_without_trivial_ifs(b.last()).1;
        assert forall|i: int| 0 <= i < (p + x).len() implies stmt_has_no_trivial_if(
            #[trigger] (p + x)[i],
        ) by {
            if i < p.len() {
                assert((p + x)[i] == p[i]);
            } else {
                assert((p + x)[i] == x[i - p.len()]);
            }
        }
    }
}

/// Removing trivial ifs from one statement leaves none in what replaces it.
pub proof fn lemma_stmt_trivial_ifs_removed(s: StmtV)
    ensures
        has_no_trivial_if(stmt_without_trivial_ifs(s).1),
    decreases s, 0nat,
{
    match s {
        StmtV::IfStatement { condition, on_true, on_false, span } => {
            lemma_trivial_ifs_removed(on_true);
            lemma_trivial_ifs_removed(on_false);
            let r = stmt_without_trivial_ifs(s).1;
            if !(condition.inner is Bool) {
                assert(stmt_has_no_trivial_if(r[0]));
            }
        },
        StmtV::LoopStatement { condition, body, iterate, span } => {
            lemma_trivial_ifs_removed(body);
            lemma_trivial_ifs_removed(iterate);
            assert(stmt_has_no_trivial_if(stmt_without_trivial_ifs(s).1[0]));
        },
        StmtV::ScopeStatement { body, span } => {
            lemma_trivial_ifs_removed(body);
            assert(stmt_has_no_trivial_if(stmt_without_trivial_ifs(s).1[0]));
        },
        _ => {
            assert(stmt_has_no_trivial_if(stmt_without_trivial_ifs(s).1[0]));
        },
    }
}

/// Only the last statement of any block, nested blocks included, may be a
/// return, continue or break.
pub open spec fn has_no_dead_code(b: Seq<StmtV>) -> bool
    decreases b, 1nat,
{
    &&& forall|i: int| 0 <= i < b.len() - 1 ==> !ends_block(#[trigger] b[i])
    &&& forall|i: int| 0 <= i < b.len() ==> stmt_has_no_dead_code(#[trigger] b[i])
}

/// The nested blocks of the statement hold no dead code.
pub open spec fn stmt_has_no_dead_code(s: StmtV) -> bool
    decreases s, 0nat,
{
    match s {
        StmtV::IfStatement { on_true, on_false, .. } => has_no_dead_code(on_true)
            && has_no_dead_code(on_false),
        StmtV::LoopStatement { body, iterate, .. } => has_no_dead_code(body) && has_no_dead_code(
            iterate,
        ),
        StmtV::ScopeStatement { body, .. } => has_no_dead_code(body),
        _ => true,
    }
}

/// Removing dead code leaves no statement after a return, continue or break
/// in any block; the block ends early exactly when its last statement is
/// one of those.
pub proof fn lemma_dead_code_removed(b: Seq<StmtV>)
    ensures
        has_no_dead_code(without_dead_code(b).1),
        without_dead_code(b).2 <==> (without_dead_code(b).1.len() > 0 && ends_block(
            without_dead_code(b).1.last(),
        )),
    decreases b, b.len(),
{
    if b.len() > 0 {
        axiom_seq_len_decreases(b, b.drop_last());
        lemma_dead_code_removed(b.drop_last());
        let p = without_dead_code(b.drop_last());
        if !p.2 {
            lemma_stmt_dead_code_removed(b.last());
            let x = stmt_without_dead_code(b.last());
            let r = p.1.push(x.1);
            assert(ends_block(x.1) == ends_block(b.last()));
            assert forall|i: int| 0 <= i < r.len() - 1 implies !ends_block(#[trigger] r[i]) by {
                assert(r[i] == p.1[i]);
            }
            assert forall|i: int| 0 <= i < r.len() implies stmt_has_no_dead_code(#[trigger] r[i]) by {
                if i < p.1.len() {
                    assert(r[i] == p.1[i]);
                }
            }
        }
    }
}

/// Removing dead code from one statement keeps its kind and leaves no dead
/// code in its nested blocks.
pub proof fn lemma_stmt_dead_code_removed(s: StmtV)
    ensures
        stmt_has_no_dead_code(stmt_without_dead_code(s).1),
        ends_block(stmt_without_dead_code(s).1) == ends_block(s),
    decreases s, 0nat,
{
    match s {
        StmtV::IfStatement { condition, on_true, on_false, span } => {
            lemma_dead_code_removed(on_true);
            lemma_dead_code_removed(on_false);
        },
        StmtV::LoopStatement { condition, body, iterate, span } => {
            lemma_dead_code_removed(body);
            lemma_dead_code_removed(iterate);
        },
        StmtV::ScopeStatement { body, span } => {
            lemma_dead_code_removed(body);
        },
        _ => {},
    }
}

} // verus!
