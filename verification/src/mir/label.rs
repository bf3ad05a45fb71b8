//! Resolving jumps of flattened function bodies to the positions of their
//! labels.

use super::view::{lemma_stmts_view_index, stmts_view, StmtV};
use super::{MIRFunction, MIRProgram, MIRStatement};
use vstd::prelude::*;

verus! {

/// The position of the last label named `name` in a flat body.
pub open spec fn last_label(b: Seq<StmtV>, name: Seq<char>) -> Option<int>
    decreases b.len(),
{
    if b.len() == 0 {
        None
    } else if b.last() matches StmtV::Label { name: n, .. } && n == name {
        Some(b.len() - 1)
    } else {
        last_label(b.drop_last(), name)
    }
}

/// The name a jump goes to.
pub open spec fn jump_target(s: StmtV) -> Option<Seq<char>> {
    match s {
        StmtV::Goto { name, .. } => Some(name),
        StmtV::GotoNotEqual { name, .. } => Some(name),
        _ => None,
    }
}

/// Every jump of a flat body names a label of the body.
pub open spec fn jumps_resolvable(b: Seq<StmtV>) -> bool {
    forall|i: int|
        0 <= i < b.len() && #[trigger] jump_target(b[i]) is Some ==> last_label(
            b,
            jump_target(b[i])->0,
        ) is Some
}

/// A statement of the body `b` with its jump resolved to the position of the
/// last label of that name; other statements stay as they are.
pub open spec fn resolve_jump(b: Seq<StmtV>, s: StmtV) -> StmtV {
    match s {
        StmtV::Goto { name, index: _, span } => StmtV::Goto {
            name,
            index: Some(last_label(b, name)->0 as usize),
            span,
        },
        StmtV::GotoNotEqual { name, index: _, condition, span } => StmtV::GotoNotEqual {
            name,
            index: Some(last_label(b, name)->0 as usize),
            condition,
            span,
        },
        _ => s,
    }
}

/// The last label of a name is a label of that name, and no later label
/// has that name.
pub proof fn lemma_last_label(b: Seq<StmtV>, name: Seq<char>)
    ensures
        last_label(b, name) matches Some(j) ==> 0 <= j < b.len() && (b[j] matches StmtV::Label {
            name: n,
            ..
        } && n == name),
        last_label(b, name) matches Some(j) ==> forall|k: int|
            j < k < b.len() ==> !(#[trigger] b[k] matches StmtV::Label { name: n, .. } && n == name),
        last_label(b, name) is None ==> forall|k: int|
            0 <= k < b.len() ==> !(#[trigger] b[k] matches StmtV::Label { name: n, .. } && n == name),
    decreases b.len(),
{
    if b.len() > 0 {
        lemma_last_label(b.drop_last(), name);
        assert forall|k: int| 0 <= k < b.len() - 1 implies #[trigger] b[k] == b.drop_last()[k] by {}
    }
}

/// Whether a statement is the label `name`.
fn is_label_named(s: &MIRStatement, name: &String) -> (res: bool)
    ensures
        res == (s@ matches StmtV::Label { name: n, .. } && n == name@),
{
    match s {
        MIRStatement::Label { name: n, .. } => n.eq(name),
        _ => false,
    }
}

/// Finds the position of the last label named `name`.
fn find_last_label(b: &Vec<MIRStatement>, name: &String) -> (res: Option<usize>)
    ensures
        match (res, last_label(stmts_view(b@), name@)) {
            (Some(i), Some(j)) => i == j,
            (None, None) => true,
            _ => false,
        },
{
    let ghost bv = stmts_view(b@);
    proof {
        lemma_stmts_view_index(b@);
        lemma_last_label(bv, name@);
    }
    let mut i = b.len();
    while i > 0
        invariant
            i <= b@.len(),
            bv == stmts_view(b@),
            bv.len() == b@.len(),
            forall|j: int| 0 <= j < bv.len() ==> #[trigger] bv[j] == b@[j]@,
            forall|k: int|
                i <= k < bv.len() ==> !(#[trigger] bv[k] matches StmtV::Label { name: n, .. } && n
                    == name@),
        decreases i,
    {
        i = i - 1;
        if is_label_named(&b[i], name) {
            proof {
                lemma_last_label(bv, name@);
                if last_label(bv, name@) is None {
                    assert(false);
                }
                let j = last_label(bv, name@)->0;
                if j < i {
                    assert(bv[i as int] matches StmtV::Label { name: n, .. } && n == name@);
                }
            }
            return Some(i);
        }
    }
    proof {
        lemma_last_label(bv, name@);
        if last_label(bv, name@) is Some {
            let j = last_label(bv, name@)->0;
            assert(bv[j] matches StmtV::Label { name: n, .. } && n == name@);
        }
    }
    None
}

/// Stores in every jump of a flat function body the position of the label
/// it names (the last label of that name), so that a jump can go there
/// directly. Nothing else changes.
pub fn label_to_index_body(body: Vec<MIRStatement>) -> (res: Vec<MIRStatement>)
    requires
        jumps_resolvable(stmts_view(body@)),
    ensures
        stmts_view(res@) == stmts_view(body@).map_values(
            |s: StmtV| resolve_jump(stmts_view(body@), s),
        ),
{
    let ghost bv = stmts_view(body@);
    proof {
        lemma_stmts_view_index(body@);
    }
    let n = body.len();
    let mut targets: Vec<Option<usize>> = Vec::new();
    let mut i: usize = 0;
    while i < n
        invariant
            i <= n,
            n == body@.len(),
            bv == stmts_view(body@),
            bv.len() == n,
            forall|j: int| 0 <= j < n ==> #[trigger] bv[j] == body@[j]@,
            jumps_resolvable(bv),
            targets@.len() == i,
            forall|j: int|
                0 <= j < i ==> (#[trigger] targets@[j]) == match jump_target(bv[j]) {
                    Some(name) => Some(last_label(bv, name)->0 as usize),
                    None => None::<usize>,
                },
        decreases n - i,
    {
        let t = match &body[i] {
            MIRStatement::Goto { name, .. } | MIRStatement::GotoNotEqual { name, .. } => {
                assert(jump_target(bv[i as int]) == Some(name@));
                match find_last_label(&body, name) {
                    Some(j) => Some(j),
                    None => {
                        proof {
                            assert(last_label(bv, name@) is Some);
                        }
                        None
                    },
                }
            },
            _ => None,
        };
        targets.push(t);
        i = i + 1;
    }
    let mut rest = body;
    let mut out: Vec<MIRStatement> = Vec::new();
    let mut k: usize = 0;
    while k < n
        invariant
            k <= n,
            n == bv.len(),
            targets@.len() == n,
            rest@.len() == n - k,
            forall|j: int| 0 <= j < rest@.len() ==> (#[trigger] rest@[j])@ == bv[j + k],
            forall|j: int|
                0 <= j < n ==> (#[trigger] targets@[j]) == match jump_target(bv[j]) {
                    Some(name) => Some(last_label(bv, name)->0 as usize),
                    None => None::<usize>,
                },
            out@.len() == k,
            forall|j: int| 0 <= j < k ==> (#[trigger] out@[j])@ == resolve_jump(bv, bv[j]),
        decreases n - k,
    {
        let ghost before = rest@;
        let s = rest.remove(0);
        assert(s@ == bv[k as int]);
        assert forall|j: int| 0 <= j < rest@.len() implies (#[trigger] rest@[j])@ == bv[j + k + 1] by {
            assert(rest@[j] == before[j + 1]);
        }
        let t = targets[k];
        let s2 = match s {
            MIRStatement::Goto { name, index: _, span } => MIRStatement::Goto { name, index: t, span },
            MIRStatement::GotoNotEqual { name, index: _, condition, span } => MIRStatement::GotoNotEqual {
                name,
                index: t,
                condition,
                span,
            },
            other => other,
        };
        out.push(s2);
        k = k + 1;
    }
    proof {
        lemma_stmts_view_index(out@);
        assert(stmts_view(out@) =~= bv.map_values(|s: StmtV| resolve_jump(bv, s)));
    }
    out
}

/// [`label_to_index_body`] for every function of a program.
pub fn label_to_index(program: &mut MIRProgram)
    requires
        forall|i: int|
            0 <= i < old(program).functions@.len() ==> jumps_resolvable(
                stmts_view(#[trigger] old(program).functions@[i].body@),
            ),
    ensures
        final(program).functions@.len() == old(program).functions@.len(),
        forall|i: int|
            0 <= i < old(program).functions@.len() ==> {
                let f = #[trigger] old(program).functions@[i];
                let g = final(program).functions@[i];
                &&& g == (MIRFunction { body: g.body, ..f })
                &&& stmts_view(g.body@) == stmts_view(f.body@).map_values(
                    |s: StmtV| resolve_jump(stmts_view(f.body@), s),
                )
            },
        *final(program) == (MIRProgram { functions: final(program).functions, ..*old(program) }),
{
    let mut fs: Vec<MIRFunction> = Vec::new();
    std::mem::swap(&mut fs, &mut program.functions);
    let ghost orig = fs@;
    let n = fs.len();
    let mut rest = fs;
    let mut out: Vec<MIRFunction> = Vec::new();
    let mut k: usize = 0;
    while k < n
        invariant
            n == orig.len(),
            k <= n,
            rest@ =~= orig.subrange(k as int, n as int),
            forall|i: int| 0 <= i < n ==> jumps_resolvable(stmts_view(#[trigger] orig[i].body@)),
            out@.len() == k,
            forall|i: int|
                0 <= i < k ==> {
                    let f = #[trigger] orig[i];
                    let g = out@[i];
                    &&& g == (MIRFunction { body: g.body, ..f })
                    &&& stmts_view(g.body@) == stmts_view(f.body@).map_values(
                        |s: StmtV| resolve_jump(stmts_view(f.body@), s),
                    )
                },
        decreases n - k,
    {
        let f = rest.remove(0);
        assert(f == orig[k as int]);
        let MIRFunction { name, fn_type, ret_ty, args, args_ty, body, span, extern_import } = f;
        let body2 = label_to_index_body(body);
        out.push(MIRFunction { name, fn_type, ret_ty, args, args_ty, body: body2, span, extern_import });
        k = k + 1;
    }
    program.functions = out;
}

/// After resolving, every jump holds the position of a label with the name
/// the jump goes to.
pub proof fn lemma_jumps_land_on_labels(b: Seq<StmtV>, i: int)
    requires
        b.len() <= usize::MAX,
        jumps_resolvable(b),
        0 <= i < b.len(),
        jump_target(b[i]) is Some,
    ensures
        ({
            let r = b.map_values(|s: StmtV| resolve_jump(b, s));
            let name = jump_target(b[i])->0;
            let j = last_label(b, name)->0;
            &&& 0 <= j < r.len()
            &&& (r[i] matches StmtV::Goto { index: Some(x), .. } && x == j) || (r[i] matches StmtV::GotoNotEqual {
                index: Some(x),
                ..
            } && x == j)
            &&& r[j] matches StmtV::Label { name: n, .. } && n == name
        }),
{
    let name = jump_target(b[i])->0;
    lemma_last_label(b, name);
    let j = last_label(b, name)->0;
    assert((j as usize) as int == j);
}

} // verus!
