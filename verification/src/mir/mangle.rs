//! Mangling names: exported statics and functions, and the local variables
//! of exported functions, get the shortest names that are free.
//!
//! Names are handed out in order from one counter: first to the exported
//! statics, then to the exported functions (the main function keeps its
//! name, which is then taken), and then, for each exported function
//! separately from where the global names stopped, to its local variables
//! in the order in which they are created. Every use follows: variables by
//! index, statics by name, direct calls by the overload they resolve to.

use super::overloads::FunctionOverloads;
use super::type_check::could_match_v;
use super::view::{stmts_view, CallV, ExprV, InnerV, SourceV, StmtV, TypeV, ArgsV, VarV};
use super::{MIRDeclarationKey, MIRFunctionArgs, MIRFunctionKey, MIRProgram, MIRStatic, MIRStaticKey};
use crate::codegen::c::compress::{first_unused, lemma_first_unused, string_views};
use crate::util::name::{lemma_distinct_below, lemma_name_injective, next_name, spec_name_of};
use super::expr::{call_size, expr_size, exprs_size, inner_size, lemma_exprs_size_elems};
use super::overloads::{count_compatible_in, first_compatible_in, spec_args_compatible};
use super::type_check::{copy_args, copy_var, lemma_could_match_view};
use super::copy::copy_block;
use crate::targets::Target;
use super::eq::lemma_types_view_index;
use super::view::{
    exprs_view, lemma_exprs_view_push, lemma_stmts_size_elems, lemma_stmts_view_index,
    lemma_stmts_view_push, stmt_size, stmts_size, types_view,
};
use super::{MIRExpression, MIRExpressionInner, MIRFnCall, MIRFnSource, MIRFunction, MIRStatement, MIRTypeInner, MIRVariable};
use vstd::prelude::*;
use vstd::seq::axiom_seq_len_decreases;

verus! {

/// The state of handing out names: the next number to try, and the names
/// taken.
pub struct NameGen {
    pub num: nat,
    pub used: Seq<Seq<char>>,
}

/// The next free name, and the state after taking it.
pub open spec fn fresh(g: NameGen) -> (Seq<char>, NameGen) {
    let n = first_unused(g.used, g.num, (g.used.len() + 1) as nat);
    (spec_name_of(n), NameGen { num: n + 1, used: g.used.push(spec_name_of(n)) })
}

/// Whether a declaration is emitted.
pub open spec fn exported(p: MIRProgram, k: MIRDeclarationKey) -> bool {
    p.decls@.contains(k)
}

/// New names of the first `k` statics (none for those not exported).
pub open spec fn static_renames(p: MIRProgram, k: nat, g: NameGen) -> (Seq<Option<Seq<char>>>, NameGen)
    decreases k,
{
    if k == 0 {
        (Seq::empty(), g)
    } else {
        let (pre, g1) = static_renames(p, (k - 1) as nat, g);
        if exported(p, MIRDeclarationKey::Static(MIRStaticKey((k - 1) as usize))) {
            let (n, g2) = fresh(g1);
            (pre.push(Some(n)), g2)
        } else {
            (pre.push(None), g1)
        }
    }
}

/// New names of the first `k` functions; the main function keeps its name.
pub open spec fn function_renames(p: MIRProgram, main: Option<Seq<char>>, k: nat, g: NameGen) -> (
    Seq<Option<Seq<char>>>,
    NameGen,
)
    decreases k,
{
    if k == 0 {
        (Seq::empty(), g)
    } else {
        let (pre, g1) = function_renames(p, main, (k - 1) as nat, g);
        if k - 1 < p.functions@.len() && exported(
            p,
            MIRDeclarationKey::Function(MIRFunctionKey((k - 1) as usize)),
        ) {
            let name = p.functions@[k - 1].name@;
            if main == Some(name) {
                (pre.push(Some(name)), NameGen { used: g1.used.push(name), ..g1 })
            } else {
                let (n, g2) = fresh(g1);
                (pre.push(Some(n)), g2)
            }
        } else {
            (pre.push(None), g1)
        }
    }
}

/// The global renames: of statics, of functions, and the state after them.
pub open spec fn global_renames(p: MIRProgram, main: Option<Seq<char>>) -> (
    Seq<Option<Seq<char>>>,
    Seq<Option<Seq<char>>>,
    NameGen,
) {
    let (ss, g1) = static_renames(p, p.statics@.len(), NameGen { num: 0, used: Seq::empty() });
    let (fs, g2) = function_renames(p, main, p.functions@.len(), g1);
    (ss, fs, g2)
}

/// The indices of the variables a block creates, in order, nested blocks
/// after the statement that holds them.
pub open spec fn stmt_creates(s: StmtV) -> Seq<usize>
    decreases s, 0nat,
{
    let own = match s {
        StmtV::CreateVariable { var, .. } => match var.var_idx {
            Some(i) => seq![i],
            None => Seq::empty(),
        },
        _ => Seq::empty(),
    };
    own + match s {
        StmtV::IfStatement { on_true, on_false, .. } => block_creates(on_true) + block_creates(on_false),
        StmtV::LoopStatement { body, iterate, .. } => block_creates(body) + block_creates(iterate),
        StmtV::ScopeStatement { body, .. } => block_creates(body),
        _ => Seq::empty(),
    }
}

pub open spec fn block_creates(b: Seq<StmtV>) -> Seq<usize>
    decreases b, 1nat,
{
    if b.len() == 0 {
        Seq::empty()
    } else {
        proof {
            axiom_seq_len_decreases(b, b.drop_last());
        }
        block_creates(b.drop_last()) + stmt_creates(b.last())
    }
}

/// Fresh names for variable indices, in order.
pub open spec fn var_renames(ids: Seq<usize>, g: NameGen) -> (Seq<(usize, Seq<char>)>, NameGen)
    decreases ids.len(),
{
    if ids.len() == 0 {
        (Seq::empty(), g)
    } else {
        let (pre, g1) = var_renames(ids.drop_last(), g);
        let (n, g2) = fresh(g1);
        (pre.push((ids.last(), n)), g2)
    }
}

/// The new name of variable `i` (the latest given).
pub open spec fn var_rename(vars: Seq<(usize, Seq<char>)>, i: usize) -> Option<Seq<char>>
    decreases vars.len(),
{
    if vars.len() == 0 {
        None
    } else if vars.last().0 == i {
        Some(vars.last().1)
    } else {
        var_rename(vars.drop_last(), i)
    }
}

/// The new name of the static with this old name (the latest given).
pub open spec fn static_rename(p: MIRProgram, ss: Seq<Option<Seq<char>>>, name: Seq<char>, k: nat) -> Option<Seq<char>>
    decreases k,
{
    if k == 0 {
        None
    } else if k - 1 < p.statics@.len() && k - 1 < ss.len() && ss[k - 1] is Some && p.statics@[k - 1].name@ == name {
        ss[k - 1]
    } else {
        static_rename(p, ss, name, (k - 1) as nat)
    }
}

/// Whether an overload with these argument types accepts a call whose
/// arguments have types with these models.
pub open spec fn accepts_v(fa: MIRFunctionArgs, tys: Seq<TypeV>) -> bool {
    let fixed = fa.args@.len();
    &&& if fa.variadic {
        tys.len() >= fixed
    } else {
        tys.len() == fixed
    }
    &&& forall|i: int| 0 <= i < fixed ==> could_match_v((#[trigger] fa.args@[i])@, tys[i])
}

pub open spec fn count_accepting(s: Seq<(MIRFunctionArgs, MIRFunctionKey)>, tys: Seq<TypeV>) -> nat
    decreases s.len(),
{
    if s.len() == 0 {
        0
    } else {
        count_accepting(s.drop_last(), tys) + if accepts_v(s.last().0, tys) {
            1nat
        } else {
            0nat
        }
    }
}

pub open spec fn first_accepting(s: Seq<(MIRFunctionArgs, MIRFunctionKey)>, tys: Seq<TypeV>) -> Option<MIRFunctionKey>
    decreases s.len(),
{
    if s.len() == 0 {
        None
    } else if accepts_v(s[0].0, tys) {
        Some(s[0].1)
    } else {
        first_accepting(s.drop_first(), tys)
    }
}

/// The first overload list with this name.
pub open spec fn overloads_named(p: MIRProgram, name: Seq<char>, k: nat) -> Option<Seq<(MIRFunctionArgs, MIRFunctionKey)>>
    decreases k,
{
    if k == 0 {
        None
    } else {
        match overloads_named(p, name, (k - 1) as nat) {
            Some(o) => Some(o),
            None => if k - 1 < p.function_names@.len() && p.function_names@[k - 1].0@ == name {
                Some(p.function_names@[k - 1].1@)
            } else {
                None
            },
        }
    }
}

/// The new name of the function a direct call resolves to: the only
/// overload of the name that accepts the call's argument types.
pub open spec fn call_rename(p: MIRProgram, fs: Seq<Option<Seq<char>>>, name: Seq<char>, a: ArgsV) -> Option<Seq<char>> {
    match overloads_named(p, name, p.function_names@.len()) {
        Some(ov) => if count_accepting(ov, a.args) == 1 {
            match first_accepting(ov, a.args) {
                Some(k) => if k.0 < fs.len() {
                    fs[k.0 as int]
                } else {
                    None
                },
                None => None,
            }
        } else {
            None
        },
        None => None,
    }
}

/// The renames that apply in one function.
pub struct Renames {
    pub vars: Seq<(usize, Seq<char>)>,
    pub statics: Seq<Option<Seq<char>>>,
    pub fns: Seq<Option<Seq<char>>>,
}

pub open spec fn rn_expr(p: MIRProgram, m: Renames, e: ExprV) -> ExprV
    decreases e, 1nat,
{
    ExprV { inner: rn_inner(p, m, e.inner), ..e }
}

pub open spec fn rn_inner(p: MIRProgram, m: Renames, i: InnerV) -> InnerV
    decreases i, 0nat,
{
    match i {
        InnerV::Variable(n, Some(k)) => match var_rename(m.vars, k) {
            Some(n2) => InnerV::Variable(n2, Some(k)),
            None => i,
        },
        InnerV::Variable(n, None) => match static_rename(p, m.statics, n, p.statics@.len()) {
            Some(n2) => InnerV::Variable(n2, None),
            None => i,
        },
        InnerV::Add(l, r) => InnerV::Add(Box::new(rn_expr(p, m, *l)), Box::new(rn_expr(p, m, *r))),
        InnerV::Sub(l, r) => InnerV::Sub(Box::new(rn_expr(p, m, *l)), Box::new(rn_expr(p, m, *r))),
        InnerV::Mul(l, r) => InnerV::Mul(Box::new(rn_expr(p, m, *l)), Box::new(rn_expr(p, m, *r))),
        InnerV::Div(l, r) => InnerV::Div(Box::new(rn_expr(p, m, *l)), Box::new(rn_expr(p, m, *r))),
        InnerV::Equal(l, r) => InnerV::Equal(Box::new(rn_expr(p, m, *l)), Box::new(rn_expr(p, m, *r))),
        InnerV::NotEqual(l, r) => InnerV::NotEqual(Box::new(rn_expr(p, m, *l)), Box::new(rn_expr(p, m, *r))),
        InnerV::Less(l, r) => InnerV::Less(Box::new(rn_expr(p, m, *l)), Box::new(rn_expr(p, m, *r))),
        InnerV::Greater(l, r) => InnerV::Greater(Box::new(rn_expr(p, m, *l)), Box::new(rn_expr(p, m, *r))),
        InnerV::LessEq(l, r) => InnerV::LessEq(Box::new(rn_expr(p, m, *l)), Box::new(rn_expr(p, m, *r))),
        InnerV::GreaterEq(l, r) => InnerV::GreaterEq(Box::new(rn_expr(p, m, *l)), Box::new(rn_expr(p, m, *r))),
        InnerV::BoolAnd(l, r) => InnerV::BoolAnd(Box::new(rn_expr(p, m, *l)), Box::new(rn_expr(p, m, *r))),
        InnerV::BoolOr(l, r) => InnerV::BoolOr(Box::new(rn_expr(p, m, *l)), Box::new(rn_expr(p, m, *r))),
        InnerV::Index(l, r) => InnerV::Index(Box::new(rn_expr(p, m, *l)), Box::new(rn_expr(p, m, *r))),
        InnerV::Ref(x) => InnerV::Ref(Box::new(rn_expr(p, m, *x))),
        InnerV::Deref(x) => InnerV::Deref(Box::new(rn_expr(p, m, *x))),
        InnerV::Neg(x) => InnerV::Neg(Box::new(rn_expr(p, m, *x))),
        InnerV::Not(x) => InnerV::Not(Box::new(rn_expr(p, m, *x))),
        InnerV::Member(x, f) => InnerV::Member(Box::new(rn_expr(p, m, *x)), f),
        InnerV::Binding(l, x, r) => InnerV::Binding(l, Box::new(rn_expr(p, m, *x)), r),
        InnerV::Ternary(c, t, f) => InnerV::Ternary(
            Box::new(rn_expr(p, m, *c)),
            Box::new(rn_expr(p, m, *t)),
            Box::new(rn_expr(p, m, *f)),
        ),
        InnerV::Array(s) => InnerV::Array(rn_exprs(p, m, s)),
        InnerV::FunctionCall(c) => InnerV::FunctionCall(Box::new(rn_call(p, m, *c))),
        _ => i,
    }
}

pub open spec fn rn_exprs(p: MIRProgram, m: Renames, s: Seq<ExprV>) -> Seq<ExprV>
    decreases s, s.len(),
{
    if s.len() == 0 {
        s
    } else {
        proof {
            axiom_seq_len_decreases(s, s.drop_last());
        }
        rn_exprs(p, m, s.drop_last()).push(rn_expr(p, m, s.last()))
    }
}

pub open spec fn rn_call(p: MIRProgram, m: Renames, c: CallV) -> CallV
    decreases c, 0nat,
{
    CallV {
        source: match c.source {
            SourceV::Indirect(e) => SourceV::Indirect(rn_expr(p, m, e)),
            SourceV::Direct(n, sp) => match c.args_ty {
                Some(a) => match call_rename(p, m.fns, n, a) {
                    Some(n2) => SourceV::Direct(n2, sp),
                    None => c.source,
                },
                None => c.source,
            },
        },
        args: rn_exprs(p, m, c.args),
        ..c
    }
}

pub open spec fn rn_opt(p: MIRProgram, m: Renames, e: Option<ExprV>) -> Option<ExprV> {
    match e {
        Some(x) => Some(rn_expr(p, m, x)),
        None => None,
    }
}

/// A variable with its new name, when it has one.
pub open spec fn rn_var(m: Renames, v: VarV) -> VarV {
    match v.var_idx {
        Some(k) => match var_rename(m.vars, k) {
            Some(n) => VarV { name: n, ..v },
            None => v,
        },
        None => v,
    }
}

pub open spec fn rn_stmt(p: MIRProgram, m: Renames, s: StmtV) -> StmtV
    decreases s, 1nat,
{
    match s {
        StmtV::CreateVariable { var, value, span } => StmtV::CreateVariable {
            var: rn_var(m, var),
            value: rn_opt(p, m, value),
            span,
        },
        StmtV::DropVariable(n, k, span) => StmtV::DropVariable(
            match var_rename(m.vars, k) {
                Some(n2) => n2,
                None => n,
            },
            k,
            span,
        ),
        StmtV::SetVariable { place, value, span } => StmtV::SetVariable {
            place: rn_expr(p, m, place),
            value: rn_expr(p, m, value),
            span,
        },
        StmtV::AddAssign { place, value, span } => StmtV::AddAssign {
            place: rn_expr(p, m, place),
            value: rn_expr(p, m, value),
            span,
        },
        StmtV::SubAssign { place, value, span } => StmtV::SubAssign {
            place: rn_expr(p, m, place),
            value: rn_expr(p, m, value),
            span,
        },
        StmtV::MulAssign { place, value, span } => StmtV::MulAssign {
            place: rn_expr(p, m, place),
            value: rn_expr(p, m, value),
            span,
        },
        StmtV::DivAssign { place, value, span } => StmtV::DivAssign {
            place: rn_expr(p, m, place),
            value: rn_expr(p, m, value),
            span,
        },
        StmtV::IncrementVariable { place, span } => StmtV::IncrementVariable { place: rn_expr(p, m, place), span },
        StmtV::DecrementVariable { place, span } => StmtV::DecrementVariable { place: rn_expr(p, m, place), span },
        StmtV::FunctionCall(c) => StmtV::FunctionCall(rn_call(p, m, c)),
        StmtV::Return { expr, span } => StmtV::Return { expr: rn_opt(p, m, expr), span },
        StmtV::GotoNotEqual { name, index, condition, span } => StmtV::GotoNotEqual {
            name,
            index,
            condition: rn_expr(p, m, condition),
            span,
        },
        StmtV::IfStatement { condition, on_true, on_false, span } => StmtV::IfStatement {
            condition: rn_expr(p, m, condition),
            on_true: rn_block(p, m, on_true),
            on_false: rn_block(p, m, on_false),
            span,
        },
        StmtV::LoopStatement { condition, body, iterate, span } => StmtV::LoopStatement {
            condition: rn_opt(p, m, condition),
            body: rn_block(p, m, body),
            iterate: rn_block(p, m, iterate),
            span,
        },
        StmtV::ScopeStatement { body, span } => StmtV::ScopeStatement { body: rn_block(p, m, body), span },
        _ => s,
    }
}

pub open spec fn rn_block(p: MIRProgram, m: Renames, b: Seq<StmtV>) -> Seq<StmtV>
    decreases b, 2nat,
{
    if b.len() == 0 {
        b
    } else {
        proof {
            axiom_seq_len_decreases(b, b.drop_last());
        }
        rn_block(p, m, b.drop_last()).push(rn_stmt(p, m, b.last()))
    }
}

/// The renames in the exported function with index `k`.
pub open spec fn function_renames_in(p: MIRProgram, main: Option<Seq<char>>, k: int) -> Renames {
    let (ss, fs, g) = global_renames(p, main);
    let body = stmts_view(p.functions@[k].body@);
    Renames { vars: var_renames(block_creates(body), g).0, statics: ss, fns: fs }
}

/// The overload lists rebuilt from the exported functions `0..k`, by new
/// name: each joins the list of its name, or starts one at the end.
pub open spec fn rebuilt_overloads(p: MIRProgram, fs: Seq<Option<Seq<char>>>, k: nat) -> Seq<(Seq<char>, Seq<(ArgsV, MIRFunctionKey)>)>
    decreases k,
{
    if k == 0 {
        Seq::empty()
    } else {
        let pre = rebuilt_overloads(p, fs, (k - 1) as nat);
        if k - 1 < p.functions@.len() && k - 1 < fs.len() && fs[k - 1] is Some {
            let name = fs[k - 1]->0;
            let entry = (p.functions@[k - 1].args_ty@, MIRFunctionKey((k - 1) as usize));
            match first_entry(pre, name) {
                Some(j) => pre.update(j as int, (name, pre[j as int].1.push(entry))),
                None => pre.push((name, seq![entry])),
            }
        } else {
            pre
        }
    }
}

/// The first entry with this name.
pub open spec fn first_entry(s: Seq<(Seq<char>, Seq<(ArgsV, MIRFunctionKey)>)>, name: Seq<char>) -> Option<nat>
    decreases s.len(),
{
    if s.len() == 0 {
        None
    } else {
        match first_entry(s.drop_last(), name) {
            Some(j) => Some(j),
            None => if s.last().0 == name {
                Some((s.len() - 1) as nat)
            } else {
                None
            },
        }
    }
}

/// The model of a list of overload lists.
pub open spec fn overloads_model(v: Seq<(String, FunctionOverloads)>) -> Seq<(Seq<char>, Seq<(ArgsV, MIRFunctionKey)>)> {
    v.map_values(
        |e: (String, FunctionOverloads)|
            (e.0@, e.1@.map_values(|o: (MIRFunctionArgs, MIRFunctionKey)| (o.0@, o.1))),
    )
}

// ---------------------------------------------------------------------------
// Executable side
// ---------------------------------------------------------------------------

/// The renames of one function, as values.
pub struct RenamesExec {
    pub vars: Vec<(usize, String)>,
    pub statics: Vec<Option<String>>,
    pub fns: Vec<Option<String>>,
}

pub open spec fn opt_names(v: Seq<Option<String>>) -> Seq<Option<Seq<char>>> {
    v.map_values(|o: Option<String>| match o {
        Some(s) => Some(s@),
        None => None,
    })
}

/// The model of a list of variable renames.
pub open spec fn pairs_view(v: Seq<(usize, String)>) -> Seq<(usize, Seq<char>)> {
    v.map_values(|x: (usize, String)| (x.0, x.1@))
}

pub open spec fn renames_view(m: RenamesExec) -> Renames {
    Renames {
        vars: pairs_view(m.vars@),
        statics: opt_names(m.statics@),
        fns: opt_names(m.fns@),
    }
}

fn lookup_var_name(m: &RenamesExec, k: usize) -> (res: Option<String>)
    ensures
        match (res, var_rename(renames_view(*m).vars, k)) {
            (Some(x), Some(y)) => x@ == y,
            (None, None) => true,
            _ => false,
        },
{
    let ghost vv = renames_view(*m).vars;
    let mut i = m.vars.len();
    assert(vv.take(i as int) =~= vv);
    while i > 0
        invariant
            i <= m.vars@.len(),
            vv == renames_view(*m).vars,
            var_rename(vv, k) == var_rename(vv.take(i as int), k),
        decreases i,
    {
        assert(vv.take(i as int).drop_last() =~= vv.take(i - 1));
        assert(vv.take(i as int).last() == (m.vars@[i - 1].0, m.vars@[i - 1].1@));
        if m.vars[i - 1].0 == k {
            return Some(m.vars[i - 1].1.clone());
        }
        i = i - 1;
    }
    None
}

fn lookup_static_name(p: &MIRProgram, m: &RenamesExec, name: &String) -> (res: Option<String>)
    ensures
        match (res, static_rename(*p, renames_view(*m).statics, name@, p.statics@.len())) {
            (Some(x), Some(y)) => x@ == y,
            (None, None) => true,
            _ => false,
        },
{
    let ghost ss = renames_view(*m).statics;
    let mut k = p.statics.len();
    while k > 0
        invariant
            k <= p.statics@.len(),
            ss == renames_view(*m).statics,
            static_rename(*p, ss, name@, p.statics@.len()) == static_rename(*p, ss, name@, k as nat),
        decreases k,
    {
        if k - 1 < m.statics.len() {
            match &m.statics[k - 1] {
                Some(n2) => {
                    if p.statics[k - 1].name.eq(name) {
                        return Some(n2.clone());
                    }
                },
                None => {},
            }
        }
        k = k - 1;
    }
    None
}

proof fn lemma_accepting_views(s: Seq<(MIRFunctionArgs, MIRFunctionKey)>, a: Seq<MIRTypeInner>)
    ensures
        count_compatible_in(s, a) == count_accepting(s, types_view(a)),
        first_compatible_in(s, a) == first_accepting(s, types_view(a)),
    decreases s.len(),
{
    lemma_types_view_index(a);
    assert forall|fa: MIRFunctionArgs| spec_args_compatible(fa, a) == accepts_v(fa, types_view(a)) by {
        assert forall|i: int| 0 <= i < fa.args@.len() && i < a.len() implies super::types::spec_types_could_match(
            #[trigger] fa.args@[i],
            a[i],
        ) == could_match_v(fa.args@[i]@, types_view(a)[i]) by {
            lemma_could_match_view(fa.args@[i], a[i]);
        }
    }
    if s.len() > 0 {
        lemma_accepting_views(s.drop_last(), a);
        lemma_accepting_views(s.drop_first(), a);
    }
}

fn find_overloads_named(p: &MIRProgram, name: &String) -> (res: Option<usize>)
    ensures
        match res {
            Some(i) => i < p.function_names@.len() && overloads_named(*p, name@, p.function_names@.len())
                == Some(p.function_names@[i as int].1@),
            None => overloads_named(*p, name@, p.function_names@.len()) is None,
        },
{
    let mut i: usize = 0;
    while i < p.function_names.len()
        invariant
            i <= p.function_names@.len(),
            overloads_named(*p, name@, i as nat) is None,
        decreases p.function_names@.len() - i,
    {
        if p.function_names[i].0.eq(name) {
            proof {
                lemma_overloads_named_found(*p, name@, i as nat + 1, p.function_names@.len());
            }
            return Some(i);
        }
        i = i + 1;
    }
    None
}

proof fn lemma_overloads_named_found(p: MIRProgram, name: Seq<char>, k: nat, n: nat)
    requires
        k <= n,
        overloads_named(p, name, k) is Some,
    ensures
        overloads_named(p, name, n) == overloads_named(p, name, k),
    decreases n - k,
{
    if k < n {
        lemma_overloads_named_found(p, name, k, (n - 1) as nat);
    }
}

fn call_rename_exec(p: &MIRProgram, m: &RenamesExec, name: &String, a: &MIRFunctionArgs) -> (res: Option<String>)
    ensures
        match (res, call_rename(*p, renames_view(*m).fns, name@, a@)) {
            (Some(x), Some(y)) => x@ == y,
            (None, None) => true,
            _ => false,
        },
{
    match find_overloads_named(p, name) {
        Some(i) => {
            let ov = &p.function_names[i].1;
            proof {
                lemma_accepting_views(ov@, a.args@);
            }
            match ov.find_compatible(a.args.as_slice()) {
                Some(k) => {
                    if k.0 < m.fns.len() {
                        match &m.fns[k.0] {
                            Some(n) => Some(n.clone()),
                            None => None,
                        }
                    } else {
                        None
                    }
                },
                None => None,
            }
        },
        None => None,
    }
}

fn rn_owned(p: &MIRProgram, m: &RenamesExec, e: MIRExpression) -> (res: MIRExpression)
    ensures
        res@ == rn_expr(*p, renames_view(*m), e@),
    decreases expr_size(e), 2nat,
{
    let MIRExpression { inner, ty, span } = e;
    MIRExpression { inner: rn_inner_exec(p, m, inner), ty, span }
}

fn rn_box(p: &MIRProgram, m: &RenamesExec, x: Box<MIRExpression>) -> (res: Box<MIRExpression>)
    ensures
        (*res)@ == rn_expr(*p, renames_view(*m), (*x)@),
    decreases expr_size(*x), 3nat,
{
    Box::new(rn_owned(p, m, *x))
}

fn rn_variable(p: &MIRProgram, m: &RenamesExec, n: String, k: Option<usize>) -> (res: MIRExpressionInner)
    ensures
        res@ == rn_inner(*p, renames_view(*m), MIRExpressionInner::Variable(n, k)@),
{
    match k {
        Some(k) => match lookup_var_name(m, k) {
            Some(n2) => MIRExpressionInner::Variable(n2, Some(k)),
            None => MIRExpressionInner::Variable(n, Some(k)),
        },
        None => match lookup_static_name(p, m, &n) {
            Some(n2) => MIRExpressionInner::Variable(n2, None),
            None => MIRExpressionInner::Variable(n, None),
        },
    }
}

#[verifier::spinoff_prover]
#[verifier::rlimit(40)]
fn rn_inner_exec(p: &MIRProgram, m: &RenamesExec, i: MIRExpressionInner) -> (res: MIRExpressionInner)
    ensures
        res@ == rn_inner(*p, renames_view(*m), i@),
    decreases inner_size(i), 1nat,
{
    match i {
        MIRExpressionInner::Variable(n, k) => rn_variable(p, m, n, k),
        MIRExpressionInner::Add(l, r) => MIRExpressionInner::Add(rn_box(p, m, l), rn_box(p, m, r)),
        MIRExpressionInner::Sub(l, r) => MIRExpressionInner::Sub(rn_box(p, m, l), rn_box(p, m, r)),
        MIRExpressionInner::Mul(l, r) => MIRExpressionInner::Mul(rn_box(p, m, l), rn_box(p, m, r)),
        MIRExpressionInner::Div(l, r) => MIRExpressionInner::Div(rn_box(p, m, l), rn_box(p, m, r)),
        MIRExpressionInner::Equal(l, r) => MIRExpressionInner::Equal(rn_box(p, m, l), rn_box(p, m, r)),
        MIRExpressionInner::NotEqual(l, r) => MIRExpressionInner::NotEqual(rn_box(p, m, l), rn_box(p, m, r)),
        MIRExpressionInner::Less(l, r) => MIRExpressionInner::Less(rn_box(p, m, l), rn_box(p, m, r)),
        MIRExpressionInner::Greater(l, r) => MIRExpressionInner::Greater(rn_box(p, m, l), rn_box(p, m, r)),
        MIRExpressionInner::LessEq(l, r) => MIRExpressionInner::LessEq(rn_box(p, m, l), rn_box(p, m, r)),
        MIRExpressionInner::GreaterEq(l, r) => MIRExpressionInner::GreaterEq(rn_box(p, m, l), rn_box(p, m, r)),
        MIRExpressionInner::BoolAnd(l, r) => MIRExpressionInner::BoolAnd(rn_box(p, m, l), rn_box(p, m, r)),
        MIRExpressionInner::BoolOr(l, r) => MIRExpressionInner::BoolOr(rn_box(p, m, l), rn_box(p, m, r)),
        MIRExpressionInner::Index(l, r) => MIRExpressionInner::Index(rn_box(p, m, l), rn_box(p, m, r)),
        MIRExpressionInner::Ref(x) => MIRExpressionInner::Ref(rn_box(p, m, x)),
        MIRExpressionInner::Deref(x) => MIRExpressionInner::Deref(rn_box(p, m, x)),
        MIRExpressionInner::Neg(x) => MIRExpressionInner::Neg(rn_box(p, m, x)),
        MIRExpressionInner::Not(x) => MIRExpressionInner::Not(rn_box(p, m, x)),
        MIRExpressionInner::Member(x, f) => MIRExpressionInner::Member(rn_box(p, m, x), f),
        MIRExpressionInner::Binding(l, x, r) => MIRExpressionInner::Binding(l, rn_box(p, m, x), r),
        MIRExpressionInner::Ternary(c, t, f) => MIRExpressionInner::Ternary(
            rn_box(p, m, c),
            rn_box(p, m, t),
            rn_box(p, m, f),
        ),
        MIRExpressionInner::Array(v) => MIRExpressionInner::Array(rn_vec(p, m, v)),
        MIRExpressionInner::FunctionCall(c) => MIRExpressionInner::FunctionCall(Box::new(rn_call_exec(p, m, *c))),
        other => other,
    }
}

fn rn_vec(p: &MIRProgram, m: &RenamesExec, v: Vec<MIRExpression>) -> (res: Vec<MIRExpression>)
    ensures
        exprs_view(res@) == rn_exprs(*p, renames_view(*m), exprs_view(v@)),
    decreases exprs_size(v@), 0nat,
{
    let ghost orig = v@;
    let ghost t = renames_view(*m);
    proof {
        lemma_exprs_size_elems(orig);
        assert(orig.take(0) =~= Seq::<MIRExpression>::empty());
        assert(exprs_view(Seq::<MIRExpression>::empty()) =~= Seq::<ExprV>::empty());
    }
    let n = v.len();
    let mut rest = v;
    let mut out: Vec<MIRExpression> = Vec::new();
    let mut k: usize = 0;
    while k < n
        invariant
            n == orig.len(),
            k <= n,
            t == renames_view(*m),
            rest@ =~= orig.subrange(k as int, n as int),
            exprs_view(out@) == rn_exprs(*p, t, exprs_view(orig.take(k as int))),
            forall|i: int| 0 <= i < orig.len() ==> expr_size(#[trigger] orig[i]) < exprs_size(orig),
            exprs_size(orig) == exprs_size(v@),
        decreases n - k,
    {
        let x = rest.remove(0);
        assert(x == orig[k as int]);
        assert(expr_size(x) < exprs_size(v@));
        proof {
            assert(orig.take(k as int + 1) =~= orig.take(k as int).push(x));
            lemma_exprs_view_push(orig.take(k as int), x);
            assert(exprs_view(orig.take(k as int + 1)).drop_last() =~= exprs_view(orig.take(k as int)));
        }
        let y = rn_owned(p, m, x);
        proof {
            lemma_exprs_view_push(out@, y);
        }
        out.push(y);
        k = k + 1;
    }
    assert(orig.take(n as int) =~= orig);
    out
}

fn rn_call_exec(p: &MIRProgram, m: &RenamesExec, c: MIRFnCall) -> (res: MIRFnCall)
    ensures
        res@ == rn_call(*p, renames_view(*m), c@),
    decreases call_size(c), 0nat,
{
    let MIRFnCall { source, args, args_ty, ret_ty, span } = c;
    let source2 = match source {
        MIRFnSource::Indirect(e) => MIRFnSource::Indirect(rn_owned(p, m, e)),
        MIRFnSource::Direct(n, sp) => {
            let found = match &args_ty {
                Some(a) => call_rename_exec(p, m, &n, a),
                None => None,
            };
            match found {
                Some(n2) => MIRFnSource::Direct(n2, sp),
                None => MIRFnSource::Direct(n, sp),
            }
        },
    };
    MIRFnCall { source: source2, args: rn_vec(p, m, args), args_ty, ret_ty, span }
}

fn rn_opt_exec(p: &MIRProgram, m: &RenamesExec, e: Option<MIRExpression>) -> (res: Option<MIRExpression>)
    ensures
        super::view::opt_expr_view(res) == rn_opt(*p, renames_view(*m), super::view::opt_expr_view(e)),
{
    match e {
        Some(x) => Some(rn_owned(p, m, x)),
        None => None,
    }
}

fn rn_var_exec(m: &RenamesExec, v: MIRVariable) -> (res: MIRVariable)
    ensures
        res@ == rn_var(renames_view(*m), v@),
{
    match v.var_idx {
        Some(k) => match lookup_var_name(m, k) {
            Some(n) => MIRVariable { name: n, ..v },
            None => v,
        },
        None => v,
    }
}

#[verifier::spinoff_prover]
fn rn_stmt_exec(p: &MIRProgram, m: &RenamesExec, s: MIRStatement) -> (res: MIRStatement)
    ensures
        res@ == rn_stmt(*p, renames_view(*m), s@),
    decreases stmt_size(s), 1nat,
{
    match s {
        MIRStatement::CreateVariable { var, value, span } => MIRStatement::CreateVariable {
            var: rn_var_exec(m, var),
            value: rn_opt_exec(p, m, value),
            span,
        },
        MIRStatement::DropVariable(n, k, span) => match lookup_var_name(m, k) {
            Some(n2) => MIRStatement::DropVariable(n2, k, span),
            None => MIRStatement::DropVariable(n, k, span),
        },
        MIRStatement::SetVariable { place, value, span } => MIRStatement::SetVariable {
            place: rn_owned(p, m, place),
            value: rn_owned(p, m, value),
            span,
        },
        MIRStatement::AddAssign { place, value, span } => MIRStatement::AddAssign {
            place: rn_owned(p, m, place),
            value: rn_owned(p, m, value),
            span,
        },
        MIRStatement::SubAssign { place, value, span } => MIRStatement::SubAssign {
            place: rn_owned(p, m, place),
            value: rn_owned(p, m, value),
            span,
        },
        MIRStatement::MulAssign { place, value, span } => MIRStatement::MulAssign {
            place: rn_owned(p, m, place),
            value: rn_owned(p, m, value),
            span,
        },
        MIRStatement::DivAssign { place, value, span } => MIRStatement::DivAssign {
            place: rn_owned(p, m, place),
            value: rn_owned(p, m, value),
            span,
        },
        MIRStatement::IncrementVariable { place, span } => MIRStatement::IncrementVariable {
            place: rn_owned(p, m, place),
            span,
        },
        MIRStatement::DecrementVariable { place, span } => MIRStatement::DecrementVariable {
            place: rn_owned(p, m, place),
            span,
        },
        MIRStatement::FunctionCall(c) => MIRStatement::FunctionCall(rn_call_exec(p, m, c)),
        MIRStatement::Return { expr, span } => MIRStatement::Return { expr: rn_opt_exec(p, m, expr), span },
        MIRStatement::GotoNotEqual { name, index, condition, span } => MIRStatement::GotoNotEqual {
            name,
            index,
            condition: rn_owned(p, m, condition),
            span,
        },
        MIRStatement::IfStatement { condition, on_true, on_false, span } => {
            proof {
                lemma_stmts_size_elems(on_true@);
            }
            MIRStatement::IfStatement {
                condition: rn_owned(p, m, condition),
                on_true: rn_block_exec(p, m, on_true),
                on_false: rn_block_exec(p, m, on_false),
                span,
            }
        },
        MIRStatement::LoopStatement { condition, body, iterate, span } => MIRStatement::LoopStatement {
            condition: rn_opt_exec(p, m, condition),
            body: rn_block_exec(p, m, body),
            iterate: rn_block_exec(p, m, iterate),
            span,
        },
        MIRStatement::ScopeStatement { body, span } => MIRStatement::ScopeStatement {
            body: rn_block_exec(p, m, body),
            span,
        },
        other => other,
    }
}

fn rn_block_exec(p: &MIRProgram, m: &RenamesExec, v: Vec<MIRStatement>) -> (res: Vec<MIRStatement>)
    ensures
        stmts_view(res@) == rn_block(*p, renames_view(*m), stmts_view(v@)),
    decreases stmts_size(v@), 2nat,
{
    let ghost orig = v@;
    let ghost bv = stmts_view(v@);
    let ghost t = renames_view(*m);
    proof {
        lemma_stmts_size_elems(orig);
        lemma_stmts_view_index(orig);
        assert(bv.take(0) =~= Seq::<StmtV>::empty());
        assert(stmts_view(Seq::<MIRStatement>::empty()) =~= Seq::<StmtV>::empty());
    }
    let n = v.len();
    let mut rest = v;
    let mut out: Vec<MIRStatement> = Vec::new();
    let mut k: usize = 0;
    while k < n
        invariant
            n == orig.len(),
            k <= n,
            bv == stmts_view(orig),
            bv.len() == n,
            t == renames_view(*m),
            forall|j: int| 0 <= j < n ==> #[trigger] bv[j] == orig[j]@,
            rest@ =~= orig.subrange(k as int, n as int),
            stmts_view(out@) == rn_block(*p, t, bv.take(k as int)),
            forall|i: int| 0 <= i < orig.len() ==> stmt_size(#[trigger] orig[i]) < stmts_size(orig),
            stmts_size(orig) == stmts_size(v@),
        decreases n - k,
    {
        let x = rest.remove(0);
        assert(x == orig[k as int]);
        proof {
            assert(bv.take(k as int + 1).drop_last() =~= bv.take(k as int));
            assert(bv.take(k as int + 1).last() == x@);
        }
        let y = rn_stmt_exec(p, m, x);
        proof {
            lemma_stmts_view_push(out@, y);
        }
        out.push(y);
        k = k + 1;
    }
    assert(bv.take(n as int) =~= bv);
    out
}

fn creates_stmt_exec(s: &MIRStatement, out: &mut Vec<usize>)
    ensures
        final(out)@ == old(out)@ + stmt_creates(s@),
    decreases stmt_size(*s), 0nat,
{
    let ghost o = out@;
    match s {
        MIRStatement::CreateVariable { var, .. } => match var.var_idx {
            Some(i) => out.push(i),
            None => {},
        },
        _ => {},
    }
    match s {
        MIRStatement::IfStatement { on_true, on_false, .. } => {
            proof {
                lemma_stmts_size_elems(on_true@);
            }
            creates_block_exec(on_true, out);
            creates_block_exec(on_false, out);
        },
        MIRStatement::LoopStatement { body, iterate, .. } => {
            creates_block_exec(body, out);
            creates_block_exec(iterate, out);
        },
        MIRStatement::ScopeStatement { body, .. } => creates_block_exec(body, out),
        _ => {},
    }
    assert(out@ =~= o + stmt_creates(s@));
}

fn creates_block_exec(b: &Vec<MIRStatement>, out: &mut Vec<usize>)
    ensures
        final(out)@ == old(out)@ + block_creates(stmts_view(b@)),
    decreases stmts_size(b@), 1nat,
{
    let ghost o = out@;
    let ghost bv = stmts_view(b@);
    proof {
        lemma_stmts_size_elems(b@);
        lemma_stmts_view_index(b@);
        assert(bv.take(0) =~= Seq::<StmtV>::empty());
        assert(o + Seq::<usize>::empty() =~= o);
    }
    let mut k: usize = 0;
    while k < b.len()
        invariant
            k <= b@.len(),
            bv == stmts_view(b@),
            bv.len() == b@.len(),
            forall|j: int| 0 <= j < b@.len() ==> #[trigger] bv[j] == b@[j]@,
            out@ == o + block_creates(bv.take(k as int)),
            forall|j: int| 0 <= j < b@.len() ==> stmt_size(#[trigger] b@[j]) < stmts_size(b@),
        decreases b@.len() - k,
    {
        proof {
            assert(bv.take(k as int + 1).drop_last() =~= bv.take(k as int));
            assert(bv.take(k as int + 1).last() == b@[k as int]@);
        }
        creates_stmt_exec(&b[k], out);
        assert(out@ =~= o + block_creates(bv.take(k as int + 1)));
        k = k + 1;
    }
    assert(bv.take(k as int) =~= bv);
}


// ---------------------------------------------------------------------------
// The pass
// ---------------------------------------------------------------------------

/// The naming state held by a counter and a list of taken names.
pub open spec fn gen_view(num: usize, used: Seq<String>) -> NameGen {
    NameGen { num: num as nat, used: string_views(used) }
}

/// The model of an optional name.
pub open spec fn name_view(o: Option<String>) -> Option<Seq<char>> {
    match o {
        Some(s) => Some(s@),
        None => None,
    }
}

/// Room for `extra` more names within `n` names in all, where `n` names
/// keep the counter clear of overflow.
pub open spec fn room(g: NameGen, extra: nat, n: nat) -> bool {
    &&& 2 * g.num <= g.used.len() * (g.used.len() + 3)
    &&& g.used.len() + extra <= n
    &&& (n + 3) * (n + 3) < usize::MAX
}

proof fn lemma_first_unused_bound(used: Seq<Seq<char>>, from: nat, fuel: nat)
    ensures
        from <= first_unused(used, from, fuel) <= from + fuel,
    decreases fuel,
{
    if fuel > 0 {
        lemma_first_unused_bound(used, from + 1, (fuel - 1) as nat);
    }
}

proof fn lemma_room_no_overflow(num: nat, t: nat, n: nat)
    requires
        2 * num <= t * (t + 3),
        t <= n,
        (n + 3) * (n + 3) < usize::MAX,
    ensures
        num + t + 1 < usize::MAX,
{
    assert(t * (t + 3) <= n * (n + 3)) by (nonlinear_arith)
        requires
            t <= n,
    ;
    assert(n * (n + 3) + 2 * n + 2 < 2 * ((n + 3) * (n + 3))) by (nonlinear_arith);
}

proof fn lemma_room_step(num: nat, t: nat, num2: nat)
    requires
        2 * num <= t * (t + 3),
        num2 <= num + t + 2,
    ensures
        2 * num2 <= (t + 1) * (t + 4),
{
    assert((t + 1) * (t + 4) == t * (t + 3) + 2 * t + 4) by (nonlinear_arith);
}

/// Takes the next free name; `None` where the counter could overflow.
fn fresh_exec(num: &mut usize, used: &mut Vec<String>, Ghost(extra): Ghost<nat>, Ghost(n): Ghost<nat>) -> (res:
    Option<String>)
    ensures
        match res {
            Some(x) => (x@, gen_view(*final(num), final(used)@)) == fresh(gen_view(*old(num), old(used)@)),
            None => *old(num) + old(used)@.len() + 1 >= usize::MAX,
        },
        room(gen_view(*old(num), old(used)@), extra + 1, n) ==> res is Some && room(
            gen_view(*final(num), final(used)@),
            extra,
            n,
        ),
{
    proof {
        if room(gen_view(*num, used@), extra + 1, n) {
            lemma_room_no_overflow(*num as nat, used@.len(), n);
        }
    }
    let l = used.len();
    if l >= usize::MAX - 1 || *num >= usize::MAX - 1 - l {
        return None;
    }
    let ghost n0 = *num;
    let ghost u0 = used@;
    let x = next_name(num, used);
    proof {
        lemma_first_unused(u0, n0 as nat, (u0.len() + 1) as nat, *num as nat);
        assert(string_views(u0).len() == u0.len());
        if room(gen_view(n0, u0), extra + 1, n) {
            lemma_room_step(n0 as nat, u0.len(), *num as nat);
        }
    }
    used.push(x.clone());
    proof {
        assert(string_views(used@) =~= string_views(u0).push(x@));
    }
    Some(x)
}

fn is_exported(p: &MIRProgram, k: MIRDeclarationKey) -> (res: bool)
    ensures
        res == exported(*p, k),
{
    let mut i: usize = 0;
    while i < p.decls.len()
        invariant
            i <= p.decls@.len(),
            forall|j: int| 0 <= j < i ==> p.decls@[j] != k,
        decreases p.decls@.len() - i,
    {
        if p.decls[i] == k {
            assert(p.decls@[i as int] == k);
            return true;
        }
        i = i + 1;
    }
    false
}

fn static_names_exec(
    p: &MIRProgram,
    num: &mut usize,
    used: &mut Vec<String>,
    Ghost(extra): Ghost<nat>,
    Ghost(n): Ghost<nat>,
) -> (res: Option<Vec<Option<String>>>)
    ensures
        room(gen_view(*old(num), old(used)@), extra + p.statics@.len(), n) ==> res is Some && room(
            gen_view(*final(num), final(used)@),
            extra,
            n,
        ),
        match res {
            Some(ss) => (opt_names(ss@), gen_view(*final(num), final(used)@)) == static_renames(
                *p,
                p.statics@.len(),
                gen_view(*old(num), old(used)@),
            ),
            None => true,
        },
{
    let ghost g0 = gen_view(*num, used@);
    let mut ss: Vec<Option<String>> = Vec::new();
    assert(opt_names(ss@) =~= Seq::<Option<Seq<char>>>::empty());
    let mut k: usize = 0;
    while k < p.statics.len()
        invariant
            k <= p.statics@.len(),
            g0 == gen_view(*old(num), old(used)@),
            (opt_names(ss@), gen_view(*num, used@)) == static_renames(*p, k as nat, g0),
            room(g0, extra + p.statics@.len(), n) ==> room(
                gen_view(*num, used@),
                (extra + p.statics@.len() - k) as nat,
                n,
            ),
        decreases p.statics@.len() - k,
    {
        let ghost s0 = ss@;
        if is_exported(p, MIRDeclarationKey::Static(MIRStaticKey(k))) {
            match fresh_exec(num, used, Ghost((extra + p.statics@.len() - k - 1) as nat), Ghost(n)) {
                Some(n) => {
                    ss.push(Some(n));
                    assert(opt_names(ss@) =~= opt_names(s0).push(Some(n@)));
                },
                None => return None,
            }
        } else {
            ss.push(None);
            assert(opt_names(ss@) =~= opt_names(s0).push(None));
        }
        k = k + 1;
    }
    Some(ss)
}

fn function_names_exec(
    p: &MIRProgram,
    main: &Option<String>,
    num: &mut usize,
    used: &mut Vec<String>,
    Ghost(extra): Ghost<nat>,
    Ghost(n): Ghost<nat>,
) -> (res: Option<Vec<Option<String>>>)
    ensures
        room(gen_view(*old(num), old(used)@), extra + p.functions@.len(), n) ==> res is Some && room(
            gen_view(*final(num), final(used)@),
            extra,
            n,
        ),
        match res {
            Some(fs) => (opt_names(fs@), gen_view(*final(num), final(used)@)) == function_renames(
                *p,
                name_view(*main),
                p.functions@.len(),
                gen_view(*old(num), old(used)@),
            ),
            None => true,
        },
{
    let ghost g0 = gen_view(*num, used@);
    let mut fs: Vec<Option<String>> = Vec::new();
    assert(opt_names(fs@) =~= Seq::<Option<Seq<char>>>::empty());
    let mut k: usize = 0;
    while k < p.functions.len()
        invariant
            k <= p.functions@.len(),
            g0 == gen_view(*old(num), old(used)@),
            (opt_names(fs@), gen_view(*num, used@)) == function_renames(*p, name_view(*main), k as nat, g0),
            room(g0, extra + p.functions@.len(), n) ==> room(
                gen_view(*num, used@),
                (extra + p.functions@.len() - k) as nat,
                n,
            ),
        decreases p.functions@.len() - k,
    {
        let ghost f0 = fs@;
        let ghost u0 = used@;
        if is_exported(p, MIRDeclarationKey::Function(MIRFunctionKey(k))) {
            let name = &p.functions[k].name;
            let is_main = match main {
                Some(m) => name.eq(m),
                None => false,
            };
            if is_main {
                proof {
                    if room(g0, extra + p.functions@.len(), n) {
                        lemma_room_step(*num as nat, used@.len(), *num as nat);
                    }
                }
                used.push(name.clone());
                fs.push(Some(name.clone()));
                assert(string_views(used@) =~= string_views(u0).push(name@));
                assert(opt_names(fs@) =~= opt_names(f0).push(Some(name@)));
            } else {
                match fresh_exec(num, used, Ghost((extra + p.functions@.len() - k - 1) as nat), Ghost(n)) {
                    Some(x) => {
                        fs.push(Some(x));
                        assert(opt_names(fs@) =~= opt_names(f0).push(Some(x@)));
                    },
                    None => return None,
                }
            }
        } else {
            fs.push(None);
            assert(opt_names(fs@) =~= opt_names(f0).push(None));
        }
        k = k + 1;
    }
    Some(fs)
}

fn var_names_exec(ids: &Vec<usize>, num: &mut usize, used: &mut Vec<String>, Ghost(n): Ghost<nat>) -> (res: Option<
    Vec<(usize, String)>,
>)
    ensures
        room(gen_view(*old(num), old(used)@), ids@.len(), n) ==> res is Some,
        match res {
            Some(vs) => pairs_view(vs@) == var_renames(ids@, gen_view(*old(num), old(used)@)).0,
            None => true,
        },
{
    let ghost g0 = gen_view(*num, used@);
    let mut vs: Vec<(usize, String)> = Vec::new();
    assert(pairs_view(vs@) =~= Seq::<(usize, Seq<char>)>::empty());
    assert(ids@.take(0) =~= Seq::<usize>::empty());
    let mut k: usize = 0;
    while k < ids.len()
        invariant
            k <= ids@.len(),
            g0 == gen_view(*old(num), old(used)@),
            (pairs_view(vs@), gen_view(*num, used@)) == var_renames(ids@.take(k as int), g0),
            room(g0, ids@.len(), n) ==> room(gen_view(*num, used@), (ids@.len() - k) as nat, n),
        decreases ids@.len() - k,
    {
        let ghost v0 = vs@;
        assert(ids@.take(k as int + 1).drop_last() =~= ids@.take(k as int));
        assert(ids@.take(k as int + 1).last() == ids@[k as int]);
        match fresh_exec(num, used, Ghost((ids@.len() - k - 1) as nat), Ghost(n)) {
            Some(x) => {
                vs.push((ids[k], x));
                assert(pairs_view(vs@) =~= pairs_view(v0).push((ids@[k as int], x@)));
            },
            None => return None,
        }
        k = k + 1;
    }
    assert(ids@.take(k as int) =~= ids@);
    Some(vs)
}

fn copy_opt_names(v: &Vec<Option<String>>) -> (res: Vec<Option<String>>)
    ensures
        opt_names(res@) == opt_names(v@),
{
    let mut out: Vec<Option<String>> = Vec::new();
    let mut i: usize = 0;
    while i < v.len()
        invariant
            i <= v@.len(),
            opt_names(out@) =~= opt_names(v@.take(i as int)),
        decreases v@.len() - i,
    {
        let ghost o0 = out@;
        match &v[i] {
            Some(s) => out.push(Some(s.clone())),
            None => out.push(None),
        }
        assert(v@.take(i as int + 1) =~= v@.take(i as int).push(v@[i as int]));
        assert(opt_names(out@) =~= opt_names(o0).push(name_view(v@[i as int])));
        i = i + 1;
    }
    assert(v@.take(i as int) =~= v@);
    out
}

fn copy_strings(v: &Vec<String>) -> (res: Vec<String>)
    ensures
        string_views(res@) == string_views(v@),
{
    let mut out: Vec<String> = Vec::new();
    let mut i: usize = 0;
    while i < v.len()
        invariant
            i <= v@.len(),
            string_views(out@) =~= string_views(v@.take(i as int)),
        decreases v@.len() - i,
    {
        let ghost o0 = out@;
        out.push(v[i].clone());
        assert(v@.take(i as int + 1) =~= v@.take(i as int).push(v@[i as int]));
        assert(string_views(out@) =~= string_views(o0).push(v@[i as int]@));
        i = i + 1;
    }
    assert(v@.take(i as int) =~= v@);
    out
}

/// The renames that apply in function `i`, given the global renames and
/// the naming state after them.
pub open spec fn renames_in(p: MIRProgram, i: int, ss: Seq<Option<Seq<char>>>, fs: Seq<Option<Seq<char>>>, g: NameGen) -> Renames {
    Renames { vars: var_renames(block_creates(stmts_view(p.functions@[i].body@)), g).0, statics: ss, fns: fs }
}

/// The renamed arguments and body of function `i`.
fn renamed_function(
    p: &MIRProgram,
    i: usize,
    ss: &Vec<Option<String>>,
    fs: &Vec<Option<String>>,
    num: usize,
    used: &Vec<String>,
    Ghost(n): Ghost<nat>,
) -> (res: Option<(Vec<MIRVariable>, Vec<MIRStatement>)>)
    requires
        i < p.functions@.len(),
    ensures
        room(gen_view(num, used@), block_creates(stmts_view(p.functions@[i as int].body@)).len(), n) ==> res is Some,
        match res {
            Some((args, body)) => {
                let m = renames_in(*p, i as int, opt_names(ss@), opt_names(fs@), gen_view(num, used@));
                &&& stmts_view(body@) == rn_block(*p, m, stmts_view(p.functions@[i as int].body@))
                &&& args@.len() == p.functions@[i as int].args@.len()
                &&& forall|j: int|
                    0 <= j < args@.len() ==> (#[trigger] args@[j])@ == rn_var(m, p.functions@[i as int].args@[j]@)
            },
            None => true,
        },
{
    let f = &p.functions[i];
    let mut ids: Vec<usize> = Vec::new();
    creates_block_exec(&f.body, &mut ids);
    assert(ids@ =~= block_creates(stmts_view(f.body@)));
    let mut n2 = num;
    let mut u2 = copy_strings(used);
    let vars = match var_names_exec(&ids, &mut n2, &mut u2, Ghost(n)) {
        Some(v) => v,
        None => return None,
    };
    let m = RenamesExec { vars, statics: copy_opt_names(ss), fns: copy_opt_names(fs) };
    assert(renames_view(m) == renames_in(*p, i as int, opt_names(ss@), opt_names(fs@), gen_view(num, used@)));
    let body = rn_block_exec(p, &m, copy_block(&f.body));
    let mut args: Vec<MIRVariable> = Vec::new();
    let mut j: usize = 0;
    while j < f.args.len()
        invariant
            j <= f.args@.len(),
            args@.len() == j,
            forall|t: int| 0 <= t < j ==> (#[trigger] args@[t])@ == rn_var(renames_view(m), f.args@[t]@),
        decreases f.args@.len() - j,
    {
        args.push(rn_var_exec(&m, copy_var(&f.args[j])));
        j = j + 1;
    }
    Some((args, body))
}

/// The first entry with this name, by search.
fn find_entry(out: &Vec<(String, FunctionOverloads)>, name: &String) -> (res: Option<usize>)
    ensures
        match res {
            Some(j) => j < out@.len() && out@[j as int].0@ == name@ && first_entry(overloads_model(out@), name@)
                == Some(j as nat),
            None => first_entry(overloads_model(out@), name@) is None,
        },
{
    let ghost s = overloads_model(out@);
    assert(s.take(0) =~= Seq::<(Seq<char>, Seq<(ArgsV, MIRFunctionKey)>)>::empty());
    let mut i: usize = 0;
    while i < out.len()
        invariant
            i <= out@.len(),
            s == overloads_model(out@),
            s.len() == out@.len(),
            first_entry(s.take(i as int), name@) is None,
        decreases out@.len() - i,
    {
        assert(s.take(i as int + 1).drop_last() =~= s.take(i as int));
        assert(s.take(i as int + 1).last() == s[i as int]);
        assert(s[i as int].0 == out@[i as int].0@);
        if out[i].0.eq(name) {
            proof {
                assert(first_entry(s.take(i as int + 1), name@) == Some(i as nat));
                lemma_first_entry_ext(s, i as nat + 1);
            }
            return Some(i);
        }
        i = i + 1;
    }
    assert(s.take(i as int) =~= s);
    None
}

proof fn lemma_first_entry_ext(s: Seq<(Seq<char>, Seq<(ArgsV, MIRFunctionKey)>)>, k: nat)
    requires
        k <= s.len(),
    ensures
        forall|name: Seq<char>|
            #![trigger first_entry(s.take(k as int), name)]
            first_entry(s.take(k as int), name) is Some ==> first_entry(s, name) == first_entry(s.take(k as int), name),
    decreases s.len() - k,
{
    if k < s.len() {
        lemma_first_entry_ext(s, k + 1);
        assert(s.take(k as int + 1).drop_last() =~= s.take(k as int));
        assert forall|name: Seq<char>| first_entry(s.take(k as int), name) is Some implies first_entry(s, name)
            == first_entry(s.take(k as int), name) by {
            assert(first_entry(s.take(k as int + 1), name) == first_entry(s.take(k as int), name));
        }
    } else {
        assert(s.take(k as int) =~= s);
    }
}

/// Rebuilds the overload lists by new name.
fn rebuild_overloads_exec(p: &MIRProgram, fs: &Vec<Option<String>>) -> (res: Vec<(String, FunctionOverloads)>)
    requires
        fs@.len() == p.functions@.len(),
    ensures
        overloads_model(res@) == rebuilt_overloads(*p, opt_names(fs@), p.functions@.len()),
{
    let ghost fv = opt_names(fs@);
    let mut out: Vec<(String, FunctionOverloads)> = Vec::new();
    assert(overloads_model(out@) =~= Seq::<(Seq<char>, Seq<(ArgsV, MIRFunctionKey)>)>::empty());
    let mut k: usize = 0;
    while k < p.functions.len()
        invariant
            k <= p.functions@.len(),
            fs@.len() == p.functions@.len(),
            fv == opt_names(fs@),
            overloads_model(out@) == rebuilt_overloads(*p, fv, k as nat),
        decreases p.functions@.len() - k,
    {
        let ghost pre = overloads_model(out@);
        match &fs[k] {
            Some(name) => {
                assert(fv[k as int] == Some(name@));
                let ghost entry = (p.functions@[k as int].args_ty@, MIRFunctionKey(k));
                let a = copy_args(&p.functions[k].args_ty);
                match find_entry(&out, name) {
                    Some(j) => {
                        let mut e = out.remove(j);
                        let ghost e0 = e;
                        e.1.push(a, MIRFunctionKey(k));
                        out.insert(j, e);
                        assert(e.1@.map_values(|o: (MIRFunctionArgs, MIRFunctionKey)| (o.0@, o.1))
                            =~= e0.1@.map_values(|o: (MIRFunctionArgs, MIRFunctionKey)| (o.0@, o.1)).push(entry));
                        assert(overloads_model(out@) =~= pre.update(j as int, (name@, pre[j as int].1.push(entry))));
                    },
                    None => {
                        let mut o = FunctionOverloads::new();
                        o.push(a, MIRFunctionKey(k));
                        out.push((name.clone(), o));
                        assert(o@.map_values(|o: (MIRFunctionArgs, MIRFunctionKey)| (o.0@, o.1)) =~= seq![entry]);
                        assert(overloads_model(out@) =~= pre.push((name@, seq![entry])));
                    },
                }
            },
            None => {
                assert(fv[k as int] is None);
            },
        }
        k = k + 1;
    }
    out
}

/// What mangling makes of a program: the exported statics and functions
/// carry their new names, the bodies and arguments of exported functions
/// are renamed, and the overload lists are rebuilt by new name.
pub open spec fn mangled(before: MIRProgram, after: MIRProgram, main: Option<Seq<char>>) -> bool {
    let (ss, fs, g) = global_renames(before, main);
    &&& after.statics@.len() == before.statics@.len()
    &&& forall|i: int|
        0 <= i < before.statics@.len() ==> match #[trigger] ss[i] {
            Some(n) => after.statics@[i].name@ == n && after.statics@[i] == (MIRStatic { name: after.statics@[i].name, ..before.statics@[i] }),
            None => after.statics@[i] == before.statics@[i],
        }
    &&& after.functions@.len() == before.functions@.len()
    &&& forall|i: int|
        0 <= i < before.functions@.len() ==> match #[trigger] fs[i] {
            Some(n) => {
                let m = function_renames_in(before, main, i);
                let f = after.functions@[i];
                &&& f.name@ == n
                &&& stmts_view(f.body@) == rn_block(before, m, stmts_view(before.functions@[i].body@))
                &&& f.args@.len() == before.functions@[i].args@.len()
                &&& forall|j: int| 0 <= j < f.args@.len() ==> (#[trigger] f.args@[j])@ == rn_var(m, before.functions@[i].args@[j]@)
                &&& f == (MIRFunction { name: f.name, args: f.args, body: f.body, ..before.functions@[i] })
            },
            None => after.functions@[i] == before.functions@[i],
        }
    &&& overloads_model(after.function_names@) == rebuilt_overloads(before, fs, before.functions@.len())
    &&& after == (MIRProgram { statics: after.statics, functions: after.functions, function_names: after.function_names, ..before })
}

/// Whether no function creates more than `v` variables, and the names of
/// all statics and functions and `v` variables are few enough that the
/// name counter cannot overflow.
pub open spec fn names_fit(p: MIRProgram, v: nat) -> bool {
    &&& forall|i: int|
        0 <= i < p.functions@.len() ==> block_creates(stmts_view(#[trigger] p.functions@[i].body@)).len() <= v
    &&& (p.statics@.len() + p.functions@.len() + v + 3) * (p.statics@.len() + p.functions@.len() + v + 3) < usize::MAX
}

/// Mangles the names of the exported statics and functions and of the
/// local variables of exported functions (see the module's description).
/// Returns false, with the program unchanged, only where the name counter
/// could overflow.
pub fn mangle_names<T: Target>(program: &mut MIRProgram, target: &T) -> (res: bool)
    ensures
        res ==> mangled(*old(program), *final(program), target.spec_main()),
        !res ==> *final(program) == *old(program),
        (exists|v: nat| names_fit(*old(program), v)) ==> res,
{
    let ghost v: nat = choose|v: nat| names_fit(*program, v);
    let ghost fits: bool = names_fit(*program, v);
    let ghost nn: nat = program.statics@.len() + program.functions@.len() + v;
    let main: Option<String> = match target.main() {
        Some(m) => Some(m.to_owned()),
        None => None,
    };
    assert(name_view(main) == target.spec_main());
    let ghost p0 = *program;
    let mut num: usize = 0;
    let mut used: Vec<String> = Vec::new();
    assert(string_views(used@) =~= Seq::<Seq<char>>::empty());
    assert(gen_view(num, used@) == (NameGen { num: 0, used: Seq::empty() }));
    let ss = match static_names_exec(program, &mut num, &mut used, Ghost(program.functions@.len() + v), Ghost(nn)) {
        Some(s) => s,
        None => return false,
    };
    let fs = match function_names_exec(program, &main, &mut num, &mut used, Ghost(v), Ghost(nn)) {
        Some(f) => f,
        None => return false,
    };
    let ghost g = gen_view(num, used@);
    assert(global_renames(p0, name_view(main)) == (opt_names(ss@), opt_names(fs@), g));
    assert(opt_names(fs@).len() == fs@.len());
    proof {
        let (ss0, g1) = static_renames(p0, p0.statics@.len(), NameGen { num: 0, used: Seq::empty() });
        lemma_function_renames_len(p0, name_view(main), p0.functions@.len(), g1);
    }
    // The renamed functions, computed before anything changes.
    let mut per: Vec<Option<(Vec<MIRVariable>, Vec<MIRStatement>)>> = Vec::new();
    let mut i: usize = 0;
    while i < program.functions.len()
        invariant
            *program == p0,
            i <= p0.functions@.len(),
            fits == names_fit(p0, v),
            p0 == *old(program),
            (exists|v2: nat| names_fit(p0, v2)) ==> fits,
            fits ==> room(g, v, nn),
            per@.len() == i,
            g == gen_view(num, used@),
            fs@.len() == p0.functions@.len(),
            global_renames(p0, name_view(main)) == (opt_names(ss@), opt_names(fs@), g),
            forall|t: int|
                0 <= t < i ==> match #[trigger] per@[t] {
                    Some((args, body)) => {
                        let m = renames_in(p0, t, opt_names(ss@), opt_names(fs@), g);
                        &&& fs@[t] is Some
                        &&& stmts_view(body@) == rn_block(p0, m, stmts_view(p0.functions@[t].body@))
                        &&& args@.len() == p0.functions@[t].args@.len()
                        &&& forall|j: int|
                            0 <= j < args@.len() ==> (#[trigger] args@[j])@ == rn_var(m, p0.functions@[t].args@[j]@)
                    },
                    None => fs@[t] is None,
                },
        decreases p0.functions@.len() - i,
    {
        let ghost per_before = per@;
        if fs[i].is_some() {
            assert(fits ==> block_creates(stmts_view(p0.functions@[i as int].body@)).len() <= v);
            match renamed_function(program, i, &ss, &fs, num, &used, Ghost(nn)) {
                Some(x) => per.push(Some(x)),
                None => return false,
            }
        } else {
            per.push(None);
        }
        assert(forall|t: int| 0 <= t < i ==> per@[t] == per_before[t]);
        i = i + 1;
    }
    let names = rebuild_overloads_exec(program, &fs);
    // Statics.
    let mut sts: Vec<MIRStatic> = Vec::new();
    std::mem::swap(&mut sts, &mut program.statics);
    let ns = sts.len();
    let mut rest = sts;
    let mut out_s: Vec<MIRStatic> = Vec::new();
    let mut k: usize = 0;
    proof {
        assert(opt_names(ss@).len() == p0.statics@.len()) by {
            lemma_static_renames_len(p0, p0.statics@.len(), NameGen { num: 0, used: Seq::empty() });
        }
    }
    while k < ns
        invariant
            ns == p0.statics@.len(),
            k <= ns,
            ss@.len() == ns,
            rest@ =~= p0.statics@.subrange(k as int, ns as int),
            out_s@.len() == k,
            global_renames(p0, name_view(main)) == (opt_names(ss@), opt_names(fs@), g),
            forall|t: int|
                0 <= t < k ==> match #[trigger] opt_names(ss@)[t] {
                    Some(n) => out_s@[t].name@ == n && out_s@[t] == (MIRStatic { name: out_s@[t].name, ..p0.statics@[t] }),
                    None => out_s@[t] == p0.statics@[t],
                },
        decreases ns - k,
    {
        let st = rest.remove(0);
        assert(st == p0.statics@[k as int]);
        match &ss[k] {
            Some(n) => {
                let MIRStatic { name: _, ty, value, span } = st;
                out_s.push(MIRStatic { name: n.clone(), ty, value, span });
            },
            None => out_s.push(st),
        }
        k = k + 1;
    }
    program.statics = out_s;
    // Functions.
    let mut fns: Vec<MIRFunction> = Vec::new();
    std::mem::swap(&mut fns, &mut program.functions);
    let nf = fns.len();
    let mut rest_f = fns;
    let mut rest_p = per;
    let mut out_f: Vec<MIRFunction> = Vec::new();
    let ghost per0 = rest_p@;
    let mut k: usize = 0;
    while k < nf
        invariant
            nf == p0.functions@.len(),
            k <= nf,
            fs@.len() == nf,
            per0.len() == nf,
            rest_f@ =~= p0.functions@.subrange(k as int, nf as int),
            rest_p@ =~= per0.subrange(k as int, nf as int),
            out_f@.len() == k,
            forall|t: int|
                0 <= t < nf ==> match #[trigger] per0[t] {
                    Some((args, body)) => {
                        let m = renames_in(p0, t, opt_names(ss@), opt_names(fs@), g);
                        &&& fs@[t] is Some
                        &&& stmts_view(body@) == rn_block(p0, m, stmts_view(p0.functions@[t].body@))
                        &&& args@.len() == p0.functions@[t].args@.len()
                        &&& forall|j: int|
                            0 <= j < args@.len() ==> (#[trigger] args@[j])@ == rn_var(m, p0.functions@[t].args@[j]@)
                    },
                    None => fs@[t] is None,
                },
            forall|t: int|
                0 <= t < k ==> match #[trigger] opt_names(fs@)[t] {
                    Some(n) => {
                        let m = renames_in(p0, t, opt_names(ss@), opt_names(fs@), g);
                        let f = out_f@[t];
                        &&& f.name@ == n
                        &&& stmts_view(f.body@) == rn_block(p0, m, stmts_view(p0.functions@[t].body@))
                        &&& f.args@.len() == p0.functions@[t].args@.len()
                        &&& forall|j: int| 0 <= j < f.args@.len() ==> (#[trigger] f.args@[j])@ == rn_var(m, p0.functions@[t].args@[j]@)
                        &&& f == (MIRFunction { name: f.name, args: f.args, body: f.body, ..p0.functions@[t] })
                    },
                    None => out_f@[t] == p0.functions@[t],
                },
        decreases nf - k,
    {
        let f = rest_f.remove(0);
        let pf = rest_p.remove(0);
        assert(f == p0.functions@[k as int]);
        assert(pf == per0[k as int]);
        match pf {
            Some((args, body)) => {
                let n = match &fs[k] {
                    Some(n) => n.clone(),
                    None => f.name.clone(),
                };
                let MIRFunction { name: _, fn_type, ret_ty, args: _, args_ty, body: _, span, extern_import } = f;
                out_f.push(MIRFunction { name: n, fn_type, ret_ty, args, args_ty, body, span, extern_import });
            },
            None => out_f.push(f),
        }
        k = k + 1;
    }
    program.functions = out_f;
    program.function_names = names;
    proof {
        assert forall|i: int| 0 <= i < p0.functions@.len() implies #[trigger] function_renames_in(p0, name_view(main), i)
            == renames_in(p0, i, opt_names(ss@), opt_names(fs@), g) by {}
    }
    true
}

proof fn lemma_function_renames_len(p: MIRProgram, main: Option<Seq<char>>, k: nat, g: NameGen)
    ensures
        function_renames(p, main, k, g).0.len() == k,
    decreases k,
{
    if k > 0 {
        lemma_function_renames_len(p, main, (k - 1) as nat, g);
    }
}

proof fn lemma_static_renames_len(p: MIRProgram, k: nat, g: NameGen)
    ensures
        static_renames(p, k, g).0.len() == k,
    decreases k,
{
    if k > 0 {
        lemma_static_renames_len(p, (k - 1) as nat, g);
    }
}

// ---------------------------------------------------------------------------
// Laws
// ---------------------------------------------------------------------------

proof fn lemma_first_unused_shape(used: Seq<Seq<char>>, from: nat, fuel: nat)
    ensures
        first_unused(used, from, fuel) < from + fuel ==> !used.contains(spec_name_of(first_unused(used, from, fuel))),
        first_unused(used, from, fuel) == from + fuel ==> forall|m: nat|
            from <= m < from + fuel ==> used.contains(#[trigger] spec_name_of(m)),
    decreases fuel,
{
    if fuel > 0 {
        lemma_first_unused_shape(used, from + 1, (fuel - 1) as nat);
        lemma_first_unused_bound(used, from + 1, (fuel - 1) as nat);
    }
}

/// A fresh name is taken by nobody yet.
proof fn lemma_fresh_unused(g: NameGen)
    ensures
        !g.used.contains(fresh(g).0),
        fresh(g).1.used == g.used.push(fresh(g).0),
{
    let t = g.used.len();
    let r = first_unused(g.used, g.num, t + 1);
    lemma_first_unused_bound(g.used, g.num, t + 1);
    lemma_first_unused_shape(g.used, g.num, t + 1);
    if r == g.num + t + 1 {
        // Then t + 1 distinct names would lie among t taken ones.
        let s = Seq::new(t + 1, |i: int| choose|j: int| 0 <= j < t && g.used[j] == spec_name_of((g.num + i) as nat));
        assert forall|i: int| 0 <= i < s.len() implies 0 <= #[trigger] s[i] < t && g.used[s[i]] == spec_name_of(
            (g.num + i) as nat,
        ) by {
            assert(g.used.contains(spec_name_of((g.num + i) as nat)));
        }
        assert forall|i: int, j: int| 0 <= i < j < s.len() implies s[i] != s[j] by {
            if s[i] == s[j] {
                assert(g.used[s[i]] == spec_name_of((g.num + i) as nat));
                assert(g.used[s[j]] == spec_name_of((g.num + j) as nat));
                lemma_name_injective((g.num + i) as nat, (g.num + j) as nat);
            }
        }
        lemma_distinct_below(s, t as int);
    }
}

/// No name occurs twice in `used`, except that the main function's name
/// may follow a name equal to it.
pub open spec fn distinct_but_main(used: Seq<Seq<char>>, main: Option<Seq<char>>) -> bool {
    forall|i: int, j: int|
        0 <= i < j < used.len() && main != Some(#[trigger] used[j]) ==> #[trigger] used[i] != used[j]
}

proof fn lemma_fresh_keeps(g: NameGen, main: Option<Seq<char>>)
    requires
        distinct_but_main(g.used, main),
    ensures
        distinct_but_main(fresh(g).1.used, main),
{
    lemma_fresh_unused(g);
    let u = fresh(g).1.used;
    assert forall|i: int, j: int|
        0 <= i < j < u.len() && main != Some(#[trigger] u[j]) implies #[trigger] u[i] != u[j] by {
        if j == g.used.len() {
            assert(u[i] == g.used[i]);
            assert(u[j] == fresh(g).0);
            if u[i] == u[j] {
                assert(g.used.contains(fresh(g).0));
            }
        } else {
            assert(u[i] == g.used[i] && u[j] == g.used[j]);
        }
    }
}

proof fn lemma_static_renames_distinct(p: MIRProgram, k: nat, g: NameGen, main: Option<Seq<char>>)
    requires
        distinct_but_main(g.used, main),
    ensures
        distinct_but_main(static_renames(p, k, g).1.used, main),
        g.used.len() <= static_renames(p, k, g).1.used.len(),
        g.used == static_renames(p, k, g).1.used.take(g.used.len() as int),
        forall|t: int|
            0 <= t < k && (#[trigger] static_renames(p, k, g).0[t]) is Some ==> static_renames(p, k, g).1.used.contains(
                static_renames(p, k, g).0[t]->0,
            ),
    decreases k,
{
    if k > 0 {
        lemma_static_renames_distinct(p, (k - 1) as nat, g, main);
        lemma_static_renames_len(p, (k - 1) as nat, g);
        let (pre, g1) = static_renames(p, (k - 1) as nat, g);
        if exported(p, MIRDeclarationKey::Static(MIRStaticKey((k - 1) as usize))) {
            lemma_fresh_keeps(g1, main);
            lemma_fresh_unused(g1);
            let (n, g2) = fresh(g1);
            assert(g2.used.take(g.used.len() as int) =~= g1.used.take(g.used.len() as int));
            assert forall|t: int| 0 <= t < k && (#[trigger] static_renames(p, k, g).0[t]) is Some implies g2.used.contains(
                static_renames(p, k, g).0[t]->0,
            ) by {
                if t < k - 1 {
                    assert(static_renames(p, k, g).0[t] == pre[t]);
                    let x = pre[t]->0;
                    let w = choose|w: int| 0 <= w < g1.used.len() && g1.used[w] == x;
                    assert(g2.used[w] == x);
                } else {
                    assert(g2.used[g1.used.len() as int] == n);
                }
            }
        }
    }
}

proof fn lemma_function_renames_distinct(p: MIRProgram, main: Option<Seq<char>>, k: nat, g: NameGen)
    requires
        distinct_but_main(g.used, main),
    ensures
        distinct_but_main(function_renames(p, main, k, g).1.used, main),
        g.used.len() <= function_renames(p, main, k, g).1.used.len(),
        g.used == function_renames(p, main, k, g).1.used.take(g.used.len() as int),
        forall|t: int|
            0 <= t < k && (#[trigger] function_renames(p, main, k, g).0[t]) is Some
                ==> function_renames(p, main, k, g).1.used.contains(function_renames(p, main, k, g).0[t]->0),
    decreases k,
{
    if k > 0 {
        lemma_function_renames_distinct(p, main, (k - 1) as nat, g);
        lemma_function_renames_len(p, main, (k - 1) as nat, g);
        let (pre, g1) = function_renames(p, main, (k - 1) as nat, g);
        if k - 1 < p.functions@.len() && exported(p, MIRDeclarationKey::Function(MIRFunctionKey((k - 1) as usize))) {
            let name = p.functions@[k - 1].name@;
            let g2 = function_renames(p, main, k, g).1;
            let x2 = function_renames(p, main, k, g).0[k - 1]->0;
            if main == Some(name) {
                assert forall|i: int, j: int|
                    0 <= i < j < g2.used.len() && main != Some(#[trigger] g2.used[j]) implies #[trigger] g2.used[i]
                    != g2.used[j] by {
                    assert(j < g1.used.len());
                    assert(g2.used[i] == g1.used[i] && g2.used[j] == g1.used[j]);
                }
            } else {
                lemma_fresh_keeps(g1, main);
                lemma_fresh_unused(g1);
            }
            assert(g2.used == g1.used.push(x2));
            assert(g2.used.take(g.used.len() as int) =~= g1.used.take(g.used.len() as int));
            assert forall|t: int| 0 <= t < k && (#[trigger] function_renames(p, main, k, g).0[t]) is Some implies g2.used.contains(
                function_renames(p, main, k, g).0[t]->0,
            ) by {
                if t < k - 1 {
                    assert(function_renames(p, main, k, g).0[t] == pre[t]);
                    let x = pre[t]->0;
                    let w = choose|w: int| 0 <= w < g1.used.len() && g1.used[w] == x;
                    assert(g2.used[w] == x);
                } else {
                    assert(g2.used[g1.used.len() as int] == x2);
                }
            }
        }
    }
}

/// The names given to the exported statics and functions are all among
/// the names taken, and no two names taken are the same, but for a main
/// function's name, which is kept as it is.
pub proof fn lemma_global_names_distinct(p: MIRProgram, main: Option<Seq<char>>)
    ensures
        distinct_but_main(global_renames(p, main).2.used, main),
        forall|t: int|
            0 <= t < p.statics@.len() && (#[trigger] global_renames(p, main).0[t]) is Some
                ==> global_renames(p, main).2.used.contains(global_renames(p, main).0[t]->0),
        forall|t: int|
            0 <= t < p.functions@.len() && (#[trigger] global_renames(p, main).1[t]) is Some
                ==> global_renames(p, main).2.used.contains(global_renames(p, main).1[t]->0),
        forall|t: int|
            0 <= t < p.functions@.len() && (#[trigger] global_renames(p, main).1[t]) is Some && main == Some(
                p.functions@[t].name@,
            ) ==> global_renames(p, main).1[t] == main,
{
    let g0 = NameGen { num: 0, used: Seq::empty() };
    lemma_static_renames_distinct(p, p.statics@.len(), g0, main);
    let (ss, g1) = static_renames(p, p.statics@.len(), g0);
    lemma_function_renames_distinct(p, main, p.functions@.len(), g1);
    let (fs, g2) = function_renames(p, main, p.functions@.len(), g1);
    assert forall|t: int|
        0 <= t < p.statics@.len() && (#[trigger] global_renames(p, main).0[t]) is Some implies g2.used.contains(
        ss[t]->0,
    ) by {
        let w = choose|w: int| 0 <= w < g1.used.len() && g1.used[w] == ss[t]->0;
        assert(g2.used.take(g1.used.len() as int)[w] == g2.used[w]);
    }
    assert forall|t: int|
        0 <= t < p.functions@.len() && (#[trigger] global_renames(p, main).1[t]) is Some && main == Some(
            p.functions@[t].name@,
        ) implies global_renames(p, main).1[t] == main by {
        lemma_function_renames_main(p, main, p.functions@.len(), g1, t);
    }
}

proof fn lemma_function_renames_main(p: MIRProgram, main: Option<Seq<char>>, k: nat, g: NameGen, t: int)
    requires
        0 <= t < k,
        t < p.functions@.len(),
        function_renames(p, main, k, g).0[t] is Some,
        main == Some(p.functions@[t].name@),
    ensures
        function_renames(p, main, k, g).0[t] == main,
    decreases k,
{
    lemma_function_renames_len(p, main, (k - 1) as nat, g);
    if t < k - 1 {
        lemma_function_renames_main(p, main, (k - 1) as nat, g, t);
    }
}

/// Within one function, the new names of its variables differ from each
/// other and from every name given to a static or a function.
pub proof fn lemma_var_names_distinct(p: MIRProgram, main: Option<Seq<char>>, k: int)
    requires
        0 <= k < p.functions@.len(),
    ensures
        ({
            let vs = function_renames_in(p, main, k).vars;
            let g = global_renames(p, main).2;
            &&& forall|i: int, j: int| 0 <= i < j < vs.len() ==> #[trigger] vs[i].1 != #[trigger] vs[j].1
            &&& forall|i: int| 0 <= i < vs.len() ==> !g.used.contains(#[trigger] vs[i].1)
        }),
{
    let g = global_renames(p, main).2;
    lemma_var_renames_fresh(block_creates(stmts_view(p.functions@[k].body@)), g);
}

proof fn lemma_var_renames_fresh(ids: Seq<usize>, g: NameGen)
    ensures
        var_renames(ids, g).0.len() == ids.len(),
        var_renames(ids, g).1.used == g.used + var_renames(ids, g).0.map_values(|v: (usize, Seq<char>)| v.1),
        forall|i: int, j: int|
            0 <= i < j < var_renames(ids, g).0.len() ==> #[trigger] var_renames(ids, g).0[i].1 != #[trigger] var_renames(
                ids,
                g,
            ).0[j].1,
        forall|i: int| 0 <= i < var_renames(ids, g).0.len() ==> !g.used.contains(#[trigger] var_renames(ids, g).0[i].1),
    decreases ids.len(),
{
    if ids.len() > 0 {
        lemma_var_renames_fresh(ids.drop_last(), g);
        let (pre, g1) = var_renames(ids.drop_last(), g);
        lemma_fresh_unused(g1);
        let (n, g2) = fresh(g1);
        let vs = pre.push((ids.last(), n));
        assert(vs.map_values(|v: (usize, Seq<char>)| v.1) =~= pre.map_values(|v: (usize, Seq<char>)| v.1).push(n));
        assert(g2.used =~= g.used + vs.map_values(|v: (usize, Seq<char>)| v.1));
        assert forall|i: int| 0 <= i < pre.len() implies #[trigger] pre[i].1 != n by {
            assert(g1.used[g.used.len() + i] == pre[i].1);
        }
        assert forall|i: int| 0 <= i < vs.len() implies !g.used.contains(#[trigger] vs[i].1) by {
            if i == pre.len() {
                if g.used.contains(n) {
                    let w = choose|w: int| 0 <= w < g.used.len() && g.used[w] == n;
                    assert(g1.used[w] == n);
                }
            }
        }
    }
}

} // verus!
