//! Copies of statements, functions and whole programs with the same model.

use super::inline::{copy_call, copy_expr, copy_marker, copy_opt_ty};
use super::type_check::{copy_args, copy_ty, copy_var};
use super::view::{
    args_view, lemma_stmts_size_elems, lemma_stmts_view_push, span_view, stmt_size, stmts_size,
    stmts_view, ty_view, var_view,
};
use super::{
    MIRConstant, MIRDeclarationKey, MIRExpression, MIRFunction, MIRMarker, MIRProgram, MIRStatement,
    MIRStatic, MIRVariable,
};
use super::overloads::{overloads_same, FunctionOverloads};
use vstd::prelude::*;

verus! {

fn copy_opt_expr(e: &Option<MIRExpression>) -> (res: Option<MIRExpression>)
    ensures
        super::view::opt_expr_view(res) == super::view::opt_expr_view(*e),
{
    match e {
        Some(x) => Some(copy_expr(x)),
        None => None,
    }
}

/// A copy of a statement, with the same model.
pub fn copy_stmt(s: &MIRStatement) -> (res: MIRStatement)
    ensures
        res@ == s@,
    decreases stmt_size(*s), 0nat,
{
    match s {
        MIRStatement::CreateVariable { var, value, span } => MIRStatement::CreateVariable {
            var: copy_var(var),
            value: copy_opt_expr(value),
            span: span.clone(),
        },
        MIRStatement::DropVariable(n, i, span) => MIRStatement::DropVariable(n.clone(), *i, span.clone()),
        MIRStatement::SetVariable { place, value, span } => MIRStatement::SetVariable {
            place: copy_expr(place),
            value: copy_expr(value),
            span: span.clone(),
        },
        MIRStatement::IncrementVariable { place, span } => MIRStatement::IncrementVariable {
            place: copy_expr(place),
            span: span.clone(),
        },
        MIRStatement::DecrementVariable { place, span } => MIRStatement::DecrementVariable {
            place: copy_expr(place),
            span: span.clone(),
        },
        MIRStatement::AddAssign { place, value, span } => MIRStatement::AddAssign {
            place: copy_expr(place),
            value: copy_expr(value),
            span: span.clone(),
        },
        MIRStatement::SubAssign { place, value, span } => MIRStatement::SubAssign {
            place: copy_expr(place),
            value: copy_expr(value),
            span: span.clone(),
        },
        MIRStatement::MulAssign { place, value, span } => MIRStatement::MulAssign {
            place: copy_expr(place),
            value: copy_expr(value),
            span: span.clone(),
        },
        MIRStatement::DivAssign { place, value, span } => MIRStatement::DivAssign {
            place: copy_expr(place),
            value: copy_expr(value),
            span: span.clone(),
        },
        MIRStatement::FunctionCall(c) => MIRStatement::FunctionCall(copy_call(c)),
        MIRStatement::Return { expr, span } => MIRStatement::Return { expr: copy_opt_expr(expr), span: span.clone() },
        MIRStatement::Label { name, span } => MIRStatement::Label { name: name.clone(), span: span.clone() },
        MIRStatement::Goto { name, index, span } => MIRStatement::Goto {
            name: name.clone(),
            index: *index,
            span: span.clone(),
        },
        MIRStatement::GotoNotEqual { name, index, condition, span } => MIRStatement::GotoNotEqual {
            name: name.clone(),
            index: *index,
            condition: copy_expr(condition),
            span: span.clone(),
        },
        MIRStatement::IfStatement { condition, on_true, on_false, span } => {
            proof {
                lemma_stmts_size_elems(on_true@);
                lemma_stmts_size_elems(on_false@);
            }
            MIRStatement::IfStatement {
                condition: copy_expr(condition),
                on_true: copy_block(on_true),
                on_false: copy_block(on_false),
                span: span.clone(),
            }
        },
        MIRStatement::LoopStatement { condition, body, iterate, span } => MIRStatement::LoopStatement {
            condition: copy_opt_expr(condition),
            body: copy_block(body),
            iterate: copy_block(iterate),
            span: span.clone(),
        },
        MIRStatement::ScopeStatement { body, span } => MIRStatement::ScopeStatement {
            body: copy_block(body),
            span: span.clone(),
        },
        MIRStatement::ContinueStatement { span } => MIRStatement::ContinueStatement { span: span.clone() },
        MIRStatement::BreakStatement { span } => MIRStatement::BreakStatement { span: span.clone() },
        MIRStatement::MarkerStatement { name, span } => MIRStatement::MarkerStatement {
            name: name.clone(),
            span: span.clone(),
        },
    }
}

/// A copy of a block, with the same model.
pub fn copy_block(b: &Vec<MIRStatement>) -> (res: Vec<MIRStatement>)
    ensures
        stmts_view(res@) == stmts_view(b@),
    decreases stmts_size(b@), 1nat,
{
    proof {
        lemma_stmts_size_elems(b@);
    }
    let mut out: Vec<MIRStatement> = Vec::new();
    let mut i: usize = 0;
    assert(b@.take(0) =~= out@);
    while i < b.len()
        invariant
            i <= b@.len(),
            stmts_view(out@) == stmts_view(b@.take(i as int)),
            forall|j: int| 0 <= j < b@.len() ==> stmt_size(#[trigger] b@[j]) < stmts_size(b@),
        decreases b@.len() - i,
    {
        let x = copy_stmt(&b[i]);
        proof {
            lemma_stmts_view_push(out@, x);
            assert(b@.take(i as int + 1) =~= b@.take(i as int).push(b@[i as int]));
            lemma_stmts_view_push(b@.take(i as int), b@[i as int]);
        }
        out.push(x);
        i = i + 1;
    }
    assert(b@.take(i as int) =~= b@);
    out
}

/// The model of a constant.
pub open spec fn const_model(c: MIRConstant) -> (Seq<char>, super::view::TyV, super::view::ExprV, super::view::SpanV) {
    (c.name@, ty_view(c.ty), c.value@, span_view(c.span))
}

/// The model of a static.
pub open spec fn static_model(c: MIRStatic) -> (Seq<char>, super::view::TyV, super::view::ExprV, super::view::SpanV) {
    (c.name@, ty_view(c.ty), c.value@, span_view(c.span))
}

/// The model of a function.
pub open spec fn function_model(f: MIRFunction) -> (
    Seq<char>,
    super::MIRFunctionType,
    super::view::TyV,
    Seq<super::view::VarV>,
    super::view::ArgsV,
    Seq<super::view::StmtV>,
    super::view::SpanV,
    Option<Seq<char>>,
) {
    (
        f.name@,
        f.fn_type,
        ty_view(f.ret_ty),
        f.args@.map_values(|v: MIRVariable| var_view(v)),
        args_view(f.args_ty),
        stmts_view(f.body@),
        span_view(f.span),
        match f.extern_import {
            Some(s) => Some(s@),
            None => None,
        },
    )
}

/// Two programs with the same model: the same declarations, items, names,
/// overloads and imports.
pub open spec fn same_program(a: MIRProgram, b: MIRProgram) -> bool {
    &&& a.decls@ == b.decls@
    &&& a.constants@.map_values(|c: MIRConstant| const_model(c)) == b.constants@.map_values(|c: MIRConstant| const_model(c))
    &&& a.statics@.map_values(|c: MIRStatic| static_model(c)) == b.statics@.map_values(|c: MIRStatic| static_model(c))
    &&& a.functions@.map_values(|f: MIRFunction| function_model(f)) == b.functions@.map_values(
        |f: MIRFunction| function_model(f),
    )
    &&& a.markers@.map_values(|m: MIRMarker| m@) == b.markers@.map_values(|m: MIRMarker| m@)
    &&& a.function_names@.len() == b.function_names@.len()
    &&& forall|i: int| 0 <= i < a.function_names@.len() ==> (#[trigger] a.function_names@[i]).0@
        == b.function_names@[i].0@ && overloads_same(a.function_names@[i].1, b.function_names@[i].1)
    &&& a.required_imports@.map_values(|s: String| s@) == b.required_imports@.map_values(|s: String| s@)
}

fn copy_function(f: &MIRFunction) -> (res: MIRFunction)
    ensures
        function_model(res) == function_model(*f),
{
    let mut args: Vec<MIRVariable> = Vec::new();
    let mut i: usize = 0;
    while i < f.args.len()
        invariant
            i <= f.args@.len(),
            args@.len() == i,
            forall|j: int| 0 <= j < i ==> var_view(#[trigger] args@[j]) == var_view(f.args@[j]),
        decreases f.args@.len() - i,
    {
        args.push(copy_var(&f.args[i]));
        i = i + 1;
    }
    assert(args@.map_values(|v: MIRVariable| var_view(v)) =~= f.args@.map_values(|v: MIRVariable| var_view(v)));
    MIRFunction {
        name: f.name.clone(),
        fn_type: f.fn_type,
        ret_ty: copy_ty(&f.ret_ty),
        args,
        args_ty: copy_args(&f.args_ty),
        body: copy_block(&f.body),
        span: f.span.clone(),
        extern_import: match &f.extern_import {
            Some(s) => Some(s.clone()),
            None => None,
        },
    }
}

/// A copy of a program, with the same model.
pub fn copy_program(p: &MIRProgram) -> (res: MIRProgram)
    ensures
        same_program(res, *p),
{
    let mut decls: Vec<MIRDeclarationKey> = Vec::new();
    let mut i: usize = 0;
    while i < p.decls.len()
        invariant
            i <= p.decls@.len(),
            decls@ == p.decls@.take(i as int),
        decreases p.decls@.len() - i,
    {
        assert(p.decls@.take(i as int + 1) =~= p.decls@.take(i as int).push(p.decls@[i as int]));
        decls.push(p.decls[i]);
        i = i + 1;
    }
    assert(p.decls@.take(i as int) =~= p.decls@);
    let mut constants: Vec<MIRConstant> = Vec::new();
    let mut i: usize = 0;
    while i < p.constants.len()
        invariant
            i <= p.constants@.len(),
            constants@.len() == i,
            forall|j: int| 0 <= j < i ==> const_model(#[trigger] constants@[j]) == const_model(p.constants@[j]),
        decreases p.constants@.len() - i,
    {
        let c = &p.constants[i];
        constants.push(MIRConstant { name: c.name.clone(), ty: copy_ty(&c.ty), value: copy_expr(&c.value), span: c.span.clone() });
        i = i + 1;
    }
    assert(constants@.map_values(|c: MIRConstant| const_model(c)) =~= p.constants@.map_values(|c: MIRConstant| const_model(c)));
    let mut statics: Vec<MIRStatic> = Vec::new();
    let mut i: usize = 0;
    while i < p.statics.len()
        invariant
            i <= p.statics@.len(),
            statics@.len() == i,
            forall|j: int| 0 <= j < i ==> static_model(#[trigger] statics@[j]) == static_model(p.statics@[j]),
        decreases p.statics@.len() - i,
    {
        let c = &p.statics[i];
        statics.push(MIRStatic { name: c.name.clone(), ty: copy_ty(&c.ty), value: copy_expr(&c.value), span: c.span.clone() });
        i = i + 1;
    }
    assert(statics@.map_values(|c: MIRStatic| static_model(c)) =~= p.statics@.map_values(|c: MIRStatic| static_model(c)));
    let mut functions: Vec<MIRFunction> = Vec::new();
    let mut i: usize = 0;
    while i < p.functions.len()
        invariant
            i <= p.functions@.len(),
            functions@.len() == i,
            forall|j: int| 0 <= j < i ==> function_model(#[trigger] functions@[j]) == function_model(p.functions@[j]),
        decreases p.functions@.len() - i,
    {
        functions.push(copy_function(&p.functions[i]));
        i = i + 1;
    }
    assert(functions@.map_values(|f: MIRFunction| function_model(f)) =~= p.functions@.map_values(|f: MIRFunction| function_model(f)));
    let mut markers: Vec<MIRMarker> = Vec::new();
    let mut i: usize = 0;
    while i < p.markers.len()
        invariant
            i <= p.markers@.len(),
            markers@.len() == i,
            forall|j: int| 0 <= j < i ==> (#[trigger] markers@[j])@ == p.markers@[j]@,
        decreases p.markers@.len() - i,
    {
        markers.push(copy_marker(&p.markers[i]));
        i = i + 1;
    }
    assert(markers@.map_values(|m: MIRMarker| m@) =~= p.markers@.map_values(|m: MIRMarker| m@));
    let mut names: Vec<(String, FunctionOverloads)> = Vec::new();
    let mut i: usize = 0;
    while i < p.function_names.len()
        invariant
            i <= p.function_names@.len(),
            names@.len() == i,
            forall|j: int| 0 <= j < i ==> (#[trigger] names@[j]).0@ == p.function_names@[j].0@
                && overloads_same(names@[j].1, p.function_names@[j].1),
        decreases p.function_names@.len() - i,
    {
        names.push((p.function_names[i].0.clone(), p.function_names[i].1.copy()));
        i = i + 1;
    }
    let mut imports: Vec<String> = Vec::new();
    let mut i: usize = 0;
    while i < p.required_imports.len()
        invariant
            i <= p.required_imports@.len(),
            imports@.len() == i,
            forall|j: int| 0 <= j < i ==> (#[trigger] imports@[j])@ == p.required_imports@[j]@,
        decreases p.required_imports@.len() - i,
    {
        imports.push(p.required_imports[i].clone());
        i = i + 1;
    }
    assert(imports@.map_values(|s: String| s@) =~= p.required_imports@.map_values(|s: String| s@));
    MIRProgram {
        decls,
        constants,
        statics,
        functions,
        markers,
        function_names: names,
        required_imports: imports,
    }
}

} // verus!
