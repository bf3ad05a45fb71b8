use insert::mir::eq::type_eq;
use insert::mir::type_check::{
    check_expression, convert_types, get_fn_type, types_equal_inner, Operator, TypeError,
};
use insert::mir::{
    FunctionOverloads, MIRConstant, MIRExpression, MIRExpressionInner, MIRFnCall, MIRFnSource,
    MIRFunction, MIRFunctionArgs, MIRFunctionKey, MIRFunctionType, MIRProgram, MIRType,
    MIRTypeInner, MIRVariable,
};
use insert::parser::span::Span;
use insert::targets::C;

fn at(start: usize, end: usize) -> Span {
    Span { file: "t".to_string(), start, end, text: String::new() }
}

fn ex(inner: MIRExpressionInner, span: Span) -> MIRExpression {
    MIRExpression { inner, ty: None, span }
}

fn num(n: i128) -> MIRExpression {
    ex(MIRExpressionInner::Number(n), at(0, 1))
}

fn name(n: &str) -> MIRExpression {
    ex(MIRExpressionInner::Variable(n.to_string(), None), at(0, 1))
}

fn bx(e: MIRExpression) -> Box<MIRExpression> {
    Box::new(e)
}

fn ty(t: MIRTypeInner) -> MIRType {
    MIRType { ty: t, span: None }
}

fn empty_program() -> MIRProgram {
    MIRProgram {
        decls: Vec::new(),
        constants: Vec::new(),
        statics: Vec::new(),
        functions: Vec::new(),
        markers: Vec::new(),
        function_names: Vec::new(),
        required_imports: Vec::new(),
    }
}

/// A program with `f(i32) -> bool` and a constant `LIMIT: u32`.
fn program_with_f() -> MIRProgram {
    let mut p = empty_program();
    let args = MIRFunctionArgs { args: vec![MIRTypeInner::I32], variadic: false };
    p.functions.push(MIRFunction {
        name: "f".to_string(),
        fn_type: MIRFunctionType::Export,
        ret_ty: ty(MIRTypeInner::Bool),
        args: Vec::new(),
        args_ty: MIRFunctionArgs { args: vec![MIRTypeInner::I32], variadic: false },
        body: Vec::new(),
        span: at(100, 110),
        extern_import: None,
    });
    let mut ov = FunctionOverloads::new();
    ov.push(args, MIRFunctionKey(0));
    p.function_names.push(("f".to_string(), ov));
    p.constants.push(MIRConstant {
        name: "LIMIT".to_string(),
        ty: ty(MIRTypeInner::U32),
        value: num(3),
        span: at(50, 60),
    });
    p
}

fn scope_var(n: &str, t: MIRTypeInner) -> MIRVariable {
    MIRVariable { name: n.to_string(), ty: ty(t), arg: false, var_idx: None, span: at(0, 1) }
}

fn type_of(e: &MIRExpression) -> &MIRTypeInner {
    &e.ty.as_ref().unwrap().ty
}

#[test]
fn unify_resolves_unknown_number() {
    let mut a = MIRTypeInner::UnknownNumber;
    let mut b = MIRTypeInner::U32;
    assert!(types_equal_inner(&mut a, &mut b));
    assert!(type_eq(&a, &MIRTypeInner::U32));
    assert!(type_eq(&b, &MIRTypeInner::U32));
}

#[test]
fn unify_refuses_different_integers() {
    let mut a = MIRTypeInner::I32;
    let mut b = MIRTypeInner::U32;
    assert!(!types_equal_inner(&mut a, &mut b));
    assert!(type_eq(&a, &MIRTypeInner::I32));
    assert!(type_eq(&b, &MIRTypeInner::U32));
}

#[test]
fn unify_takes_second_array_kind() {
    let mut a = MIRTypeInner::Array(Box::new(MIRTypeInner::UnknownNumber));
    let mut b = MIRTypeInner::ArrayFixed(Box::new(MIRTypeInner::I32), 4);
    assert!(types_equal_inner(&mut a, &mut b));
    let fixed = MIRTypeInner::ArrayFixed(Box::new(MIRTypeInner::I32), 4);
    assert!(type_eq(&a, &fixed));
    assert!(type_eq(&b, &fixed));
}

#[test]
fn unify_fills_not_constructed() {
    let mut a = MIRTypeInner::NotConstructed;
    let mut b = MIRTypeInner::Char;
    assert!(types_equal_inner(&mut a, &mut b));
    assert!(type_eq(&a, &MIRTypeInner::Char));
}

#[test]
fn convert_turns_strings_into_char_arrays() {
    let mut t = MIRTypeInner::Ref(Box::new(MIRTypeInner::String));
    assert!(convert_types(&C, &mut t));
    let expected =
        MIRTypeInner::Ref(Box::new(MIRTypeInner::Array(Box::new(MIRTypeInner::Char))));
    assert!(type_eq(&t, &expected));
}

#[test]
fn convert_refuses_named_types() {
    let mut t = MIRTypeInner::Named("Point".to_string());
    assert!(!convert_types(&C, &mut t));
}

#[test]
fn fn_type_is_a_pointer_type() {
    let p = program_with_f();
    let t = get_fn_type(&p.functions[0]);
    let expected = MIRTypeInner::FunctionPtr(
        MIRFunctionArgs { args: vec![MIRTypeInner::I32], variadic: false },
        Box::new(MIRTypeInner::Bool),
    );
    assert!(type_eq(&t.ty, &expected));
    assert_eq!(t.span.unwrap().start, 100);
}

#[test]
fn check_addition_of_literals_stays_unresolved() {
    let p = empty_program();
    let e = ex(MIRExpressionInner::Add(bx(num(1)), bx(num(2))), at(0, 5));
    let e = check_expression(&p, &C, &Vec::new(), e).unwrap();
    assert!(type_eq(type_of(&e), &MIRTypeInner::UnknownNumber));
    assert_eq!(e.ty.as_ref().unwrap().span.as_ref().unwrap().end, 5);
}

#[test]
fn check_addition_takes_written_type() {
    let p = empty_program();
    let mut e = ex(MIRExpressionInner::Add(bx(num(1)), bx(num(2))), at(0, 5));
    e.ty = Some(ty(MIRTypeInner::I32));
    let e = check_expression(&p, &C, &Vec::new(), e).unwrap();
    assert!(type_eq(type_of(&e), &MIRTypeInner::I32));
    match &e.inner {
        MIRExpressionInner::Add(l, r) => {
            assert!(type_eq(type_of(l), &MIRTypeInner::I32));
            assert!(type_eq(type_of(r), &MIRTypeInner::I32));
        }
        _ => panic!("not an addition"),
    }
}

#[test]
fn check_negative_literal_is_signed() {
    let p = empty_program();
    let e = ex(MIRExpressionInner::Add(bx(num(-1)), bx(num(2))), at(0, 5));
    let e = check_expression(&p, &C, &Vec::new(), e).unwrap();
    assert!(type_eq(type_of(&e), &MIRTypeInner::I32));
}

#[test]
fn check_large_literal_is_unsigned() {
    let p = empty_program();
    let e = check_expression(&p, &C, &Vec::new(), num(3_000_000_000)).unwrap();
    assert!(type_eq(type_of(&e), &MIRTypeInner::U32));
}

#[test]
fn check_operands_must_agree() {
    let p = empty_program();
    let e = ex(
        MIRExpressionInner::Add(
            bx(ex(MIRExpressionInner::Bool(true), at(0, 4))),
            bx(num(1)),
        ),
        at(0, 8),
    );
    match check_expression(&p, &C, &Vec::new(), e) {
        Err(TypeError::OperandsDiffer { op, left, right, span }) => {
            assert_eq!(op, Operator::Addition);
            assert!(type_eq(&left.ty, &MIRTypeInner::Bool));
            assert!(type_eq(&right.ty, &MIRTypeInner::UnknownNumber));
            assert_eq!(span.end, 8);
        }
        other => panic!("unexpected result {:?}", other),
    }
}

#[test]
fn check_comparison_is_bool() {
    let p = empty_program();
    let e = ex(MIRExpressionInner::Less(bx(num(1)), bx(num(2))), at(0, 5));
    let e = check_expression(&p, &C, &Vec::new(), e).unwrap();
    assert!(type_eq(type_of(&e), &MIRTypeInner::Bool));
}

#[test]
fn check_written_type_must_agree() {
    let p = empty_program();
    let mut e = ex(MIRExpressionInner::Bool(true), at(2, 6));
    e.ty = Some(ty(MIRTypeInner::I32));
    match check_expression(&p, &C, &Vec::new(), e) {
        Err(TypeError::UnexpectedType { expected, actual, span }) => {
            assert!(type_eq(&expected.ty, &MIRTypeInner::I32));
            assert!(type_eq(&actual.ty, &MIRTypeInner::Bool));
            assert_eq!(span.start, 2);
        }
        other => panic!("unexpected result {:?}", other),
    }
}

#[test]
fn check_unknown_variable() {
    let p = empty_program();
    match check_expression(&p, &C, &Vec::new(), name("x")) {
        Err(TypeError::UnknownVariable { name, .. }) => assert_eq!(name, "x"),
        other => panic!("unexpected result {:?}", other),
    }
}

#[test]
fn check_variable_in_scope() {
    let p = empty_program();
    let scope = vec![scope_var("x", MIRTypeInner::U32)];
    let e = check_expression(&p, &C, &scope, name("x")).unwrap();
    assert!(type_eq(type_of(&e), &MIRTypeInner::U32));
}

#[test]
fn check_innermost_variable_wins() {
    let p = empty_program();
    let scope = vec![scope_var("x", MIRTypeInner::U32), scope_var("x", MIRTypeInner::Bool)];
    let e = check_expression(&p, &C, &scope, name("x")).unwrap();
    assert!(type_eq(type_of(&e), &MIRTypeInner::Bool));
}

#[test]
fn check_constant_name() {
    let p = program_with_f();
    let e = check_expression(&p, &C, &Vec::new(), name("LIMIT")).unwrap();
    assert!(type_eq(type_of(&e), &MIRTypeInner::U32));
}

#[test]
fn check_function_as_value_is_refused() {
    let p = program_with_f();
    assert!(matches!(
        check_expression(&p, &C, &Vec::new(), name("f")),
        Err(TypeError::FunctionAsValue { .. })
    ));
}

#[test]
fn check_string_becomes_char_array() {
    let p = empty_program();
    let e = ex(MIRExpressionInner::String("hi".to_string()), at(0, 4));
    let e = check_expression(&p, &C, &Vec::new(), e).unwrap();
    let expected = MIRTypeInner::Array(Box::new(MIRTypeInner::Char));
    assert!(type_eq(type_of(&e), &expected));
}

#[test]
fn check_array_literal_is_fixed() {
    let p = empty_program();
    let e = ex(MIRExpressionInner::Array(vec![num(1), num(2)]), at(0, 6));
    let e = check_expression(&p, &C, &Vec::new(), e).unwrap();
    let expected = MIRTypeInner::ArrayFixed(Box::new(MIRTypeInner::UnknownNumber), 2);
    assert!(type_eq(type_of(&e), &expected));
}

#[test]
fn check_empty_array_is_unconstructed() {
    let p = empty_program();
    let e = ex(MIRExpressionInner::Array(Vec::new()), at(0, 2));
    let e = check_expression(&p, &C, &Vec::new(), e).unwrap();
    let expected = MIRTypeInner::ArrayFixed(Box::new(MIRTypeInner::NotConstructed), 0);
    assert!(type_eq(type_of(&e), &expected));
}

#[test]
fn check_reference_needs_a_place() {
    let p = empty_program();
    let e = ex(MIRExpressionInner::Ref(bx(num(5))), at(0, 2));
    assert!(matches!(
        check_expression(&p, &C, &Vec::new(), e),
        Err(TypeError::RefToNonPlace { .. })
    ));
}

#[test]
fn check_reference_and_dereference() {
    let p = empty_program();
    let scope = vec![scope_var("x", MIRTypeInner::I32)];
    let r = ex(MIRExpressionInner::Ref(bx(name("x"))), at(0, 2));
    let r = check_expression(&p, &C, &scope, r).unwrap();
    let expected = MIRTypeInner::Ref(Box::new(MIRTypeInner::I32));
    assert!(type_eq(type_of(&r), &expected));
    let d = ex(MIRExpressionInner::Deref(bx(ex(MIRExpressionInner::Ref(bx(name("x"))), at(1, 3)))), at(0, 3));
    let d = check_expression(&p, &C, &scope, d).unwrap();
    assert!(type_eq(type_of(&d), &MIRTypeInner::I32));
}

#[test]
fn check_index_of_unsized_array() {
    let p = empty_program();
    let scope = vec![scope_var("a", MIRTypeInner::Array(Box::new(MIRTypeInner::I32)))];
    let e = ex(MIRExpressionInner::Index(bx(name("a")), bx(num(0))), at(0, 4));
    let e = check_expression(&p, &C, &scope, e).unwrap();
    assert!(type_eq(type_of(&e), &MIRTypeInner::I32));
    match &e.inner {
        MIRExpressionInner::Index(_, i) => assert!(type_eq(type_of(i), &MIRTypeInner::U32)),
        _ => panic!("not an index"),
    }
}

#[test]
fn check_index_of_fixed_array_is_refused() {
    let p = empty_program();
    let scope = vec![scope_var("a", MIRTypeInner::ArrayFixed(Box::new(MIRTypeInner::I32), 3))];
    let e = ex(MIRExpressionInner::Index(bx(name("a")), bx(num(0))), at(0, 4));
    assert!(matches!(
        check_expression(&p, &C, &scope, e),
        Err(TypeError::IndexNonArray { .. })
    ));
}

#[test]
fn check_member_is_unsupported() {
    let p = empty_program();
    let e = ex(MIRExpressionInner::Member(bx(name("a")), "b".to_string()), at(0, 3));
    assert!(matches!(
        check_expression(&p, &C, &Vec::new(), e),
        Err(TypeError::Unsupported { .. })
    ));
}

fn call(fname: &str, args: Vec<MIRExpression>) -> MIRExpression {
    ex(
        MIRExpressionInner::FunctionCall(Box::new(MIRFnCall {
            source: MIRFnSource::Direct(fname.to_string(), at(0, 1)),
            args,
            args_ty: None,
            ret_ty: None,
            span: at(0, 6),
        })),
        at(0, 6),
    )
}

#[test]
fn check_call_resolves_overload() {
    let p = program_with_f();
    let e = check_expression(&p, &C, &Vec::new(), call("f", vec![num(1)])).unwrap();
    assert!(type_eq(type_of(&e), &MIRTypeInner::Bool));
    match &e.inner {
        MIRExpressionInner::FunctionCall(c) => {
            assert!(type_eq(type_of(&c.args[0]), &MIRTypeInner::I32));
            let at = c.args_ty.as_ref().unwrap();
            assert_eq!(at.args.len(), 1);
            assert!(type_eq(&at.args[0], &MIRTypeInner::I32));
            assert!(type_eq(&c.ret_ty.as_ref().unwrap().ty, &MIRTypeInner::Bool));
        }
        _ => panic!("not a call"),
    }
}

#[test]
fn check_call_of_unknown_function() {
    let p = program_with_f();
    match check_expression(&p, &C, &Vec::new(), call("g", vec![num(1)])) {
        Err(TypeError::NoFunction { name, .. }) => assert_eq!(name, "g"),
        other => panic!("unexpected result {:?}", other),
    }
}

#[test]
fn check_call_with_incompatible_arguments() {
    let p = program_with_f();
    let arg = ex(MIRExpressionInner::Bool(true), at(0, 4));
    assert!(matches!(
        check_expression(&p, &C, &Vec::new(), call("f", vec![arg])),
        Err(TypeError::NoCompatibleFunction { .. })
    ));
}

#[test]
fn check_not_needs_bool() {
    let p = empty_program();
    let e = ex(MIRExpressionInner::Not(bx(num(1))), at(0, 2));
    assert!(matches!(
        check_expression(&p, &C, &Vec::new(), e),
        Err(TypeError::UnexpectedType { .. })
    ));
}

use insert::mir::function::insert_fn_arg_args;
use insert::mir::type_check::{check_constant, check_function};
use insert::mir::MIRStatement;

fn create(n: &str, t: MIRTypeInner, value: Option<MIRExpression>) -> MIRStatement {
    MIRStatement::CreateVariable { var: scope_var(n, t), value, span: at(0, 1) }
}

fn set_to(place: MIRExpression, value: MIRExpression) -> MIRStatement {
    MIRStatement::SetVariable { place, value, span: at(0, 1) }
}

fn fn_returning(t: MIRTypeInner, body: Vec<MIRStatement>) -> MIRFunction {
    MIRFunction {
        name: "g".to_string(),
        fn_type: MIRFunctionType::Export,
        ret_ty: ty(t),
        args: Vec::new(),
        args_ty: MIRFunctionArgs { args: Vec::new(), variadic: false },
        body,
        span: at(0, 1),
        extern_import: None,
    }
}

#[test]
fn function_body_is_typed_in_order() {
    let p = program_with_f();
    let body = vec![
        create("x", MIRTypeInner::I32, Some(ex(MIRExpressionInner::Add(bx(num(1)), bx(num(2))), at(0, 3)))),
        set_to(name("x"), ex(MIRExpressionInner::Add(bx(name("x")), bx(num(1))), at(0, 3))),
        MIRStatement::Return { expr: Some(name("x")), span: at(0, 1) },
    ];
    let f = check_function(&p, &C, fn_returning(MIRTypeInner::I32, body)).unwrap();
    match &f.body[0] {
        MIRStatement::CreateVariable { value: Some(v), .. } => {
            assert!(type_eq(type_of(v), &MIRTypeInner::I32))
        }
        _ => panic!("not a creation"),
    }
    match &f.body[1] {
        MIRStatement::SetVariable { value, .. } => assert!(type_eq(type_of(value), &MIRTypeInner::I32)),
        _ => panic!("not an assignment"),
    }
}

#[test]
fn shadowing_is_refused() {
    let p = empty_program();
    let body = vec![create("x", MIRTypeInner::I32, None), create("x", MIRTypeInner::U32, None)];
    match check_function(&p, &C, fn_returning(MIRTypeInner::Unit, body)) {
        Err(TypeError::Shadowing { name, .. }) => assert_eq!(name, "x"),
        other => panic!("unexpected result {:?}", other),
    }
}

#[test]
fn constants_cannot_be_set() {
    let p = program_with_f();
    let body = vec![set_to(name("LIMIT"), num(4))];
    assert!(matches!(
        check_function(&p, &C, fn_returning(MIRTypeInner::Unit, body)),
        Err(TypeError::SetConstant { .. })
    ));
}

#[test]
fn arguments_cannot_be_set() {
    let mut p = empty_program();
    let mut arg = scope_var("a", MIRTypeInner::I32);
    arg.arg = true;
    let mut g = fn_returning(MIRTypeInner::Unit, vec![set_to(name("a"), num(1))]);
    g.args = vec![arg];
    g.args_ty = MIRFunctionArgs { args: vec![MIRTypeInner::I32], variadic: false };
    p.functions.push(g);
    insert_fn_arg_args(&mut p);
    assert_eq!(p.functions[0].body.len(), 2);
    assert!(matches!(p.functions[0].body[0], MIRStatement::CreateVariable { value: None, .. }));
    let g = p.functions.pop().unwrap();
    assert!(matches!(
        check_function(&p, &C, g),
        Err(TypeError::SetArg { .. })
    ));
}

#[test]
fn bare_return_needs_unit() {
    let p = empty_program();
    let body = vec![MIRStatement::Return { expr: None, span: at(7, 13) }];
    match check_function(&p, &C, fn_returning(MIRTypeInner::I32, body)) {
        Err(TypeError::UnexpectedType { expected, actual, span }) => {
            assert!(type_eq(&expected.ty, &MIRTypeInner::I32));
            assert!(type_eq(&actual.ty, &MIRTypeInner::Unit));
            assert_eq!(span.start, 7);
        }
        other => panic!("unexpected result {:?}", other),
    }
    let ok = vec![MIRStatement::Return { expr: None, span: at(7, 13) }];
    assert!(check_function(&p, &C, fn_returning(MIRTypeInner::Unit, ok)).is_ok());
}

#[test]
fn nested_scope_ends_with_its_block() {
    let p = empty_program();
    let body = vec![
        MIRStatement::ScopeStatement {
            body: vec![create("y", MIRTypeInner::Bool, Some(ex(MIRExpressionInner::Bool(true), at(0, 4))))],
            span: at(0, 1),
        },
        set_to(name("y"), ex(MIRExpressionInner::Bool(false), at(0, 5))),
    ];
    match check_function(&p, &C, fn_returning(MIRTypeInner::Unit, body)) {
        Err(TypeError::UnknownVariable { name, .. }) => assert_eq!(name, "y"),
        other => panic!("unexpected result {:?}", other),
    }
}

#[test]
fn if_condition_must_be_bool() {
    let p = empty_program();
    let body = vec![MIRStatement::IfStatement {
        condition: num(1),
        on_true: Vec::new(),
        on_false: Vec::new(),
        span: at(0, 2),
    }];
    assert!(matches!(
        check_function(&p, &C, fn_returning(MIRTypeInner::Unit, body)),
        Err(TypeError::UnexpectedType { .. })
    ));
}

#[test]
fn earlier_variables_are_in_scope() {
    let p = empty_program();
    let body = vec![
        create("a", MIRTypeInner::U32, Some(num(1))),
        create("b", MIRTypeInner::U32, Some(name("a"))),
    ];
    assert!(check_function(&p, &C, fn_returning(MIRTypeInner::Unit, body)).is_ok());
}

#[test]
fn constant_value_takes_constant_type() {
    let p = program_with_f();
    let c = MIRConstant { name: "M".to_string(), ty: ty(MIRTypeInner::U32), value: num(7), span: at(0, 1) };
    let c = check_constant(&p, &C, c).unwrap();
    assert!(type_eq(type_of(&c.value), &MIRTypeInner::U32));
}

use insert::mir::type_check::type_check;

#[test]
fn type_check_types_whole_program() {
    let mut p = program_with_f();
    p.functions[0].body = vec![MIRStatement::Return {
        expr: Some(ex(MIRExpressionInner::Less(bx(num(1)), bx(name("LIMIT"))), at(0, 3))),
        span: at(0, 1),
    }];
    let mut q = p;
    type_check(&mut q, &C).unwrap();
    assert!(type_eq(type_of(&q.constants[0].value), &MIRTypeInner::U32));
    match &q.functions[0].body[0] {
        MIRStatement::Return { expr: Some(e), .. } => assert!(type_eq(type_of(e), &MIRTypeInner::Bool)),
        _ => panic!("not a return"),
    }
    assert_eq!(q.function_names.len(), 1);
}

#[test]
fn type_check_reports_first_error() {
    let mut p = program_with_f();
    p.constants[0].value = ex(MIRExpressionInner::Bool(true), at(3, 7));
    p.functions[0].body = vec![MIRStatement::Return { expr: None, span: at(0, 1) }];
    let mut q = p;
    match type_check(&mut q, &C) {
        Err(TypeError::UnexpectedType { span, .. }) => assert_eq!(span.start, 3),
        other => panic!("unexpected result {:?}", other),
    }
    assert!(q.constants[0].value.ty.is_none());
    assert_eq!(q.functions.len(), 1);
}

use insert::mir::label::label_to_index;

#[test]
fn jumps_get_the_position_of_their_label() {
    let mut p = empty_program();
    let body = vec![
        MIRStatement::Label { name: "a".to_string(), span: at(0, 1) },
        MIRStatement::Goto { name: "a".to_string(), index: None, span: at(0, 1) },
        MIRStatement::GotoNotEqual {
            name: "b".to_string(),
            index: None,
            condition: ex(MIRExpressionInner::Bool(true), at(0, 4)),
            span: at(0, 1),
        },
        MIRStatement::Label { name: "b".to_string(), span: at(0, 1) },
        MIRStatement::Label { name: "a".to_string(), span: at(0, 1) },
    ];
    p.functions.push(fn_returning(MIRTypeInner::Unit, body));
    label_to_index(&mut p);
    let b = &p.functions[0].body;
    assert!(matches!(b[1], MIRStatement::Goto { index: Some(4), .. }));
    assert!(matches!(b[2], MIRStatement::GotoNotEqual { index: Some(3), .. }));
    assert!(matches!(b[0], MIRStatement::Label { .. }));
    assert_eq!(b.len(), 5);
}

use insert::mir::function::resolve_fns_to_vars;

fn call_stmt(fname: &str) -> MIRStatement {
    MIRStatement::FunctionCall(MIRFnCall {
        source: MIRFnSource::Direct(fname.to_string(), at(9, 10)),
        args: vec![num(1)],
        args_ty: None,
        ret_ty: None,
        span: at(0, 6),
    })
}

fn is_indirect_through(s: &MIRStatement, n: &str) -> bool {
    match s {
        MIRStatement::FunctionCall(c) => match &c.source {
            MIRFnSource::Indirect(e) => {
                matches!(&e.inner, MIRExpressionInner::Variable(v, None) if v == n) && e.span.start == 9
            }
            MIRFnSource::Direct(..) => false,
        },
        _ => false,
    }
}

#[test]
fn calls_of_variables_go_through_them() {
    let fn_ty = MIRTypeInner::FunctionPtr(
        MIRFunctionArgs { args: vec![MIRTypeInner::I32], variadic: false },
        Box::new(MIRTypeInner::Unit),
    );
    let mut p = empty_program();
    let body = vec![
        call_stmt("f"),
        create("f", fn_ty.clone(), None),
        call_stmt("f"),
        call_stmt("g"),
        MIRStatement::ScopeStatement {
            body: vec![create("h", fn_ty.clone(), None), call_stmt("h")],
            span: at(0, 1),
        },
        call_stmt("h"),
        create(
            "x",
            MIRTypeInner::I32,
            Some(ex(MIRExpressionInner::FunctionCall(Box::new(MIRFnCall {
                source: MIRFnSource::Direct("f".to_string(), at(9, 10)),
                args: Vec::new(),
                args_ty: None,
                ret_ty: None,
                span: at(0, 3),
            })), at(0, 3))),
        ),
    ];
    p.functions.push(fn_returning(MIRTypeInner::Unit, body));
    resolve_fns_to_vars(&mut p);
    let b = &p.functions[0].body;
    assert!(!is_indirect_through(&b[0], "f"));
    assert!(is_indirect_through(&b[2], "f"));
    assert!(!is_indirect_through(&b[3], "g"));
    match &b[4] {
        MIRStatement::ScopeStatement { body, .. } => assert!(is_indirect_through(&body[1], "h")),
        _ => panic!("not a scope"),
    }
    assert!(!is_indirect_through(&b[5], "h"));
    match &b[6] {
        MIRStatement::CreateVariable { value: Some(v), .. } => match &v.inner {
            MIRExpressionInner::FunctionCall(c) => assert!(matches!(c.source, MIRFnSource::Indirect(_))),
            _ => panic!("not a call"),
        },
        _ => panic!("not a creation"),
    }
}
