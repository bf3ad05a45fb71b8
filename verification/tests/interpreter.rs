use insert::mir::interpreter::{
    const_eval, call_function, eval_const_named, eval_expr, exec_statement, EvalError, EvalStore, InterpValue,
    InterpreterScope,
};
use insert::mir::{
    FunctionOverloads, MIRConstant, MIRExpression, MIRExpressionInner, MIRFnCall, MIRFnSource,
    MIRFunction, MIRFunctionArgs, MIRFunctionKey, MIRFunctionType, MIRProgram, MIRStatement,
    MIRType, MIRTypeInner, MIRVariable,
};
use insert::parser::span::Span;

fn ty(t: MIRTypeInner) -> MIRType {
    MIRType { ty: t, span: None }
}

fn typed(inner: MIRExpressionInner, t: MIRTypeInner) -> MIRExpression {
    MIRExpression { inner, ty: Some(ty(t)), span: Span::empty() }
}

fn i32n(n: i128) -> MIRExpression {
    typed(MIRExpressionInner::Number(n), MIRTypeInner::I32)
}

fn var(n: &str) -> MIRExpression {
    typed(MIRExpressionInner::Variable(n.to_string(), None), MIRTypeInner::I32)
}

fn bx(e: MIRExpression) -> Box<MIRExpression> {
    Box::new(e)
}

fn empty_program() -> MIRProgram {
    MIRProgram {
        decls: Vec::new(),
        constants: Vec::new(),
        statics: Vec::new(),
        functions: Vec::new(),
        markers: Vec::new(),
        function_names: Vec::new(),
        required_imports: Vec::new(),
    }
}

fn constant(name: &str, value: MIRExpression) -> MIRConstant {
    MIRConstant { name: name.to_string(), ty: ty(MIRTypeInner::I32), value, span: Span::empty() }
}

fn local(n: &str) -> MIRVariable {
    MIRVariable { name: n.to_string(), ty: ty(MIRTypeInner::I32), arg: false, var_idx: None, span: Span::empty() }
}

#[test]
fn constants_evaluate_through_other_constants() {
    let mut p = empty_program();
    p.constants.push(constant("A", i32n(4)));
    p.constants.push(constant(
        "B",
        typed(MIRExpressionInner::Mul(bx(var("A")), bx(i32n(3))), MIRTypeInner::I32),
    ));
    let mut st = EvalStore::new();
    let v = eval_const_named(&p, &mut st, &"B".to_string(), 100);
    assert_eq!(v, Ok(InterpValue::I32(12)));
    assert_eq!(st.constants.len(), 2);
}

#[test]
fn a_constant_that_needs_itself_is_a_loop() {
    let mut p = empty_program();
    p.constants.push(constant(
        "A",
        typed(MIRExpressionInner::Add(bx(var("A")), bx(i32n(1))), MIRTypeInner::I32),
    ));
    let mut st = EvalStore::new();
    assert_eq!(eval_const_named(&p, &mut st, &"A".to_string(), 100), Err(EvalError::EvalLoop));
}

#[test]
fn reading_an_unset_variable_fails() {
    let p = empty_program();
    let mut st = EvalStore::new();
    let mut sc = InterpreterScope::new();
    let create = MIRStatement::CreateVariable { var: local("x"), value: None, span: Span::empty() };
    assert_eq!(exec_statement(&p, &mut st, &mut sc, &create, 10), Ok(None));
    assert_eq!(eval_expr(&p, &mut st, &sc, &var("x"), false, 10), Err(EvalError::UnsetVariable));
}

#[test]
fn overflow_and_division_by_zero_are_errors() {
    let p = empty_program();
    let mut st = EvalStore::new();
    let sc = InterpreterScope::new();
    let big = typed(MIRExpressionInner::Add(bx(i32n(2147483647)), bx(i32n(1))), MIRTypeInner::I32);
    assert_eq!(eval_expr(&p, &mut st, &sc, &big, false, 10), Err(EvalError::Overflow));
    let div = typed(MIRExpressionInner::Div(bx(i32n(1)), bx(i32n(0))), MIRTypeInner::I32);
    assert_eq!(eval_expr(&p, &mut st, &sc, &div, false, 10), Err(EvalError::DivisionByZero));
    let lt = typed(MIRExpressionInner::Less(bx(i32n(-3)), bx(i32n(2))), MIRTypeInner::Bool);
    assert_eq!(eval_expr(&p, &mut st, &sc, &lt, false, 10), Ok(InterpValue::Bool(true)));
}

#[test]
fn a_flattened_loop_runs_to_its_return() {
    // i = 0; s = 0; label 2: if !(i < 4) goto 6; s += i; i += 1; goto 2; return s
    let mut p = empty_program();
    let body = vec![
        MIRStatement::CreateVariable { var: local("i"), value: Some(i32n(0)), span: Span::empty() },
        MIRStatement::CreateVariable { var: local("s"), value: Some(i32n(0)), span: Span::empty() },
        MIRStatement::GotoNotEqual {
            name: "end".to_string(),
            index: Some(6),
            condition: typed(MIRExpressionInner::Less(bx(var("i")), bx(i32n(4))), MIRTypeInner::Bool),
            span: Span::empty(),
        },
        MIRStatement::AddAssign { place: var("s"), value: var("i"), span: Span::empty() },
        MIRStatement::IncrementVariable { place: var("i"), span: Span::empty() },
        MIRStatement::Goto { name: "top".to_string(), index: Some(2), span: Span::empty() },
        MIRStatement::Return { expr: Some(var("s")), span: Span::empty() },
    ];
    p.functions.push(MIRFunction {
        name: "sum".to_string(),
        fn_type: MIRFunctionType::Export,
        ret_ty: ty(MIRTypeInner::I32),
        args: Vec::new(),
        args_ty: MIRFunctionArgs { args: Vec::new(), variadic: false },
        body,
        span: Span::empty(),
        extern_import: None,
    });
    let mut st = EvalStore::new();
    assert_eq!(call_function(&p, &mut st, MIRFunctionKey(0), &Vec::new(), 1000), Ok(InterpValue::I32(6)));
    let mut st = EvalStore::new();
    assert_eq!(call_function(&p, &mut st, MIRFunctionKey(0), &Vec::new(), 5), Err(EvalError::OutOfFuel));
}

#[test]
fn calls_resolve_overloads_and_natives_make_strings() {
    let mut p = empty_program();
    p.functions.push(MIRFunction {
        name: "string".to_string(),
        fn_type: MIRFunctionType::Extern,
        ret_ty: ty(MIRTypeInner::String),
        args: Vec::new(),
        args_ty: MIRFunctionArgs { args: vec![MIRTypeInner::I32], variadic: false },
        body: Vec::new(),
        span: Span::empty(),
        extern_import: None,
    });
    let mut ov = FunctionOverloads::new();
    ov.push(MIRFunctionArgs { args: vec![MIRTypeInner::I32], variadic: false }, MIRFunctionKey(0));
    p.function_names.push(("string".to_string(), ov));
    let call = typed(
        MIRExpressionInner::FunctionCall(Box::new(MIRFnCall {
            source: MIRFnSource::Direct("string".to_string(), Span::empty()),
            args: vec![i32n(-42)],
            args_ty: None,
            ret_ty: None,
            span: Span::empty(),
        })),
        MIRTypeInner::String,
    );
    let mut st = EvalStore::new();
    let sc = InterpreterScope::new();
    let v = eval_expr(&p, &mut st, &sc, &call, false, 10);
    match v {
        Ok(InterpValue::Str(i)) => assert_eq!(st.text(i).map(|s| s.as_str()), Some("-42")),
        other => panic!("unexpected {:?}", other),
    }
    let index = typed(
        MIRExpressionInner::Index(bx(typed(MIRExpressionInner::String("hey".to_string()), MIRTypeInner::String)), bx(i32n(1))),
        MIRTypeInner::Char,
    );
    assert_eq!(eval_expr(&p, &mut st, &sc, &index, false, 10), Ok(InterpValue::Char('e')));
}

#[test]
fn references_write_through_to_their_variable() {
    let p = empty_program();
    let mut st = EvalStore::new();
    let mut sc = InterpreterScope::new();
    let x = MIRStatement::CreateVariable { var: local("x"), value: Some(i32n(1)), span: Span::empty() };
    exec_statement(&p, &mut st, &mut sc, &x, 10).unwrap();
    let r = MIRStatement::CreateVariable {
        var: local("r"),
        value: Some(typed(MIRExpressionInner::Ref(bx(var("x"))), MIRTypeInner::I32)),
        span: Span::empty(),
    };
    exec_statement(&p, &mut st, &mut sc, &r, 10).unwrap();
    let set = MIRStatement::SetVariable {
        place: typed(MIRExpressionInner::Deref(bx(var("r"))), MIRTypeInner::I32),
        value: i32n(9),
        span: Span::empty(),
    };
    exec_statement(&p, &mut st, &mut sc, &set, 10).unwrap();
    assert_eq!(eval_expr(&p, &mut st, &sc, &var("x"), false, 10), Ok(InterpValue::I32(9)));
}

#[test]
fn a_constant_is_evaluated_once() {
    let mut p = empty_program();
    p.constants.push(constant("A", typed(MIRExpressionInner::Add(bx(i32n(2)), bx(i32n(3))), MIRTypeInner::I32)));
    let mut st = EvalStore::new();
    let first = eval_const_named(&p, &mut st, &"A".to_string(), 10);
    let cached = st.constants.len();
    let second = eval_const_named(&p, &mut st, &"A".to_string(), 1);
    assert_eq!(first, Ok(InterpValue::I32(5)));
    assert_eq!(second, first);
    assert_eq!(st.constants.len(), cached);
    assert_eq!(eval_const_named(&p, &mut st, &"B".to_string(), 10), Err(EvalError::NotFound));
}

#[test]
fn const_eval_writes_values_back_as_literals() {
    let mut p = empty_program();
    p.constants.push(constant("A", typed(MIRExpressionInner::Mul(bx(i32n(6)), bx(i32n(7))), MIRTypeInner::I32)));
    p.constants.push(constant("B", typed(MIRExpressionInner::Add(bx(var("B")), bx(i32n(1))), MIRTypeInner::I32)));
    p.constants.push(constant(
        "C",
        typed(MIRExpressionInner::Array(vec![i32n(1), var("A")]), MIRTypeInner::Array(Box::new(MIRTypeInner::I32))),
    ));
    assert!(const_eval(&mut p, 100));
    assert!(matches!(p.constants[0].value.inner, MIRExpressionInner::Number(42)));
    // B needs itself: it is left as it was.
    assert!(matches!(p.constants[1].value.inner, MIRExpressionInner::Add(..)));
    match &p.constants[2].value.inner {
        MIRExpressionInner::Array(es) => {
            assert!(matches!(es[0].inner, MIRExpressionInner::Number(1)));
            assert!(matches!(es[1].inner, MIRExpressionInner::Number(42)));
        },
        _ => panic!("not an array"),
    }
}

#[test]
fn more_fuel_gives_the_same_result() {
    let mut p = empty_program();
    p.constants.push(constant("A", typed(MIRExpressionInner::Mul(bx(i32n(6)), bx(i32n(7))), MIRTypeInner::I32)));
    let mut st1 = EvalStore::new();
    let mut st2 = EvalStore::new();
    let a = eval_const_named(&p, &mut st1, &"A".to_string(), 5);
    let b = eval_const_named(&p, &mut st2, &"A".to_string(), 500);
    assert_eq!(a, Ok(InterpValue::I32(42)));
    assert_eq!(a, b);
    let mut st3 = EvalStore::new();
    assert_eq!(eval_const_named(&p, &mut st3, &"A".to_string(), 2), Err(EvalError::OutOfFuel));
}
