use insert::mir::mangle::mangle_names;
use insert::mir::{
    FunctionOverloads, MIRDeclarationKey, MIRExpression, MIRExpressionInner, MIRFnCall, MIRFnSource,
    MIRFunction, MIRFunctionArgs, MIRFunctionKey, MIRFunctionType, MIRProgram, MIRStatement, MIRStatic,
    MIRStaticKey, MIRType, MIRTypeInner, MIRVariable,
};
use insert::parser::span::Span;
use insert::targets::C;

fn ty(t: MIRTypeInner) -> MIRType {
    MIRType { ty: t, span: None }
}

fn ex(inner: MIRExpressionInner) -> MIRExpression {
    MIRExpression { inner, ty: Some(ty(MIRTypeInner::I32)), span: Span::empty() }
}

fn no_args() -> MIRFunctionArgs {
    MIRFunctionArgs { args: Vec::new(), variadic: false }
}

fn create(n: &str, i: usize) -> MIRStatement {
    MIRStatement::CreateVariable {
        var: MIRVariable { name: n.to_string(), ty: ty(MIRTypeInner::I32), arg: false, var_idx: Some(i), span: Span::empty() },
        value: Some(ex(MIRExpressionInner::Number(1))),
        span: Span::empty(),
    }
}

fn function(name: &str, body: Vec<MIRStatement>) -> MIRFunction {
    MIRFunction {
        name: name.to_string(),
        fn_type: MIRFunctionType::Export,
        ret_ty: ty(MIRTypeInner::I32),
        args: Vec::new(),
        args_ty: no_args(),
        body,
        span: Span::empty(),
        extern_import: None,
    }
}

fn overloads(k: usize) -> FunctionOverloads {
    let mut o = FunctionOverloads::new();
    o.push(no_args(), MIRFunctionKey(k));
    o
}

fn sample() -> MIRProgram {
    let call = MIRStatement::FunctionCall(MIRFnCall {
        source: MIRFnSource::Direct("helper".to_string(), Span::empty()),
        args: Vec::new(),
        args_ty: Some(no_args()),
        ret_ty: Some(ty(MIRTypeInner::I32)),
        span: Span::empty(),
    });
    let read_static = MIRStatement::SetVariable {
        place: ex(MIRExpressionInner::Variable("x".to_string(), Some(0))),
        value: ex(MIRExpressionInner::Variable("counter".to_string(), None)),
        span: Span::empty(),
    };
    MIRProgram {
        decls: vec![
            MIRDeclarationKey::Static(MIRStaticKey(0)),
            MIRDeclarationKey::Function(MIRFunctionKey(0)),
            MIRDeclarationKey::Function(MIRFunctionKey(1)),
        ],
        constants: Vec::new(),
        statics: vec![MIRStatic {
            name: "counter".to_string(),
            ty: ty(MIRTypeInner::I32),
            value: ex(MIRExpressionInner::Number(0)),
            span: Span::empty(),
        }],
        functions: vec![
            function("main", vec![create("x", 0), read_static, call]),
            function("helper", vec![create("y", 0), create("z", 1)]),
        ],
        markers: Vec::new(),
        function_names: vec![("main".to_string(), overloads(0)), ("helper".to_string(), overloads(1))],
        required_imports: Vec::new(),
    }
}

fn created_name(s: &MIRStatement) -> &str {
    match s {
        MIRStatement::CreateVariable { var, .. } => &var.name,
        _ => panic!("not a creation"),
    }
}

#[test]
fn statics_then_functions_then_variables_get_short_names() {
    let mut p = sample();
    assert!(mangle_names(&mut p, &C));
    assert_eq!(p.statics[0].name, "a");
    assert_eq!(p.functions[0].name, "main");
    assert_eq!(p.functions[1].name, "b");
    // Local names start after the global ones, separately in each function.
    assert_eq!(created_name(&p.functions[0].body[0]), "c");
    assert_eq!(created_name(&p.functions[1].body[0]), "c");
    assert_eq!(created_name(&p.functions[1].body[1]), "d");
}

#[test]
fn uses_follow_their_declarations() {
    let mut p = sample();
    assert!(mangle_names(&mut p, &C));
    match &p.functions[0].body[1] {
        MIRStatement::SetVariable { place, value, .. } => {
            assert!(matches!(&place.inner, MIRExpressionInner::Variable(n, Some(0)) if n == "c"));
            assert!(matches!(&value.inner, MIRExpressionInner::Variable(n, None) if n == "a"));
        },
        _ => panic!("not an assignment"),
    }
    match &p.functions[0].body[2] {
        MIRStatement::FunctionCall(c) => {
            assert!(matches!(&c.source, MIRFnSource::Direct(n, _) if n == "b"));
        },
        _ => panic!("not a call"),
    }
}

#[test]
fn overloads_are_listed_under_the_new_names() {
    let mut p = sample();
    assert!(mangle_names(&mut p, &C));
    assert_eq!(p.function_names.len(), 2);
    assert_eq!(p.function_names[0].0, "main");
    assert_eq!(p.function_names[0].1.keys(), vec![MIRFunctionKey(0)]);
    assert_eq!(p.function_names[1].0, "b");
    assert_eq!(p.function_names[1].1.keys(), vec![MIRFunctionKey(1)]);
}

#[test]
fn declarations_not_exported_keep_their_names() {
    let mut p = sample();
    p.decls = vec![MIRDeclarationKey::Function(MIRFunctionKey(0))];
    assert!(mangle_names(&mut p, &C));
    assert_eq!(p.statics[0].name, "counter");
    assert_eq!(p.functions[0].name, "main");
    assert_eq!(p.functions[1].name, "helper");
    assert_eq!(created_name(&p.functions[1].body[0]), "y");
    assert_eq!(created_name(&p.functions[0].body[0]), "a");
}
