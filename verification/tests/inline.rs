use insert::mir::inline::{copy_expr, inline_consts};
use insert::mir::{
    MIRConstant, MIRExpression, MIRExpressionInner, MIRFunction, MIRFunctionArgs, MIRFunctionType,
    MIRProgram, MIRStatement, MIRType, MIRTypeInner,
};
use insert::parser::span::Span;

fn at(start: usize, end: usize) -> Span {
    Span { file: "t".to_string(), start, end, text: String::new() }
}

fn name(n: &str) -> MIRExpression {
    MIRExpression {
        inner: MIRExpressionInner::Variable(n.to_string(), None),
        ty: None,
        span: at(0, 1),
    }
}

fn program(body: Vec<MIRStatement>) -> MIRProgram {
    MIRProgram {
        decls: Vec::new(),
        constants: vec![MIRConstant {
            name: "LIMIT".to_string(),
            ty: MIRType { ty: MIRTypeInner::I32, span: None },
            value: MIRExpression {
                inner: MIRExpressionInner::Number(3),
                ty: Some(MIRType { ty: MIRTypeInner::I32, span: None }),
                span: at(40, 41),
            },
            span: at(30, 42),
        }],
        statics: Vec::new(),
        functions: vec![MIRFunction {
            name: "f".to_string(),
            fn_type: MIRFunctionType::Export,
            ret_ty: MIRType { ty: MIRTypeInner::I32, span: None },
            args: Vec::new(),
            args_ty: MIRFunctionArgs { args: Vec::new(), variadic: false },
            body,
            span: at(0, 1),
            extern_import: None,
        }],
        markers: Vec::new(),
        function_names: Vec::new(),
        required_imports: Vec::new(),
    }
}

fn is_three(e: &MIRExpression) -> bool {
    matches!(e.inner, MIRExpressionInner::Number(3)) && e.span.start == 40 && e.ty.is_some()
}

#[test]
fn constants_are_replaced_by_their_values_everywhere() {
    let sum = MIRExpression {
        inner: MIRExpressionInner::Add(Box::new(name("LIMIT")), Box::new(name("y"))),
        ty: None,
        span: at(0, 1),
    };
    let body = vec![
        MIRStatement::SetVariable { place: name("x"), value: sum, span: at(0, 1) },
        MIRStatement::IfStatement {
            condition: name("LIMIT"),
            on_true: vec![MIRStatement::Return { expr: Some(name("LIMIT")), span: at(0, 1) }],
            on_false: Vec::new(),
            span: at(0, 1),
        },
    ];
    let mut p = program(body);
    assert!(inline_consts(&mut p));
    match &p.functions[0].body[0] {
        MIRStatement::SetVariable { place, value, .. } => {
            assert!(matches!(&place.inner, MIRExpressionInner::Variable(n, None) if n == "x"));
            match &value.inner {
                MIRExpressionInner::Add(l, r) => {
                    assert!(is_three(l));
                    assert!(matches!(&r.inner, MIRExpressionInner::Variable(n, None) if n == "y"));
                }
                _ => panic!("sum expected"),
            }
        }
        _ => panic!("assignment expected"),
    }
    match &p.functions[0].body[1] {
        MIRStatement::IfStatement { condition, on_true, .. } => {
            assert!(is_three(condition));
            match &on_true[0] {
                MIRStatement::Return { expr: Some(e), .. } => assert!(is_three(e)),
                _ => panic!("return expected"),
            }
        }
        _ => panic!("if expected"),
    }
    // The constant itself stays.
    assert_eq!(p.constants.len(), 1);
}

#[test]
fn a_copy_keeps_every_part() {
    let e = MIRExpression {
        inner: MIRExpressionInner::Array(vec![name("a"), name("b")]),
        ty: None,
        span: at(5, 9),
    };
    let c = copy_expr(&e);
    assert_eq!(c.span.start, 5);
    match &c.inner {
        MIRExpressionInner::Array(v) => {
            assert_eq!(v.len(), 2);
            assert!(matches!(&v[1].inner, MIRExpressionInner::Variable(n, None) if n == "b"));
        }
        _ => panic!("array expected"),
    }
}
