use insert::mir::opt::{remove_dead_code, remove_trivial_ifs};
use insert::mir::quine::{ensure_no_markers_block, ensure_no_markers_expression};
use insert::mir::{
    MIRExpression, MIRExpressionInner, MIRFunction, MIRFunctionArgs, MIRFunctionType, MIRMarker,
    MIRStatement, MIRType, MIRTypeInner,
};
use insert::parser::span::Span;

fn ex(inner: MIRExpressionInner) -> MIRExpression {
    MIRExpression { inner, ty: None, span: Span::empty() }
}

fn span_at(start: usize) -> Span {
    Span { file: "main.int".to_string(), start, end: start + 1, text: "x".to_string() }
}

fn ret(n: i128) -> MIRStatement {
    MIRStatement::Return { expr: Some(ex(MIRExpressionInner::Number(n))), span: Span::empty() }
}

fn function(body: Vec<MIRStatement>) -> MIRFunction {
    MIRFunction {
        name: "f".to_string(),
        fn_type: MIRFunctionType::Export,
        ret_ty: MIRType { ty: MIRTypeInner::I32, span: None },
        args: Vec::new(),
        args_ty: MIRFunctionArgs { args: Vec::new(), variadic: false },
        body,
        span: Span::empty(),
        extern_import: None,
    }
}

fn returned(s: &MIRStatement) -> Option<i128> {
    match s {
        MIRStatement::Return { expr: Some(MIRExpression { inner: MIRExpressionInner::Number(n), .. }), .. } => Some(*n),
        _ => None,
    }
}

#[test]
fn trivial_if_true_takes_then_branch() {
    let mut f = function(vec![MIRStatement::IfStatement {
        condition: ex(MIRExpressionInner::Bool(true)),
        on_true: vec![ret(1), ret(2)],
        on_false: vec![ret(3)],
        span: Span::empty(),
    }]);
    assert_eq!(remove_trivial_ifs(&mut f), (true, true));
    assert_eq!(f.body.len(), 2);
    assert_eq!(returned(&f.body[0]), Some(1));
    assert_eq!(returned(&f.body[1]), Some(2));
    assert_eq!(f.name, "f");
}

#[test]
fn trivial_if_nested_in_loop() {
    let mut f = function(vec![MIRStatement::LoopStatement {
        condition: None,
        body: vec![MIRStatement::IfStatement {
            condition: ex(MIRExpressionInner::Bool(false)),
            on_true: vec![ret(1)],
            on_false: vec![ret(4)],
            span: Span::empty(),
        }],
        iterate: Vec::new(),
        span: Span::empty(),
    }]);
    assert_eq!(remove_trivial_ifs(&mut f), (true, true));
    match &f.body[0] {
        MIRStatement::LoopStatement { body, .. } => {
            assert_eq!(body.len(), 1);
            assert_eq!(returned(&body[0]), Some(4));
        }
        _ => panic!("expected a loop"),
    }
}

#[test]
fn non_literal_if_stays() {
    let mut f = function(vec![MIRStatement::IfStatement {
        condition: ex(MIRExpressionInner::Variable("c".to_string(), Some(0))),
        on_true: vec![ret(1)],
        on_false: Vec::new(),
        span: Span::empty(),
    }]);
    assert_eq!(remove_trivial_ifs(&mut f), (true, false));
    assert!(matches!(f.body[0], MIRStatement::IfStatement { .. }));
}

#[test]
fn dead_code_after_return_removed() {
    let mut f = function(vec![ret(1), ret(2), MIRStatement::BreakStatement { span: Span::empty() }]);
    assert_eq!(remove_dead_code(&mut f), (true, true));
    assert_eq!(f.body.len(), 1);
    assert_eq!(returned(&f.body[0]), Some(1));
}

#[test]
fn dead_code_in_nested_block_removed() {
    let mut f = function(vec![
        MIRStatement::ScopeStatement {
            body: vec![MIRStatement::ContinueStatement { span: Span::empty() }, ret(9)],
            span: Span::empty(),
        },
        ret(5),
    ]);
    assert_eq!(remove_dead_code(&mut f), (true, true));
    // The scope itself doesn't end the outer block.
    assert_eq!(f.body.len(), 2);
    match &f.body[0] {
        MIRStatement::ScopeStatement { body, .. } => assert_eq!(body.len(), 1),
        _ => panic!("expected a scope"),
    }
}

#[test]
fn live_code_untouched() {
    let mut f = function(vec![ret(1)]);
    assert_eq!(remove_dead_code(&mut f), (true, false));
    assert_eq!(f.body.len(), 1);
}

#[test]
fn binding_in_expression_reported() {
    let marker = |name: &str, at: usize| MIRMarker { name: name.to_string(), span: span_at(at) };
    let bound = MIRExpression {
        inner: MIRExpressionInner::Binding(
            marker("l", 1),
            Box::new(ex(MIRExpressionInner::Number(0))),
            marker("r", 2),
        ),
        ty: None,
        span: span_at(7),
    };
    let e = ex(MIRExpressionInner::Add(Box::new(ex(MIRExpressionInner::Number(1))), Box::new(bound)));
    match ensure_no_markers_expression(&e) {
        Err(sp) => assert_eq!(sp.start, 7),
        Ok(()) => panic!("expected an error"),
    }
}

#[test]
fn expression_without_binding_accepted() {
    let e = ex(MIRExpressionInner::Neg(Box::new(ex(MIRExpressionInner::Number(1)))));
    assert!(ensure_no_markers_expression(&e).is_ok());
}

#[test]
fn marker_statement_in_block_reported() {
    let block = vec![
        ret(0),
        MIRStatement::IfStatement {
            condition: ex(MIRExpressionInner::Bool(true)),
            on_true: vec![MIRStatement::MarkerStatement { name: "m".to_string(), span: span_at(3) }],
            on_false: Vec::new(),
            span: span_at(11),
        },
    ];
    match ensure_no_markers_block(&block) {
        Err(sp) => assert_eq!(sp.start, 3),
        Ok(()) => panic!("expected an error"),
    }
    assert!(ensure_no_markers_block(&vec![ret(1)]).is_ok());
}
