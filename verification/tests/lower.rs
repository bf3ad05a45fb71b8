use insert::codegen::c::lower::CLowerer;
use insert::codegen::c::program::{lower_decls, LowerOptions};
use insert::codegen::token::{Token, TokenStyle, Tokens};
use insert::mir::{
    MIRDeclaration, MIRExpression, MIRExpressionInner, MIRFnCall, MIRFnSource, MIRFunction,
    MIRFunctionArgs, MIRFunctionType, MIRMarker, MIRStatement, MIRStatic, MIRType, MIRTypeInner,
    MIRVariable,
};
use insert::parser::span::Span;

fn ex(inner: MIRExpressionInner) -> MIRExpression {
    MIRExpression { inner, ty: None, span: Span::empty() }
}

fn num(n: i128) -> MIRExpression {
    ex(MIRExpressionInner::Number(n))
}

fn var(name: &str) -> MIRExpression {
    ex(MIRExpressionInner::Variable(name.to_string(), Some(0)))
}

fn bx(e: MIRExpression) -> Box<MIRExpression> {
    Box::new(e)
}

fn texts(t: &Tokens) -> Vec<String> {
    t.to_vec().into_iter().map(|tok| tok.text.unwrap_or_default()).collect()
}

fn ty(t: MIRTypeInner) -> MIRType {
    MIRType { ty: t, span: None }
}

fn main_returning(n: i128) -> MIRFunction {
    MIRFunction {
        name: "main".to_string(),
        fn_type: MIRFunctionType::Export,
        ret_ty: ty(MIRTypeInner::I32),
        args: Vec::new(),
        args_ty: MIRFunctionArgs { args: Vec::new(), variadic: false },
        body: vec![MIRStatement::Return { expr: Some(num(n)), span: Span::empty() }],
        span: Span::empty(),
        extern_import: None,
    }
}

#[test]
fn lower_respects_precedence() {
    let mut l = CLowerer::new();
    let e = ex(MIRExpressionInner::Add(bx(num(1)), bx(ex(MIRExpressionInner::Mul(bx(num(2)), bx(num(3)))))));
    assert_eq!(texts(&l.lower_expression(&e)), vec!["1", "+", "2", "*", "3"]);
    let e = ex(MIRExpressionInner::Mul(bx(ex(MIRExpressionInner::Add(bx(num(1)), bx(num(2))))), bx(num(3))));
    assert_eq!(texts(&l.lower_expression(&e)), vec!["(", "1", "+", "2", ")", "*", "3"]);
}

#[test]
fn lower_comparison_with_zero() {
    let mut l = CLowerer::new();
    let e = ex(MIRExpressionInner::Equal(bx(var("x")), bx(num(0))));
    assert_eq!(texts(&l.lower_expression(&e)), vec!["!", "x"]);
    let e = ex(MIRExpressionInner::NotEqual(bx(var("x")), bx(num(0))));
    assert_eq!(texts(&l.lower_expression(&e)), vec!["x"]);
}

#[test]
fn lower_literals() {
    let mut l = CLowerer::new();
    assert_eq!(texts(&l.lower_expression(&ex(MIRExpressionInner::String("a\"b".to_string())))), vec!["\"a\\\"b\""]);
    assert_eq!(texts(&l.lower_expression(&ex(MIRExpressionInner::Char('A')))), vec!["65"]);
    assert_eq!(texts(&l.lower_expression(&ex(MIRExpressionInner::Char('\u{20ac}')))), vec!["'8364'"]);
    assert_eq!(texts(&l.lower_expression(&ex(MIRExpressionInner::Bool(true)))), vec!["1"]);
    assert_eq!(texts(&l.lower_expression(&num(-42))), vec!["-42"]);
}

#[test]
fn lower_call_expression() {
    let mut l = CLowerer::new();
    let call = MIRFnCall {
        source: MIRFnSource::Direct("f".to_string(), Span::empty()),
        args: vec![num(1), num(2)],
        args_ty: None,
        ret_ty: None,
        span: Span::empty(),
    };
    let e = ex(MIRExpressionInner::FunctionCall(Box::new(call)));
    assert_eq!(texts(&l.lower_expression(&e)), vec!["f", "(", "1", ", ", "2", ")"]);
}

#[test]
fn lower_quine_markers() {
    let mut l = CLowerer::new();
    let toks = l.lower_expression(&ex(MIRExpressionInner::Quine)).to_vec();
    assert_eq!(toks.len(), 3);
    assert_eq!(toks[1].style, TokenStyle::Marker);
    assert_eq!(toks[1].text.as_deref(), Some("$quine"));
}

#[test]
fn lower_increment_shorthand() {
    let mut l = CLowerer::new();
    let s = MIRStatement::SetVariable {
        place: var("x"),
        value: ex(MIRExpressionInner::Add(bx(var("x")), bx(num(1)))),
        span: Span::empty(),
    };
    assert_eq!(texts(&l.lower_statement(&s).unwrap()), vec!["x", "++", ";"]);
    let s = MIRStatement::SetVariable {
        place: var("x"),
        value: ex(MIRExpressionInner::Add(bx(var("x")), bx(num(5)))),
        span: Span::empty(),
    };
    assert_eq!(texts(&l.lower_statement(&s).unwrap()), vec!["x", "+=", "5", ";"]);
    let s = MIRStatement::SetVariable {
        place: var("x"),
        value: ex(MIRExpressionInner::Add(bx(var("y")), bx(num(1)))),
        span: Span::empty(),
    };
    assert_eq!(texts(&l.lower_statement(&s).unwrap()), vec!["x", "=", "y", "+", "1", ";"]);
}

#[test]
fn lower_variable_declarations() {
    let mut l = CLowerer::new();
    let v = MIRVariable { name: "x".to_string(), ty: ty(MIRTypeInner::I32), arg: false, var_idx: Some(0), span: Span::empty() };
    let s = MIRStatement::CreateVariable { var: v, value: Some(num(3)), span: Span::empty() };
    assert_eq!(texts(&l.lower_statement(&s).unwrap()), vec!["int", "x", "=", "3", ";"]);
    let a = MIRVariable { name: "y".to_string(), ty: ty(MIRTypeInner::I32), arg: true, var_idx: Some(1), span: Span::empty() };
    let s = MIRStatement::CreateVariable { var: a, value: None, span: Span::empty() };
    assert!(l.lower_statement(&s).is_none());
}

#[test]
fn lower_if_without_braces() {
    let mut l = CLowerer::new();
    let s = MIRStatement::IfStatement {
        condition: var("c"),
        on_true: vec![MIRStatement::Return { expr: Some(num(1)), span: Span::empty() }],
        on_false: Vec::new(),
        span: Span::empty(),
    };
    assert_eq!(texts(&l.lower_statement(&s).unwrap()), vec!["if", "(", "c", ")", "return", "1", ";"]);
}

#[test]
fn lower_loop_with_block() {
    let mut l = CLowerer::new();
    let s = MIRStatement::LoopStatement {
        condition: Some(var("c")),
        body: vec![MIRStatement::BreakStatement { span: Span::empty() }, MIRStatement::ContinueStatement { span: Span::empty() }],
        iterate: vec![MIRStatement::IncrementVariable { place: var("i"), span: Span::empty() }],
        span: Span::empty(),
    };
    assert_eq!(
        texts(&l.lower_statement(&s).unwrap()),
        vec![
            "for", "(", ";", "c", ";", "i", "++", ")", "{", "\n", "    ", "break", ";", "\n", "    ", "continue", ";", "\n", "}"
        ]
    );
}

#[test]
fn lower_pointer_types() {
    let mut l = CLowerer::new();
    let (pre, post) = l.lower_datatype(&MIRTypeInner::Array(Box::new(MIRTypeInner::I32)));
    assert_eq!(texts(&pre), vec!["int", "*"]);
    assert!(post.to_vec().is_empty());
    let f = MIRTypeInner::FunctionPtr(
        MIRFunctionArgs { args: vec![MIRTypeInner::I32], variadic: false },
        Box::new(MIRTypeInner::I32),
    );
    let d = l.decorate_with_type("f".to_string(), &ty(f));
    assert_eq!(texts(&d), vec!["int", "(", "*", "f", ")", "(", "int", ")"]);
    let fixed = MIRTypeInner::ArrayFixed(Box::new(MIRTypeInner::Char), 4);
    let d = l.decorate_with_type("s".to_string(), &ty(fixed));
    assert_eq!(texts(&d), vec!["char", "s", "[", "4", "]"]);
}

#[test]
fn lower_imports_lines() {
    let mut l = CLowerer::new();
    let t = l.lower_imports(&vec!["<stdio.h>".to_string()]);
    assert_eq!(texts(&t), vec!["#include", "<stdio.h>", "\n"]);
}

#[test]
fn lower_program_compact() {
    let mut l = CLowerer::new();
    let decls = vec![MIRDeclaration::Function(main_returning(0))];
    let out = l.lower_program(&Vec::new(), &decls, LowerOptions { fancy: false });
    assert_eq!(out.as_deref(), Some("int main(){return 0;}"));
}

#[test]
fn lower_program_fancy() {
    let mut l = CLowerer::new();
    let decls = vec![MIRDeclaration::Function(main_returning(7))];
    let out = l.lower_program(&Vec::new(), &decls, LowerOptions { fancy: true });
    assert_eq!(out.as_deref(), Some("int main(){\n    return 7;\n}\n"));
}

#[test]
fn lower_program_fills_quine() {
    let mut l = CLowerer::new();
    let decls = vec![
        MIRDeclaration::Marker(MIRMarker { name: "m".to_string(), span: Span::empty() }),
        MIRDeclaration::Static(MIRStatic {
            name: "q".to_string(),
            ty: ty(MIRTypeInner::Array(Box::new(MIRTypeInner::String))),
            value: ex(MIRExpressionInner::Quine),
            span: Span::empty(),
        }),
    ];
    let out = l.lower_program(&Vec::new(), &decls, LowerOptions { fancy: false });
    assert_eq!(out.as_deref(), Some("char**q={\"char**q={\",\"\",\"};\"};"));
}

#[test]
fn extern_functions_emit_nothing() {
    let mut l = CLowerer::new();
    let mut f = main_returning(0);
    f.fn_type = MIRFunctionType::Extern;
    let decls = vec![MIRDeclaration::Function(f), MIRDeclaration::Function(main_returning(1))];
    let out = l.lower_program(&Vec::new(), &decls, LowerOptions { fancy: false });
    assert_eq!(out.as_deref(), Some("int main(){return 1;}"));
}

#[test]
fn tokens_round_trip() {
    let v = vec![Token::new("a".to_string()), Token::new_fancy(" ".to_string())];
    let t = Tokens::from_vec(v);
    let back = t.to_vec();
    assert_eq!(back.len(), 2);
    assert_eq!(back[1].style, TokenStyle::Fancy);
    assert!(!t.is_empty());
    assert_eq!(t.last().unwrap().text.as_deref(), Some(" "));
}

#[test]
fn right_operand_at_equal_precedence_keeps_parentheses() {
    let mut l = CLowerer::new();
    let e = ex(MIRExpressionInner::Sub(
        bx(var("a")),
        bx(ex(MIRExpressionInner::Sub(bx(var("b")), bx(var("c"))))),
    ));
    assert_eq!(texts(&l.lower_expression(&e)), vec!["a", "-", "(", "b", "-", "c", ")"]);
    let e = ex(MIRExpressionInner::Sub(
        bx(ex(MIRExpressionInner::Sub(bx(var("a")), bx(var("b"))))),
        bx(var("c")),
    ));
    assert_eq!(texts(&l.lower_expression(&e)), vec!["a", "-", "b", "-", "c"]);
    let e = ex(MIRExpressionInner::Div(
        bx(var("a")),
        bx(ex(MIRExpressionInner::Mul(bx(var("b")), bx(var("c"))))),
    ));
    assert_eq!(texts(&l.lower_expression(&e)), vec!["a", "/", "(", "b", "*", "c", ")"]);
}

#[test]
fn markers_keep_their_order_in_lowered_tokens() {
    let mut l = CLowerer::new();
    let mk = |n: &str| MIRMarker { name: n.to_string(), span: Span::empty() };
    let mut f = main_returning(1);
    f.body.insert(0, MIRStatement::MarkerStatement { name: "inner".to_string(), span: Span::empty() });
    let decls = vec![
        MIRDeclaration::Static(MIRStatic {
            name: "s".to_string(),
            ty: ty(MIRTypeInner::I32),
            value: ex(MIRExpressionInner::Binding(mk("left"), bx(num(5)), mk("right"))),
            span: Span::empty(),
        }),
        MIRDeclaration::Marker(mk("mid")),
        MIRDeclaration::Function(f),
    ];
    let toks = lower_decls(&mut l, &decls);
    let names: Vec<String> = toks
        .to_vec()
        .into_iter()
        .filter(|t| t.style == TokenStyle::Marker)
        .map(|t| t.text.unwrap_or_default())
        .collect();
    assert_eq!(names, vec!["left", "right", "mid", "inner"]);
}
