use insert::mir::display::{type_string, write_indented};
use insert::mir::{
    FunctionOverloads, MIRConstant, MIRDeclarationKey, MIRExpression, MIRExpressionInner,
    MIRFnCall, MIRFnSource, MIRFunction, MIRFunctionArgs, MIRFunctionKey, MIRFunctionType,
    MIRMarker, MIRProgram, MIRStatement, MIRType, MIRTypeInner, MIRVariable, MIRConstKey,
    MIRMarkerKey,
};
use insert::parser::span::Span;

fn ex(inner: MIRExpressionInner) -> MIRExpression {
    MIRExpression { inner, ty: None, span: Span::empty() }
}

fn num(n: i128) -> MIRExpression {
    ex(MIRExpressionInner::Number(n))
}

fn var(name: &str) -> MIRExpression {
    ex(MIRExpressionInner::Variable(name.to_string(), None))
}

fn bx(e: MIRExpression) -> Box<MIRExpression> {
    Box::new(e)
}

fn ty(t: MIRTypeInner) -> MIRType {
    MIRType { ty: t, span: None }
}

fn set(name: &str, n: i128) -> MIRStatement {
    MIRStatement::SetVariable { place: var(name), value: num(n), span: Span::empty() }
}

fn function(name: &str, body: Vec<MIRStatement>) -> MIRFunction {
    MIRFunction {
        name: name.to_string(),
        fn_type: MIRFunctionType::Export,
        ret_ty: ty(MIRTypeInner::I32),
        args: Vec::new(),
        args_ty: MIRFunctionArgs { args: Vec::new(), variadic: false },
        body,
        span: Span::empty(),
        extern_import: None,
    }
}

#[test]
fn type_names() {
    assert_eq!(type_string(&MIRTypeInner::UnknownNumber), "number");
    assert_eq!(type_string(&MIRTypeInner::Unit), "()");
    let f = MIRTypeInner::FunctionPtr(
        MIRFunctionArgs { args: vec![MIRTypeInner::I32, MIRTypeInner::U32], variadic: true },
        Box::new(MIRTypeInner::Bool),
    );
    assert_eq!(type_string(&f), "fn(i32, u32, ...) -> bool");
    let g = MIRTypeInner::FunctionPtr(
        MIRFunctionArgs { args: Vec::new(), variadic: true },
        Box::new(MIRTypeInner::Unit),
    );
    assert_eq!(type_string(&g), "fn(...) -> ()");
    let a = MIRTypeInner::ArrayFixed(Box::new(MIRTypeInner::I32), 3);
    assert_eq!(type_string(&a), "[i32; 3]");
    let r = MIRTypeInner::Ref(Box::new(MIRTypeInner::Array(Box::new(MIRTypeInner::Char))));
    assert_eq!(type_string(&r), "&&[char]");
}

#[test]
fn expression_text_is_parenthesised() {
    let e = ex(MIRExpressionInner::Add(
        bx(num(1)),
        bx(ex(MIRExpressionInner::Mul(bx(num(-2)), bx(ex(MIRExpressionInner::Variable("x".to_string(), Some(4))))))),
    ));
    assert_eq!(e.to_text(), "(1 + (-2 * x (4)))");
}

#[test]
fn expression_text_of_literals() {
    assert_eq!(ex(MIRExpressionInner::String("hi".to_string())).to_text(), "\"hi\"");
    assert_eq!(ex(MIRExpressionInner::Char('c')).to_text(), "'c'");
    assert_eq!(ex(MIRExpressionInner::Bool(false)).to_text(), "false");
    assert_eq!(ex(MIRExpressionInner::Unit).to_text(), "()");
    assert_eq!(ex(MIRExpressionInner::QuineLen).to_text(), "$quineLen");
}

#[test]
fn expression_text_of_call_and_array() {
    let call = ex(MIRExpressionInner::FunctionCall(Box::new(MIRFnCall {
        source: MIRFnSource::Direct("f".to_string(), Span::empty()),
        args: vec![num(1), var("y")],
        args_ty: None,
        ret_ty: None,
        span: Span::empty(),
    })));
    assert_eq!(call.to_text(), "f(1, y)");
    let arr = ex(MIRExpressionInner::Array(vec![num(1), num(2), num(3)]));
    let idx = ex(MIRExpressionInner::Index(bx(arr), bx(num(0))));
    assert_eq!(idx.to_text(), "([1, 2, 3][0])");
    let r = ex(MIRExpressionInner::Deref(bx(ex(MIRExpressionInner::Ref(bx(var("a")))))));
    assert_eq!(r.to_text(), "(*(&a))");
}

#[test]
fn statement_texts() {
    let create = MIRStatement::CreateVariable {
        var: MIRVariable {
            name: "a".to_string(),
            ty: ty(MIRTypeInner::I32),
            arg: false,
            var_idx: Some(0),
            span: Span::empty(),
        },
        value: Some(num(5)),
        span: Span::empty(),
    };
    assert_eq!(create.to_text(), "let a (0): i32 = 5;");
    assert_eq!(MIRStatement::DropVariable("a".to_string(), 0, Span::empty()).to_text(), "drop a (0);");
    assert_eq!(set("b", 2).to_text(), "b = 2;");
    let ret = MIRStatement::Return { expr: None, span: Span::empty() };
    assert_eq!(ret.to_text(), "return;");
    let goto = MIRStatement::GotoNotEqual {
        name: "end".to_string(),
        index: None,
        condition: var("c"),
        span: Span::empty(),
    };
    assert_eq!(goto.to_text(), "goto_ne(c) end;");
    assert_eq!(MIRStatement::Label { name: "end".to_string(), span: Span::empty() }.to_text(), "label end:");
}

#[test]
fn if_statement_text() {
    let s = MIRStatement::IfStatement {
        condition: ex(MIRExpressionInner::Less(bx(var("a")), bx(num(3)))),
        on_true: vec![set("b", 1)],
        on_false: vec![set("b", 2)],
        span: Span::empty(),
    };
    assert_eq!(s.to_text(), "if (a < 3) {\n    b = 1;\n} else {\n    b = 2;\n}");
}

#[test]
fn nested_blocks_are_indented_again() {
    let inner = MIRStatement::IfStatement {
        condition: ex(MIRExpressionInner::Bool(true)),
        on_true: vec![MIRStatement::BreakStatement { span: Span::empty() }],
        on_false: Vec::new(),
        span: Span::empty(),
    };
    let s = MIRStatement::LoopStatement {
        condition: None,
        body: vec![inner],
        iterate: vec![set("i", 1)],
        span: Span::empty(),
    };
    assert_eq!(
        s.to_text(),
        "loop {\n    if true {\n        break;\n    }\n} iterate {\n    i = 1;\n}"
    );
}

#[test]
fn indentation_follows_line_endings() {
    let mut out = String::new();
    write_indented(&mut out, "a\r\nb\n");
    assert_eq!(out, "    a\n    b");
    let mut out = String::new();
    write_indented(&mut out, "");
    assert_eq!(out, "");
    let mut out = String::new();
    write_indented(&mut out, "x\r");
    assert_eq!(out, "    x\r");
    let mut out = String::new();
    write_indented(&mut out, "\n\nz");
    assert_eq!(out, "    \n    \n    z");
}

#[test]
fn function_text() {
    let f = function("main", vec![MIRStatement::Return { expr: Some(num(0)), span: Span::empty() }]);
    assert_eq!(f.to_text(), "function main() : i32 {\n    return 0;\n}");
}

#[test]
fn extern_function_text_quotes_import() {
    let mut f = function("puts", Vec::new());
    f.fn_type = MIRFunctionType::Extern;
    f.args = vec![MIRVariable {
        name: "s".to_string(),
        ty: ty(MIRTypeInner::Array(Box::new(MIRTypeInner::Char))),
        arg: true,
        var_idx: None,
        span: Span::empty(),
    }];
    f.args_ty = MIRFunctionArgs {
        args: vec![MIRTypeInner::Array(Box::new(MIRTypeInner::Char))],
        variadic: true,
    };
    f.extern_import = Some("<stdio.h>".to_string());
    assert_eq!(f.to_text(), "extern function puts(s: &[char], ...) : i32 from \"<stdio.h>\";\n");
}

#[test]
fn program_text_lists_declarations() {
    let p = MIRProgram {
        decls: vec![
            MIRDeclarationKey::Constant(MIRConstKey(0)),
            MIRDeclarationKey::Marker(MIRMarkerKey(0)),
            MIRDeclarationKey::Function(insert::mir::MIRFunctionKey(0)),
        ],
        constants: vec![MIRConstant {
            name: "N".to_string(),
            ty: ty(MIRTypeInner::U32),
            value: num(3),
            span: Span::empty(),
        }],
        statics: Vec::new(),
        functions: vec![function("main", Vec::new())],
        markers: vec![MIRMarker { name: "top".to_string(), span: Span::empty() }],
        function_names: vec![("main".to_string(), {
            let mut o = FunctionOverloads::new();
            o.push(MIRFunctionArgs { args: Vec::new(), variadic: false }, MIRFunctionKey(0));
            o
        })],
        required_imports: Vec::new(),
    };
    assert_eq!(
        p.to_text(),
        "const N: u32 = 3;\nmarker top;\nfunction main() : i32 {\n}\n"
    );
}
