use insert::mir::reach::mark_reachable;
use insert::mir::{
    FunctionOverloads, MIRExpression, MIRExpressionInner, MIRFnCall, MIRFnSource, MIRFunction,
    MIRFunctionArgs, MIRFunctionKey, MIRFunctionType, MIRProgram, MIRStatement, MIRType,
    MIRTypeInner, MIRVariable,
};
use insert::parser::span::Span;

fn at(start: usize, end: usize) -> Span {
    Span { file: "t".to_string(), start, end, text: String::new() }
}

fn no_args() -> MIRFunctionArgs {
    MIRFunctionArgs { args: Vec::new(), variadic: false }
}

fn call(name: &str) -> MIRFnCall {
    MIRFnCall {
        source: MIRFnSource::Direct(name.to_string(), at(0, 1)),
        args: Vec::new(),
        args_ty: Some(no_args()),
        ret_ty: None,
        span: at(0, 1),
    }
}

fn function(
    name: &str,
    fn_type: MIRFunctionType,
    body: Vec<MIRStatement>,
    import: Option<&str>,
) -> MIRFunction {
    MIRFunction {
        name: name.to_string(),
        fn_type,
        ret_ty: MIRType { ty: MIRTypeInner::I32, span: None },
        args: Vec::new(),
        args_ty: no_args(),
        body,
        span: at(0, 1),
        extern_import: import.map(|s| s.to_string()),
    }
}

fn program() -> MIRProgram {
    let call_in_value = MIRStatement::CreateVariable {
        var: MIRVariable {
            name: "r".to_string(),
            ty: MIRType { ty: MIRTypeInner::I32, span: None },
            arg: false,
            var_idx: None,
            span: at(0, 1),
        },
        value: Some(MIRExpression {
            inner: MIRExpressionInner::FunctionCall(Box::new(call("puts"))),
            ty: None,
            span: at(0, 1),
        }),
        span: at(0, 1),
    };
    let functions = vec![
        function(
            "main",
            MIRFunctionType::Export,
            vec![MIRStatement::IfStatement {
                condition: MIRExpression {
                    inner: MIRExpressionInner::Bool(true),
                    ty: None,
                    span: at(0, 1),
                },
                on_true: vec![MIRStatement::FunctionCall(call("a"))],
                on_false: Vec::new(),
                span: at(0, 1),
            }],
            None,
        ),
        function("a", MIRFunctionType::Helper, vec![call_in_value], None),
        function("b", MIRFunctionType::Helper, vec![MIRStatement::FunctionCall(call("sqrt"))], None),
        function("puts", MIRFunctionType::Extern, Vec::new(), Some("<stdio.h>")),
        function("sqrt", MIRFunctionType::Extern, Vec::new(), Some("<math.h>")),
    ];
    let mut function_names = Vec::new();
    for (i, f) in functions.iter().enumerate() {
        let mut ov = FunctionOverloads::new();
        ov.push(no_args(), MIRFunctionKey(i));
        function_names.push((f.name.clone(), ov));
    }
    MIRProgram {
        decls: Vec::new(),
        constants: Vec::new(),
        statics: Vec::new(),
        functions,
        markers: Vec::new(),
        function_names,
        required_imports: vec!["<zlib.h>".to_string()],
    }
}

#[test]
fn reachable_helpers_are_exported_and_their_imports_required() {
    let mut p = program();
    mark_reachable(&mut p);
    assert_eq!(p.functions[0].fn_type, MIRFunctionType::Export);
    assert_eq!(p.functions[1].fn_type, MIRFunctionType::Export);
    // Not called from an exported function.
    assert_eq!(p.functions[2].fn_type, MIRFunctionType::Helper);
    assert_eq!(p.functions[3].fn_type, MIRFunctionType::Extern);
    assert_eq!(p.required_imports, vec!["<stdio.h>".to_string(), "<zlib.h>".to_string()]);
}

#[test]
fn an_import_needed_twice_is_added_once() {
    let mut p = program();
    p.functions[2].fn_type = MIRFunctionType::Export;
    p.functions[2].body = vec![
        MIRStatement::FunctionCall(call("sqrt")),
        MIRStatement::FunctionCall(call("puts")),
    ];
    p.required_imports = Vec::new();
    mark_reachable(&mut p);
    assert_eq!(p.required_imports, vec!["<math.h>".to_string(), "<stdio.h>".to_string()]);
}
