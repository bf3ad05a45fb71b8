use insert::mir::quine::{check_markers, ensure_no_first_marker};
use insert::mir::{
    MIRConstant, MIRDeclarationKey, MIRExpression, MIRExpressionInner, MIRFunction,
    MIRFunctionArgs, MIRFunctionKey, MIRFunctionType, MIRMarker, MIRMarkerKey, MIRProgram,
    MIRStatement, MIRType, MIRTypeInner,
};
use insert::parser::span::Span;

fn at(start: usize, end: usize) -> Span {
    Span { file: "t".to_string(), start, end, text: String::new() }
}

fn function(fn_type: MIRFunctionType, body: Vec<MIRStatement>) -> MIRFunction {
    MIRFunction {
        name: "f".to_string(),
        fn_type,
        ret_ty: MIRType { ty: MIRTypeInner::Unit, span: None },
        args: Vec::new(),
        args_ty: MIRFunctionArgs { args: Vec::new(), variadic: false },
        body,
        span: at(0, 1),
        extern_import: None,
    }
}

fn program(functions: Vec<MIRFunction>, constants: Vec<MIRConstant>) -> MIRProgram {
    MIRProgram {
        decls: Vec::new(),
        constants,
        statics: Vec::new(),
        functions,
        markers: Vec::new(),
        function_names: Vec::new(),
        required_imports: Vec::new(),
    }
}

fn marker_stmt(start: usize) -> MIRStatement {
    MIRStatement::MarkerStatement { name: "m".to_string(), span: at(start, start + 1) }
}

#[test]
fn markers_in_exported_functions_are_fine() {
    let p = program(vec![function(MIRFunctionType::Export, vec![marker_stmt(3)])], Vec::new());
    assert!(check_markers(&p).is_ok());
}

#[test]
fn markers_in_inline_or_helper_functions_are_refused() {
    let p = program(
        vec![
            function(MIRFunctionType::Export, vec![marker_stmt(1)]),
            function(MIRFunctionType::Helper, vec![marker_stmt(7)]),
        ],
        Vec::new(),
    );
    assert_eq!(check_markers(&p).err().map(|s| s.start), Some(7));
    let q = program(vec![function(MIRFunctionType::Inline, vec![marker_stmt(9)])], Vec::new());
    assert_eq!(check_markers(&q).err().map(|s| s.start), Some(9));
}

#[test]
fn bindings_in_constants_are_refused() {
    let binding = MIRExpression {
        inner: MIRExpressionInner::Binding(
            MIRMarker { name: "l".to_string(), span: at(20, 21) },
            Box::new(MIRExpression { inner: MIRExpressionInner::Number(1), ty: None, span: at(21, 22) }),
            MIRMarker { name: "r".to_string(), span: at(22, 23) },
        ),
        ty: None,
        span: at(20, 23),
    };
    let c = MIRConstant {
        name: "C".to_string(),
        ty: MIRType { ty: MIRTypeInner::I32, span: None },
        value: binding,
        span: at(15, 25),
    };
    let p = program(Vec::new(), vec![c]);
    assert_eq!(check_markers(&p).err().map(|s| s.start), Some(20));
}

#[test]
fn the_output_may_not_start_with_a_marker() {
    let mut p = program(vec![function(MIRFunctionType::Export, Vec::new())], Vec::new());
    p.markers.push(MIRMarker { name: "m".to_string(), span: at(4, 5) });
    p.decls = vec![MIRDeclarationKey::Marker(MIRMarkerKey(0)), MIRDeclarationKey::Function(MIRFunctionKey(0))];
    assert_eq!(ensure_no_first_marker(&p).err().map(|s| s.start), Some(4));
    p.decls.reverse();
    assert!(ensure_no_first_marker(&p).is_ok());
}
