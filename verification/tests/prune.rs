use insert::mir::function::prune_functions;
use insert::mir::{
    MIRConstKey, MIRConstant, MIRDeclarationKey, MIRExpression, MIRExpressionInner, MIRFunction,
    MIRFunctionArgs, MIRFunctionKey, MIRFunctionType, MIRProgram, MIRType, MIRTypeInner,
};
use insert::parser::span::Span;

fn at(start: usize, end: usize) -> Span {
    Span { file: "t".to_string(), start, end, text: String::new() }
}

fn function(name: &str, fn_type: MIRFunctionType) -> MIRFunction {
    MIRFunction {
        name: name.to_string(),
        fn_type,
        ret_ty: MIRType { ty: MIRTypeInner::Unit, span: None },
        args: Vec::new(),
        args_ty: MIRFunctionArgs { args: Vec::new(), variadic: false },
        body: Vec::new(),
        span: at(0, 1),
        extern_import: None,
    }
}

#[test]
fn pruning_keeps_exported_functions_and_other_declarations() {
    let mut p = MIRProgram {
        decls: vec![
            MIRDeclarationKey::Function(MIRFunctionKey(0)),
            MIRDeclarationKey::Constant(MIRConstKey(0)),
            MIRDeclarationKey::Function(MIRFunctionKey(1)),
            MIRDeclarationKey::Function(MIRFunctionKey(2)),
            MIRDeclarationKey::Function(MIRFunctionKey(3)),
        ],
        constants: vec![MIRConstant {
            name: "C".to_string(),
            ty: MIRType { ty: MIRTypeInner::I32, span: None },
            value: MIRExpression { inner: MIRExpressionInner::Number(1), ty: None, span: at(0, 1) },
            span: at(0, 1),
        }],
        statics: Vec::new(),
        functions: vec![
            function("helper", MIRFunctionType::Helper),
            function("main", MIRFunctionType::Export),
            function("puts", MIRFunctionType::Extern),
            function("twice", MIRFunctionType::Inline),
        ],
        markers: Vec::new(),
        function_names: Vec::new(),
        required_imports: Vec::new(),
    };
    prune_functions(&mut p);
    assert_eq!(
        p.decls,
        vec![
            MIRDeclarationKey::Constant(MIRConstKey(0)),
            MIRDeclarationKey::Function(MIRFunctionKey(1))
        ]
    );
    // The items themselves stay.
    assert_eq!(p.functions.len(), 4);
}
