use insert::mir::{
    MIRConstKey, MIRConstant, MIRDeclaration, MIRDeclarationKey, MIRExpression, MIRExpressionInner,
    MIRFunction, MIRFunctionArgs, MIRFunctionKey, MIRFunctionType, MIRProgram, MIRStatic, MIRType,
    MIRTypeInner,
};
use insert::parser::span::Span;

fn at(start: usize, end: usize) -> Span {
    Span { file: "t".to_string(), start, end, text: String::new() }
}

fn empty_program() -> MIRProgram {
    MIRProgram {
        decls: Vec::new(),
        constants: Vec::new(),
        statics: Vec::new(),
        functions: Vec::new(),
        markers: Vec::new(),
        function_names: Vec::new(),
        required_imports: Vec::new(),
    }
}

fn one() -> MIRExpression {
    MIRExpression { inner: MIRExpressionInner::Number(1), ty: None, span: at(0, 1) }
}

fn constant(name: &str, start: usize) -> MIRDeclaration {
    MIRDeclaration::Constant(MIRConstant {
        name: name.to_string(),
        ty: MIRType { ty: MIRTypeInner::I32, span: None },
        value: one(),
        span: at(start, start + 1),
    })
}

fn static_(name: &str, start: usize) -> MIRDeclaration {
    MIRDeclaration::Static(MIRStatic {
        name: name.to_string(),
        ty: MIRType { ty: MIRTypeInner::I32, span: None },
        value: one(),
        span: at(start, start + 1),
    })
}

fn function(name: &str, arg: MIRTypeInner, fn_type: MIRFunctionType, start: usize) -> MIRDeclaration {
    MIRDeclaration::Function(MIRFunction {
        name: name.to_string(),
        fn_type,
        ret_ty: MIRType { ty: MIRTypeInner::Unit, span: None },
        args: Vec::new(),
        args_ty: MIRFunctionArgs { args: vec![arg], variadic: false },
        body: Vec::new(),
        span: at(start, start + 1),
        extern_import: None,
    })
}

#[test]
fn names_in_use_are_refused_with_the_earlier_definition() {
    let mut p = empty_program();
    assert_eq!(p.register(constant("C", 10)).ok(), Some(MIRDeclarationKey::Constant(MIRConstKey(0))));
    let err = p.register(static_("C", 20)).err().expect("duplicate");
    assert_eq!(err.name, "C");
    assert_eq!(err.previous.start, 10);
    assert_eq!(err.redeclared.start, 20);
    assert_eq!(p.statics.len(), 0);

    assert_eq!(
        p.register(function("f", MIRTypeInner::I32, MIRFunctionType::Export, 30)).ok(),
        Some(MIRDeclarationKey::Function(MIRFunctionKey(0)))
    );
    // Same signature: refused.
    let err = p.register(function("f", MIRTypeInner::I32, MIRFunctionType::Export, 40)).err().unwrap();
    assert_eq!(err.previous.start, 30);
    // Another signature: an overload in the same list.
    assert_eq!(
        p.register(function("f", MIRTypeInner::Bool, MIRFunctionType::Export, 50)).ok(),
        Some(MIRDeclarationKey::Function(MIRFunctionKey(1)))
    );
    assert_eq!(p.function_names.len(), 1);
    assert_eq!(p.function_names[0].1.keys(), vec![MIRFunctionKey(0), MIRFunctionKey(1)]);
    // A constant may not take a function's name.
    let err = p.register(constant("f", 60)).err().unwrap();
    assert_eq!(err.previous.start, 30);
    // A function may not take a constant's name.
    assert!(p.register(function("C", MIRTypeInner::I32, MIRFunctionType::Export, 70)).is_err());
    assert_eq!(p.functions.len(), 2);
}

#[test]
fn extern_functions_stay_out_of_the_output() {
    let mut p = empty_program();
    let f = p.register(function("puts", MIRTypeInner::String, MIRFunctionType::Extern, 0)).ok().unwrap();
    let g = p.register(function("main", MIRTypeInner::I32, MIRFunctionType::Export, 5)).ok().unwrap();
    let c = p.register(constant("N", 9)).ok().unwrap();
    p.push_decl(f);
    p.push_decl(g);
    p.push_decl(c);
    assert_eq!(p.decls, vec![g, c]);
    assert!(p.find_duplicate(&"N".to_string(), None).is_some());
    assert!(p.find_duplicate(&"other".to_string(), None).is_none());
}

#[test]
fn renaming_moves_names_and_refuses_taken_ones() {
    let mut p = empty_program();
    let c = p.register(constant("A", 0)).ok().unwrap();
    let s = p.register(static_("B", 2)).ok().unwrap();
    let f = p.register(function("f", MIRTypeInner::I32, MIRFunctionType::Export, 4)).ok().unwrap();
    let g = p.register(function("g", MIRTypeInner::I32, MIRFunctionType::Export, 6)).ok().unwrap();
    // Taken by a static, and (for a non-function) by a function.
    assert!(!p.try_rename(c, "B".to_string()));
    assert!(!p.try_rename(s, "f".to_string()));
    assert_eq!(p.constants[0].name, "A");
    assert!(p.try_rename(c, "Z".to_string()));
    assert_eq!(p.constants[0].name, "Z");
    // g(i32) would conflict with f(i32).
    assert!(!p.try_rename(g, "f".to_string()));
    assert_eq!(p.functions[1].name, "g");
    // A fresh name: g leaves its list for a new one.
    assert!(p.try_rename(g, "h".to_string()));
    assert_eq!(p.functions[1].name, "h");
    assert_eq!(p.function_names.len(), 3);
    assert!(p.function_names[1].1.keys().is_empty());
    assert_eq!(p.function_names[2].0, "h");
    assert_eq!(p.function_names[2].1.keys(), vec![MIRFunctionKey(1)]);
    let _ = f;
}

#[test]
fn retain_drops_every_occurrence_of_a_rejected_declaration() {
    let mut p = empty_program();
    let f = p.register(function("f", MIRTypeInner::I32, MIRFunctionType::Export, 0)).ok().unwrap();
    let g = p.register(function("g", MIRTypeInner::I32, MIRFunctionType::Helper, 2)).ok().unwrap();
    let c = p.register(constant("C", 4)).ok().unwrap();
    p.decls = vec![f, g, c, g];
    p.retain(&|prog: &MIRProgram, k: &MIRDeclarationKey| match k {
        MIRDeclarationKey::Function(key) => prog.functions[key.0].fn_type == MIRFunctionType::Export,
        _ => true,
    });
    assert_eq!(p.decls, vec![f, c]);
    assert_eq!(p.functions.len(), 2);
}
