use insert::mir::var::make_vars_unique;
use insert::mir::{
    MIRExpression, MIRExpressionInner, MIRFunction, MIRFunctionArgs, MIRFunctionType, MIRProgram,
    MIRStatement, MIRType, MIRTypeInner, MIRVariable,
};
use insert::parser::span::Span;

fn at(start: usize, end: usize) -> Span {
    Span { file: "t".to_string(), start, end, text: String::new() }
}

fn name(n: &str) -> MIRExpression {
    MIRExpression {
        inner: MIRExpressionInner::Variable(n.to_string(), None),
        ty: None,
        span: at(0, 1),
    }
}

fn var(n: &str, arg: bool) -> MIRVariable {
    MIRVariable {
        name: n.to_string(),
        ty: MIRType { ty: MIRTypeInner::I32, span: None },
        arg,
        var_idx: None,
        span: at(0, 1),
    }
}

fn create(n: &str, arg: bool, value: Option<MIRExpression>) -> MIRStatement {
    MIRStatement::CreateVariable { var: var(n, arg), value, span: at(0, 1) }
}

fn set(place: &str, value: MIRExpression) -> MIRStatement {
    MIRStatement::SetVariable { place: name(place), value, span: at(0, 1) }
}

fn program_with(args: Vec<MIRVariable>, body: Vec<MIRStatement>) -> MIRProgram {
    MIRProgram {
        decls: Vec::new(),
        constants: Vec::new(),
        statics: Vec::new(),
        functions: vec![MIRFunction {
            name: "f".to_string(),
            fn_type: MIRFunctionType::Export,
            ret_ty: MIRType { ty: MIRTypeInner::Unit, span: None },
            args,
            args_ty: MIRFunctionArgs { args: vec![MIRTypeInner::I32], variadic: false },
            body,
            span: at(0, 1),
            extern_import: None,
        }],
        markers: Vec::new(),
        function_names: Vec::new(),
        required_imports: Vec::new(),
    }
}

fn name_of(e: &MIRExpression) -> &str {
    match &e.inner {
        MIRExpressionInner::Variable(n, _) => n,
        _ => panic!("variable expected"),
    }
}

fn created_name(s: &MIRStatement) -> &str {
    match s {
        MIRStatement::CreateVariable { var, .. } => &var.name,
        _ => panic!("creation expected"),
    }
}

fn index_of(e: &MIRExpression) -> Option<usize> {
    match &e.inner {
        MIRExpressionInner::Variable(_, i) => *i,
        _ => panic!("variable expected"),
    }
}

fn created_index(s: &MIRStatement) -> Option<usize> {
    match s {
        MIRStatement::CreateVariable { var, .. } => var.var_idx,
        _ => panic!("creation expected"),
    }
}

#[test]
fn variables_are_numbered_in_creation_order_and_accesses_follow_scope() {
    let body = vec![
        create("x", true, None),
        create(
            "y",
            false,
            Some(MIRExpression {
                inner: MIRExpressionInner::Add(Box::new(name("x")), Box::new(name("g"))),
                ty: None,
                span: at(0, 1),
            }),
        ),
        MIRStatement::IfStatement {
            condition: name("y"),
            on_true: vec![create("x", false, Some(name("x"))), set("x", name("y"))],
            on_false: Vec::new(),
            span: at(0, 1),
        },
        set("y", name("x")),
    ];
    let mut p = program_with(vec![var("x", true)], body);
    assert!(make_vars_unique(&mut p));
    let f = &p.functions[0];
    assert_eq!(f.args[0].var_idx, Some(0));
    assert_eq!(f.args[0].name, "x_a");
    assert_eq!(created_name(&f.body[0]), "x_a");
    assert_eq!(created_name(&f.body[1]), "y_b");
    assert_eq!(created_index(&f.body[0]), Some(0));
    assert_eq!(created_index(&f.body[1]), Some(1));
    match &f.body[1] {
        MIRStatement::CreateVariable { value: Some(v), .. } => match &v.inner {
            MIRExpressionInner::Add(l, r) => {
                assert_eq!(index_of(l), Some(0));
                assert_eq!(name_of(l), "x_a");
                // Not a variable in scope: left as it was.
                assert_eq!(index_of(r), None);
                assert_eq!(name_of(r), "g");
            }
            _ => panic!("sum expected"),
        },
        _ => panic!("creation expected"),
    }
    match &f.body[2] {
        MIRStatement::IfStatement { condition, on_true, .. } => {
            assert_eq!(index_of(condition), Some(1));
            assert_eq!(created_index(&on_true[0]), Some(2));
            assert_eq!(created_name(&on_true[0]), "x_c");
            // The new x's value reads the outer x.
            match &on_true[0] {
                MIRStatement::CreateVariable { value: Some(v), .. } => {
                    assert_eq!(index_of(v), Some(0))
                }
                _ => panic!("creation expected"),
            }
            match &on_true[1] {
                MIRStatement::SetVariable { place, value, .. } => {
                    assert_eq!(index_of(place), Some(2));
                    assert_eq!(name_of(place), "x_c");
                    assert_eq!(index_of(value), Some(1));
                }
                _ => panic!("assignment expected"),
            }
        }
        _ => panic!("if expected"),
    }
    match &f.body[3] {
        MIRStatement::SetVariable { place, value, .. } => {
            assert_eq!(index_of(place), Some(1));
            // The x of the if's branch is out of scope again.
            assert_eq!(index_of(value), Some(0));
        }
        _ => panic!("assignment expected"),
    }
}

#[test]
fn each_function_counts_from_zero() {
    let mut p = program_with(Vec::new(), vec![create("a", false, None)]);
    let mut q = program_with(Vec::new(), vec![create("b", false, None), create("c", false, None)]);
    p.functions.push(q.functions.remove(0));
    assert!(make_vars_unique(&mut p));
    assert_eq!(created_index(&p.functions[0].body[0]), Some(0));
    assert_eq!(created_index(&p.functions[1].body[0]), Some(0));
    assert_eq!(created_index(&p.functions[1].body[1]), Some(1));
}

#[test]
fn variables_with_one_name_in_sibling_blocks_get_different_names() {
    let branch = |v: &str| vec![create("x", false, None), set("x", name(v))];
    let body = vec![
        create("k", false, None),
        MIRStatement::IfStatement {
            condition: name("k"),
            on_true: branch("k"),
            on_false: branch("k"),
            span: at(0, 1),
        },
    ];
    let mut p = program_with(Vec::new(), body);
    assert!(make_vars_unique(&mut p));
    match &p.functions[0].body[1] {
        MIRStatement::IfStatement { on_true, on_false, .. } => {
            assert_eq!(created_name(&on_true[0]), "x_b");
            assert_eq!(created_name(&on_false[0]), "x_c");
            match (&on_true[1], &on_false[1]) {
                (
                    MIRStatement::SetVariable { place: a, value: va, .. },
                    MIRStatement::SetVariable { place: b, value: vb, .. },
                ) => {
                    assert_eq!(name_of(a), "x_b");
                    assert_eq!(name_of(b), "x_c");
                    assert_eq!(name_of(va), "k_a");
                    assert_eq!(name_of(vb), "k_a");
                }
                _ => panic!("assignments expected"),
            }
        }
        _ => panic!("if expected"),
    }
}
