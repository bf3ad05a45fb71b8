use insert::mir::flatten::{flatten_ifs, flatten_loops};
use insert::mir::label::label_to_index;
use insert::mir::{
    MIRExpression, MIRExpressionInner, MIRFunction, MIRFunctionArgs, MIRFunctionType, MIRProgram,
    MIRStatement, MIRType, MIRTypeInner,
};
use insert::parser::span::Span;

fn at(start: usize, end: usize) -> Span {
    Span { file: "t".to_string(), start, end, text: String::new() }
}

fn cond(b: bool) -> MIRExpression {
    MIRExpression { inner: MIRExpressionInner::Bool(b), ty: None, span: at(0, 1) }
}

fn marker(n: &str) -> MIRStatement {
    MIRStatement::MarkerStatement { name: n.to_string(), span: at(0, 1) }
}

fn program_with(bodies: Vec<Vec<MIRStatement>>) -> MIRProgram {
    let mut functions = Vec::new();
    for (i, body) in bodies.into_iter().enumerate() {
        functions.push(MIRFunction {
            name: format!("f{}", i),
            fn_type: MIRFunctionType::Export,
            ret_ty: MIRType { ty: MIRTypeInner::Unit, span: None },
            args: Vec::new(),
            args_ty: MIRFunctionArgs { args: Vec::new(), variadic: false },
            body,
            span: at(0, 1),
            extern_import: None,
        });
    }
    MIRProgram {
        decls: Vec::new(),
        constants: Vec::new(),
        statics: Vec::new(),
        functions,
        markers: Vec::new(),
        function_names: Vec::new(),
        required_imports: Vec::new(),
    }
}

/// A short description of each statement of a flat block.
fn shape(b: &[MIRStatement]) -> Vec<String> {
    b.iter()
        .map(|s| match s {
            MIRStatement::Label { name, .. } => format!("label {}", name),
            MIRStatement::Goto { name, index: None, .. } => format!("goto {}", name),
            MIRStatement::GotoNotEqual { name, index: None, .. } => format!("unless {}", name),
            MIRStatement::MarkerStatement { name, .. } => format!("mark {}", name),
            MIRStatement::IfStatement { .. } => "if".to_string(),
            MIRStatement::LoopStatement { .. } => "loop".to_string(),
            MIRStatement::ScopeStatement { .. } => "scope".to_string(),
            MIRStatement::BreakStatement { .. } => "break".to_string(),
            MIRStatement::ContinueStatement { .. } => "continue".to_string(),
            _ => "other".to_string(),
        })
        .collect()
}

#[test]
fn if_without_else_jumps_past_its_branch() {
    let mut p = program_with(vec![vec![MIRStatement::IfStatement {
        condition: cond(true),
        on_true: vec![marker("t")],
        on_false: Vec::new(),
        span: at(3, 9),
    }]]);
    assert!(flatten_ifs(&mut p));
    assert_eq!(shape(&p.functions[0].body), vec!["unless $if_0", "mark t", "label $if_0"]);
    assert!(matches!(&p.functions[0].body[0], MIRStatement::GotoNotEqual { span, .. } if span.start == 3));
}

#[test]
fn if_with_else_jumps_over_the_else_branch() {
    let mut p = program_with(vec![vec![MIRStatement::IfStatement {
        condition: cond(false),
        on_true: vec![marker("t")],
        on_false: vec![marker("f")],
        span: at(0, 1),
    }]]);
    assert!(flatten_ifs(&mut p));
    assert_eq!(
        shape(&p.functions[0].body),
        vec![
            "unless $if_0_else",
            "mark t",
            "goto $if_0",
            "label $if_0_else",
            "mark f",
            "label $if_0"
        ]
    );
}

#[test]
fn nested_ifs_are_numbered_inside_out_per_function() {
    let inner = MIRStatement::IfStatement {
        condition: cond(true),
        on_true: vec![marker("a")],
        on_false: Vec::new(),
        span: at(0, 1),
    };
    let outer = MIRStatement::IfStatement {
        condition: cond(true),
        on_true: vec![inner],
        on_false: Vec::new(),
        span: at(0, 1),
    };
    let in_loop = MIRStatement::LoopStatement {
        condition: None,
        body: vec![MIRStatement::IfStatement {
            condition: cond(true),
            on_true: Vec::new(),
            on_false: Vec::new(),
            span: at(0, 1),
        }],
        iterate: Vec::new(),
        span: at(0, 1),
    };
    let mut p = program_with(vec![vec![outer, in_loop], vec![marker("x")]]);
    assert!(flatten_ifs(&mut p));
    let b = &p.functions[0].body;
    assert_eq!(
        shape(&b[..6]),
        vec!["unless $if_1", "unless $if_0", "mark a", "label $if_0", "label $if_1", "loop"]
    );
    match &b[5] {
        MIRStatement::LoopStatement { body, .. } => {
            assert_eq!(shape(body), vec!["unless $if_2", "label $if_2"]);
        }
        _ => panic!("loop expected"),
    }
    assert_eq!(shape(&p.functions[1].body), vec!["mark x"]);
}

#[test]
fn while_loop_becomes_labels_and_jumps() {
    let mut p = program_with(vec![vec![MIRStatement::LoopStatement {
        condition: Some(cond(true)),
        body: vec![marker("b")],
        iterate: vec![marker("i")],
        span: at(0, 1),
    }]]);
    assert!(flatten_loops(&mut p));
    assert_eq!(
        shape(&p.functions[0].body),
        vec![
            "label $loop_0_head",
            "unless $loop_0_tail",
            "mark b",
            "label $loop_0_continue",
            "mark i",
            "goto $loop_0_head",
            "label $loop_0_tail"
        ]
    );
}

#[test]
fn break_and_continue_jump_to_the_innermost_loop() {
    let inner = MIRStatement::LoopStatement {
        condition: None,
        body: vec![MIRStatement::BreakStatement { span: at(0, 1) }],
        iterate: Vec::new(),
        span: at(0, 1),
    };
    let outer = MIRStatement::LoopStatement {
        condition: None,
        body: vec![
            inner,
            MIRStatement::ScopeStatement {
                body: vec![MIRStatement::ContinueStatement { span: at(0, 1) }],
                span: at(0, 1),
            },
        ],
        iterate: Vec::new(),
        span: at(0, 1),
    };
    let mut p = program_with(vec![vec![outer]]);
    assert!(flatten_loops(&mut p));
    assert_eq!(
        shape(&p.functions[0].body),
        vec![
            "label $loop_0_head",
            "label $loop_1_head",
            "goto $loop_1_tail",
            "label $loop_1_continue",
            "goto $loop_1_head",
            "label $loop_1_tail",
            "goto $loop_0_continue",
            "label $loop_0_continue",
            "goto $loop_0_head",
            "label $loop_0_tail"
        ]
    );
}

#[test]
fn loop_inside_if_is_lowered_and_the_if_kept() {
    let mut p = program_with(vec![vec![MIRStatement::IfStatement {
        condition: cond(true),
        on_true: vec![MIRStatement::LoopStatement {
            condition: None,
            body: Vec::new(),
            iterate: Vec::new(),
            span: at(0, 1),
        }],
        on_false: Vec::new(),
        span: at(0, 1),
    }]]);
    assert!(flatten_loops(&mut p));
    match &p.functions[0].body[0] {
        MIRStatement::IfStatement { on_true, .. } => assert_eq!(
            shape(on_true),
            vec![
                "label $loop_0_head",
                "label $loop_0_continue",
                "goto $loop_0_head",
                "label $loop_0_tail"
            ]
        ),
        _ => panic!("if expected"),
    }
}

#[test]
fn break_outside_a_loop_fails_and_changes_nothing() {
    let mut p = program_with(vec![
        vec![MIRStatement::LoopStatement {
            condition: None,
            body: Vec::new(),
            iterate: Vec::new(),
            span: at(0, 1),
        }],
        vec![MIRStatement::ScopeStatement {
            body: vec![MIRStatement::BreakStatement { span: at(0, 1) }],
            span: at(0, 1),
        }],
    ]);
    assert!(!flatten_loops(&mut p));
    assert_eq!(shape(&p.functions[0].body), vec!["loop"]);
    assert_eq!(shape(&p.functions[1].body), vec!["scope"]);
}

#[test]
fn continue_outside_a_loop_fails() {
    let mut p = program_with(vec![vec![MIRStatement::ContinueStatement { span: at(0, 1) }]]);
    assert!(!flatten_loops(&mut p));
}

#[test]
fn lowered_jumps_resolve_to_their_labels() {
    let body = vec![MIRStatement::LoopStatement {
        condition: Some(cond(true)),
        body: vec![MIRStatement::IfStatement {
            condition: cond(false),
            on_true: vec![MIRStatement::BreakStatement { span: at(0, 1) }],
            on_false: vec![MIRStatement::ContinueStatement { span: at(0, 1) }],
            span: at(0, 1),
        }],
        iterate: Vec::new(),
        span: at(0, 1),
    }];
    let mut p = program_with(vec![body]);
    assert!(flatten_loops(&mut p));
    assert!(flatten_ifs(&mut p));
    label_to_index(&mut p);
    let b = &p.functions[0].body;
    let label_names: Vec<(usize, String)> = b
        .iter()
        .enumerate()
        .filter_map(|(i, s)| match s {
            MIRStatement::Label { name, .. } => Some((i, name.clone())),
            _ => None,
        })
        .collect();
    let mut jumps = 0;
    for s in b {
        let (name, index) = match s {
            MIRStatement::Goto { name, index, .. } => (name, index),
            MIRStatement::GotoNotEqual { name, index, .. } => (name, index),
            _ => continue,
        };
        jumps += 1;
        let target = index.expect("resolved jump");
        assert!(label_names.iter().any(|(i, n)| *i == target && n == name));
    }
    // Loop guard, if guard, break, jump over else, continue, back edge.
    assert_eq!(jumps, 6);
}
