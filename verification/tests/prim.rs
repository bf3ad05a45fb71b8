use insert::mir::prim::inline_primitives;
use insert::mir::{
    MIRExpression, MIRExpressionInner, MIRFunction, MIRFunctionArgs, MIRFunctionType, MIRStatement,
    MIRType, MIRTypeInner, MIRVariable,
};
use insert::parser::span::Span;

fn ty(t: MIRTypeInner) -> MIRType {
    MIRType { ty: t, span: None }
}

fn ex(inner: MIRExpressionInner) -> MIRExpression {
    MIRExpression { inner, ty: Some(ty(MIRTypeInner::I32)), span: Span::empty() }
}

fn num(n: i128) -> MIRExpression {
    ex(MIRExpressionInner::Number(n))
}

fn var(n: &str, i: usize) -> MIRExpression {
    ex(MIRExpressionInner::Variable(n.to_string(), Some(i)))
}

fn create(n: &str, i: usize, value: Option<MIRExpression>) -> MIRStatement {
    MIRStatement::CreateVariable {
        var: MIRVariable { name: n.to_string(), ty: ty(MIRTypeInner::I32), arg: false, var_idx: Some(i), span: Span::empty() },
        value,
        span: Span::empty(),
    }
}

fn set(place: MIRExpression, value: MIRExpression) -> MIRStatement {
    MIRStatement::SetVariable { place, value, span: Span::empty() }
}

fn func(body: Vec<MIRStatement>) -> MIRFunction {
    MIRFunction {
        name: "f".to_string(),
        fn_type: MIRFunctionType::Export,
        ret_ty: ty(MIRTypeInner::I32),
        args: Vec::new(),
        args_ty: MIRFunctionArgs { args: Vec::new(), variadic: false },
        body,
        span: Span::empty(),
        extern_import: None,
    }
}

fn value_of(s: &MIRStatement) -> &MIRExpressionInner {
    match s {
        MIRStatement::CreateVariable { value: Some(v), .. } => &v.inner,
        MIRStatement::SetVariable { value, .. } => &value.inner,
        MIRStatement::Return { expr: Some(e), .. } => &e.inner,
        _ => panic!("no value"),
    }
}

fn is_num(i: &MIRExpressionInner, n: i128) -> bool {
    matches!(i, MIRExpressionInner::Number(m) if *m == n)
}

fn is_var(i: &MIRExpressionInner) -> bool {
    matches!(i, MIRExpressionInner::Variable(..))
}

#[test]
fn known_values_are_inlined_in_order() {
    let mut f = func(vec![
        create("x", 0, Some(num(5))),
        create("y", 1, Some(var("x", 0))),
        set(var("x", 0), ex(MIRExpressionInner::Add(Box::new(var("x", 0)), Box::new(num(1))))),
        MIRStatement::Return { expr: Some(var("x", 0)), span: Span::empty() },
    ]);
    let (ok, changed) = inline_primitives(&mut f);
    assert!(ok && changed);
    assert!(is_num(value_of(&f.body[1]), 5));
    match value_of(&f.body[2]) {
        MIRExpressionInner::Add(l, _) => assert!(is_num(&l.inner, 5)),
        _ => panic!("not an addition"),
    }
    // x = 5 + 1 is not primitive: x is no longer known.
    assert!(is_var(value_of(&f.body[3])));
}

#[test]
fn a_referenced_variable_is_never_inlined_again() {
    let mut f = func(vec![
        create("x", 0, Some(num(5))),
        create("p", 1, Some(ex(MIRExpressionInner::Ref(Box::new(var("x", 0)))))),
        set(var("x", 0), num(7)),
        MIRStatement::Return { expr: Some(var("x", 0)), span: Span::empty() },
    ]);
    inline_primitives(&mut f);
    match value_of(&f.body[1]) {
        MIRExpressionInner::Ref(x) => assert!(is_var(&x.inner)),
        _ => panic!("not a reference"),
    }
    assert!(is_var(value_of(&f.body[3])));
}

#[test]
fn writes_in_nested_blocks_and_loops_are_forgotten() {
    let cond = ex(MIRExpressionInner::Less(Box::new(var("x", 0)), Box::new(num(3))));
    let mut f = func(vec![
        create("x", 0, Some(num(0))),
        MIRStatement::LoopStatement {
            condition: Some(cond),
            body: vec![set(var("x", 0), num(9))],
            iterate: Vec::new(),
            span: Span::empty(),
        },
        MIRStatement::Return { expr: Some(var("x", 0)), span: Span::empty() },
    ]);
    let (_, changed) = inline_primitives(&mut f);
    assert!(!changed);
    match &f.body[1] {
        MIRStatement::LoopStatement { condition: Some(c), .. } => match &c.inner {
            MIRExpressionInner::Less(l, _) => assert!(is_var(&l.inner)),
            _ => panic!("not a comparison"),
        },
        _ => panic!("not a loop"),
    }
    assert!(is_var(value_of(&f.body[2])));
}
