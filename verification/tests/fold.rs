use insert::mir::expr::{explore_expr, explore_outer_place, find_exprs, optimize_exprs, reduce_expr};
use insert::mir::{
    MIRExpression, MIRExpressionInner, MIRFunction, MIRFunctionArgs, MIRFunctionType, MIRStatement,
    MIRType, MIRTypeInner, MIRVariable,
};
use insert::parser::span::Span;
use insert::targets::C;

fn ex(inner: MIRExpressionInner) -> MIRExpression {
    MIRExpression { inner, ty: None, span: Span::empty() }
}

fn num(n: i128) -> MIRExpression {
    ex(MIRExpressionInner::Number(n))
}

fn var(name: &str) -> MIRExpression {
    ex(MIRExpressionInner::Variable(name.to_string(), Some(0)))
}

fn bx(e: MIRExpression) -> Box<MIRExpression> {
    Box::new(e)
}

fn function(body: Vec<MIRStatement>) -> MIRFunction {
    MIRFunction {
        name: "main".to_string(),
        fn_type: MIRFunctionType::Export,
        ret_ty: MIRType { ty: MIRTypeInner::I32, span: None },
        args: Vec::new(),
        args_ty: MIRFunctionArgs { args: Vec::new(), variadic: false },
        body,
        span: Span::empty(),
        extern_import: None,
    }
}

#[test]
fn reduce_adds_numbers() {
    let mut e = ex(MIRExpressionInner::Add(bx(num(2)), bx(num(3))));
    assert_eq!(reduce_expr(&mut e, &C), (true, true));
    assert!(matches!(e.inner, MIRExpressionInner::Number(5)));
}

#[test]
fn reduce_folds_bottom_up() {
    // (2 * 3) - (10 / 4) == 6 - 2 == 4
    let mut e = ex(MIRExpressionInner::Sub(
        bx(ex(MIRExpressionInner::Mul(bx(num(2)), bx(num(3))))),
        bx(ex(MIRExpressionInner::Div(bx(num(10)), bx(num(4))))),
    ));
    assert_eq!(reduce_expr(&mut e, &C), (true, true));
    assert!(matches!(e.inner, MIRExpressionInner::Number(4)));
}

#[test]
fn reduce_divides_toward_zero() {
    let mut e = ex(MIRExpressionInner::Div(bx(num(-7)), bx(num(2))));
    assert_eq!(reduce_expr(&mut e, &C), (true, true));
    assert!(matches!(e.inner, MIRExpressionInner::Number(-3)));
}

#[test]
fn reduce_keeps_division_by_zero() {
    let mut e = ex(MIRExpressionInner::Div(bx(num(1)), bx(num(0))));
    assert_eq!(reduce_expr(&mut e, &C), (true, false));
    assert!(matches!(e.inner, MIRExpressionInner::Div(..)));
}

#[test]
fn reduce_turns_minus_one_product_into_negation() {
    let mut e = ex(MIRExpressionInner::Mul(bx(num(-1)), bx(var("x"))));
    assert_eq!(reduce_expr(&mut e, &C), (true, true));
    match &e.inner {
        MIRExpressionInner::Neg(inner) => {
            assert!(matches!(&inner.inner, MIRExpressionInner::Variable(n, _) if n == "x"))
        }
        _ => panic!("expected a negation"),
    }
}

#[test]
fn reduce_equal_zero_becomes_not() {
    let mut e = ex(MIRExpressionInner::Equal(bx(var("x")), bx(num(0))));
    assert_eq!(reduce_expr(&mut e, &C), (true, true));
    assert!(matches!(&e.inner, MIRExpressionInner::Not(_)));
}

#[test]
fn reduce_compares_booleans() {
    let mut e = ex(MIRExpressionInner::Less(
        bx(ex(MIRExpressionInner::Bool(false))),
        bx(ex(MIRExpressionInner::Bool(true))),
    ));
    assert_eq!(reduce_expr(&mut e, &C), (true, true));
    assert!(matches!(e.inner, MIRExpressionInner::Bool(true)));
}

#[test]
fn reduce_indexes_constant_string() {
    let mut e = ex(MIRExpressionInner::Index(
        bx(ex(MIRExpressionInner::String("abc".to_string()))),
        bx(num(1)),
    ));
    assert_eq!(reduce_expr(&mut e, &C), (true, true));
    assert!(matches!(e.inner, MIRExpressionInner::Char('b')));
}

#[test]
fn reduce_fails_on_index_out_of_range() {
    let mut e = ex(MIRExpressionInner::Index(
        bx(ex(MIRExpressionInner::Array(vec![num(1), num(2)]))),
        bx(num(5)),
    ));
    assert_eq!(reduce_expr(&mut e, &C), (false, false));
    assert!(matches!(e.inner, MIRExpressionInner::Index(..)));
}

#[test]
fn reduce_index_zero_becomes_deref() {
    let mut e = ex(MIRExpressionInner::Index(bx(var("a")), bx(num(0))));
    assert_eq!(reduce_expr(&mut e, &C), (true, true));
    assert!(matches!(&e.inner, MIRExpressionInner::Deref(_)));
}

#[test]
fn reduce_picks_ternary_branch() {
    let mut e = ex(MIRExpressionInner::Ternary(bx(num(0)), bx(num(1)), bx(num(2))));
    assert_eq!(reduce_expr(&mut e, &C), (true, true));
    assert!(matches!(e.inner, MIRExpressionInner::Number(2)));
}

#[test]
fn reduce_leaves_variables() {
    let mut e = ex(MIRExpressionInner::Add(bx(var("x")), bx(num(1))));
    assert_eq!(reduce_expr(&mut e, &C), (true, false));
    assert!(matches!(&e.inner, MIRExpressionInner::Add(..)));
}

#[test]
fn optimize_folds_every_statement() {
    let mut f = function(vec![
        MIRStatement::SetVariable {
            place: var("x"),
            value: ex(MIRExpressionInner::Add(bx(num(1)), bx(num(1)))),
            span: Span::empty(),
        },
        MIRStatement::IfStatement {
            condition: ex(MIRExpressionInner::Not(bx(ex(MIRExpressionInner::Bool(true))))),
            on_true: vec![MIRStatement::Return { expr: Some(num(3)), span: Span::empty() }],
            on_false: Vec::new(),
            span: Span::empty(),
        },
    ]);
    assert_eq!(optimize_exprs(&mut f, &C), (true, true));
    match &f.body[0] {
        MIRStatement::SetVariable { value, .. } => {
            assert!(matches!(value.inner, MIRExpressionInner::Number(2)))
        }
        _ => panic!("expected an assignment"),
    }
    match &f.body[1] {
        MIRStatement::IfStatement { condition, .. } => {
            assert!(matches!(condition.inner, MIRExpressionInner::Bool(false)))
        }
        _ => panic!("expected an if"),
    }
}

#[test]
fn optimize_reports_unchanged() {
    let mut f = function(vec![MIRStatement::Return { expr: Some(var("x")), span: Span::empty() }]);
    assert_eq!(optimize_exprs(&mut f, &C), (true, false));
}

#[test]
fn explore_visits_children_first() {
    let e = ex(MIRExpressionInner::Add(bx(num(1)), bx(var("y"))));
    // Stops at the variable, which comes before the addition itself.
    let stop_at_var = |x: &MIRExpression| !matches!(x.inner, MIRExpressionInner::Variable(..));
    assert!(!explore_expr(&e, &stop_at_var));
    let accept_all = |_x: &MIRExpression| true;
    assert!(explore_expr(&e, &accept_all));
}

#[test]
fn explore_outer_place_skips_index() {
    // a[b]: the index b is no outer place.
    let e = ex(MIRExpressionInner::Index(bx(var("a")), bx(var("b"))));
    let reject_b = |x: &MIRExpression| !matches!(&x.inner, MIRExpressionInner::Variable(n, _) if n == "b");
    assert!(explore_outer_place(&e, &reject_b));
    let reject_a = |x: &MIRExpression| !matches!(&x.inner, MIRExpressionInner::Variable(n, _) if n == "a");
    assert!(!explore_outer_place(&e, &reject_a));
}

#[test]
fn find_exprs_marks_write_places() {
    let s = MIRStatement::SetVariable { place: var("x"), value: num(1), span: Span::empty() };
    let writes_only_places = |e: &MIRExpression, write: bool| {
        write == matches!(e.inner, MIRExpressionInner::Variable(..))
    };
    assert!(find_exprs(&s, &writes_only_places));
    let no_writes = |_e: &MIRExpression, write: bool| !write;
    assert!(!find_exprs(&s, &no_writes));
}

#[test]
fn find_exprs_of_create_variable() {
    let v = MIRVariable {
        name: "x".to_string(),
        ty: MIRType { ty: MIRTypeInner::I32, span: None },
        arg: false,
        var_idx: Some(0),
        span: Span::empty(),
    };
    let s = MIRStatement::CreateVariable { var: v, value: Some(num(4)), span: Span::empty() };
    let is_four = |e: &MIRExpression, _w: bool| matches!(e.inner, MIRExpressionInner::Number(4));
    assert!(find_exprs(&s, &is_four));
}
