use insert::mir::MIRTypeInner;
use insert::parser::number::parse_number;

fn value(text: &str) -> Option<i128> {
    parse_number(text).map(|(v, _)| v)
}

#[test]
fn plain_and_signed_literals() {
    assert_eq!(value("42"), Some(42));
    assert_eq!(value("0"), Some(0));
    assert_eq!(value("-7"), Some(-7));
    assert_eq!(value("+3"), Some(3));
    assert!(matches!(parse_number("42"), Some((42, None))));
}

#[test]
fn suffixes_name_the_type() {
    assert!(matches!(parse_number("-7i32"), Some((-7, Some(MIRTypeInner::I32)))));
    assert!(matches!(parse_number("5u32"), Some((5, Some(MIRTypeInner::U32)))));
    assert!(matches!(parse_number("5x32"), None));
}

#[test]
fn limits_of_i128() {
    assert_eq!(value("170141183460469231731687303715884105727"), Some(i128::MAX));
    assert_eq!(value("170141183460469231731687303715884105728"), None);
    assert_eq!(value("-170141183460469231731687303715884105728"), Some(i128::MIN));
    assert_eq!(value("-170141183460469231731687303715884105729"), None);
    assert_eq!(value("1701411834604692317316873037158841057270"), None);
}

#[test]
fn text_that_is_no_literal() {
    assert_eq!(value(""), None);
    assert_eq!(value("-"), None);
    assert_eq!(value("i32"), None);
    assert_eq!(value("1x2"), None);
    assert_eq!(value("--1"), None);
    assert_eq!(value("abc"), None);
}
