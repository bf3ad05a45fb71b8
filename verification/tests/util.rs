use insert::codegen::c::compress::{compress_with_defines, define_line_cost, define_savings};
use insert::codegen::c::lower::CLowerer;
use insert::codegen::c::program::finish_program;
use insert::codegen::c::token::{append_escape, escape_char, escape_string};
use insert::codegen::token::{merge_tokens, strip_fancy_tokens, try_merge, Token, TokenStyle, Tokens};
use insert::mir::overloads::FunctionOverloads;
use insert::mir::types::{types_could_match, types_same};
use insert::mir::{MIRFunctionArgs, MIRFunctionKey, MIRTypeInner};
use insert::util::name::next_name;
use insert::util::text::{i128_to_decimal, pad_zeros, u128_to_decimal, u32_to_hex, u32_to_octal};

fn texts(t: &Tokens) -> Vec<String> {
    t.to_vec().into_iter().map(|tok| tok.text.unwrap_or_default()).collect()
}

#[test]
fn names_skip_used_ones() {
    let used = vec!["a".to_string(), "b".to_string()];
    let mut n: usize = 0;
    assert_eq!(next_name(&mut n, &used), "c");
    assert_eq!(n, 3);
    assert_eq!(next_name(&mut n, &used), "d");
    let mut m: usize = 52;
    assert_eq!(next_name(&mut m, &Vec::new()), "ab");
}

#[test]
fn decimal_octal_hex_texts() {
    assert_eq!(i128_to_decimal(-120), "-120");
    assert_eq!(i128_to_decimal(0), "0");
    assert_eq!(u128_to_decimal(9876543210), "9876543210");
    assert_eq!(u32_to_octal(8), "10");
    assert_eq!(u32_to_hex(255), "ff");
    assert_eq!(pad_zeros("7".to_string(), 3), "007");
    assert_eq!(pad_zeros("1234".to_string(), 3), "1234");
}

#[test]
fn escapes_for_c() {
    assert_eq!(escape_string("a\nb\"c"), "a\\nb\\\"c");
    assert_eq!(escape_char("'\\"), "\\'\\\\");
    let mut s = String::new();
    append_escape(&mut s, '\u{1}');
    assert_eq!(s, "\\001");
    let mut s = String::new();
    append_escape(&mut s, '\u{85}');
    assert_eq!(s, "\\u0085");
    let mut s = String::new();
    append_escape(&mut s, 'x');
    assert_eq!(s, "x");
}

#[test]
fn define_costs() {
    assert_eq!(define_line_cost("abc"), 14);
    assert_eq!(define_line_cost("a\nb"), 15);
    assert_eq!(define_savings("abc", 10), 6);
    assert_eq!(define_savings("abc", 1), -12);
}

#[test]
fn compress_defines_repeated_token() {
    let l = CLowerer::new();
    let mut header = Tokens::from_vec(Vec::new());
    let word = "xxxxxxxxxx".to_string();
    let mut body = Tokens::from_vec((0..5).map(|_| Token::new(word.clone())).collect());
    compress_with_defines(&l, &mut header, &mut body);
    assert_eq!(texts(&header), vec!["#define a xxxxxxxxxx\n"]);
    assert_eq!(texts(&body), vec!["a", "a", "a", "a", "a"]);
}

#[test]
fn compress_leaves_short_output() {
    let l = CLowerer::new();
    let mut header = Tokens::from_vec(Vec::new());
    let mut body = Tokens::from_vec(vec![Token::new("int".to_string()), Token::new("x".to_string())]);
    compress_with_defines(&l, &mut header, &mut body);
    assert!(header.to_vec().is_empty());
    assert_eq!(texts(&body), vec!["int", "x"]);
}

#[test]
fn finish_fills_quine_length() {
    let l = CLowerer::new();
    let toks = Tokens::from_vec(vec![
        Token::new("n=".to_string()),
        Token { text: Some("$quineLen".to_string()), style: TokenStyle::Marker },
        Token::new(";".to_string()),
    ]);
    // Three quine elements: "n=", the length itself, and ";".
    assert_eq!(finish_program(&l, toks).as_deref(), Some("n=3;"));
}

#[test]
fn finish_rejects_missing_text() {
    let l = CLowerer::new();
    let toks = Tokens::from_vec(vec![Token { text: None, style: TokenStyle::Required }]);
    assert!(finish_program(&l, toks).is_none());
}

#[test]
fn merge_inserts_needed_spaces() {
    let l = CLowerer::new();
    let mut toks = Tokens::from_vec(vec![
        Token::new("return".to_string()),
        Token::new("0".to_string()),
        Token::new(";".to_string()),
    ]);
    merge_tokens(&l, &mut toks, None);
    assert_eq!(texts(&toks), vec!["return 0;"]);
}

#[test]
fn merge_only_given_pair() {
    let l = CLowerer::new();
    let a = "a".to_string();
    let plus = "+".to_string();
    let mut toks = Tokens::from_vec(vec![
        Token::new("a".to_string()),
        Token::new("+".to_string()),
        Token::new("+".to_string()),
    ]);
    merge_tokens(&l, &mut toks, Some((&a, &plus)));
    assert_eq!(texts(&toks), vec!["a+", "+"]);
}

#[test]
fn try_merge_keeps_markers_apart() {
    let l = CLowerer::new();
    let mut left = Token::new("x".to_string());
    let marker = Token { text: Some("m".to_string()), style: TokenStyle::Marker };
    assert!(!try_merge(&l, &mut left, &marker));
    assert_eq!(left.text.as_deref(), Some("x "));
}

#[test]
fn strip_removes_fancy_tokens() {
    let mut toks = Tokens::from_vec(vec![
        Token::new_fancy("\n".to_string()),
        Token::new("a".to_string()),
        Token::new_fancy("    ".to_string()),
    ]);
    strip_fancy_tokens(&mut toks);
    assert_eq!(texts(&toks), vec!["a"]);
}

#[test]
fn overloads_find_and_remove() {
    let mut o = FunctionOverloads::new();
    assert!(o.is_empty());
    o.push(MIRFunctionArgs { args: vec![MIRTypeInner::I32], variadic: false }, MIRFunctionKey(1));
    o.push(MIRFunctionArgs { args: vec![MIRTypeInner::Bool], variadic: false }, MIRFunctionKey(2));
    assert_eq!(o.find_compatible(&[MIRTypeInner::Bool]), Some(MIRFunctionKey(2)));
    assert_eq!(o.count_compatible(&[MIRTypeInner::Char]), 0);
    let clash = MIRFunctionArgs { args: vec![MIRTypeInner::I32], variadic: false };
    assert_eq!(o.find_conflict(&clash), Some(MIRFunctionKey(1)));
    o.remove_conflicts(&clash);
    assert_eq!(o.keys(), vec![MIRFunctionKey(2)]);
    o.remove(MIRFunctionKey(2));
    assert!(o.is_empty());
}

#[test]
fn type_matching() {
    assert!(types_same(&MIRTypeInner::I32, &MIRTypeInner::I32));
    assert!(!types_same(&MIRTypeInner::I32, &MIRTypeInner::Bool));
    assert!(types_could_match(&MIRTypeInner::Named("s".to_string()), &MIRTypeInner::Named("s".to_string())));
    assert!(!types_could_match(&MIRTypeInner::Bool, &MIRTypeInner::Char));
}

#[test]
fn nul_is_escaped_so_a_following_digit_stays_a_digit() {
    assert_eq!(escape_string("\u{0}1"), "\\0001");
    assert_eq!(escape_char("\u{0}"), "\\000");
}

#[test]
fn overloads_ambiguous_call_finds_none() {
    let mut o = FunctionOverloads::new();
    o.push(MIRFunctionArgs { args: vec![MIRTypeInner::I32], variadic: false }, MIRFunctionKey(1));
    o.push(MIRFunctionArgs { args: Vec::new(), variadic: true }, MIRFunctionKey(2));
    assert_eq!(o.count_compatible(&[MIRTypeInner::I32]), 2);
    assert_eq!(o.find_compatible(&[MIRTypeInner::I32]), None);
    assert_eq!(o.count_compatible(&[MIRTypeInner::Bool, MIRTypeInner::Char]), 1);
    assert_eq!(o.find_compatible(&[MIRTypeInner::Bool, MIRTypeInner::Char]), Some(MIRFunctionKey(2)));
}
