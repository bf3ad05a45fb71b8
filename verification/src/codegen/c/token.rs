//! C-specific token rules: when tokens need a space between them, escaping
//! of string and char literals, and compression of the output with defines.

use super::lower::CLowerer;
use crate::codegen::token::{Token, TokenInfo, TokenStyle, TokenView};
use crate::util::text::{
    hex_digits, octal_digits, pad_zeros, push_char, u32_to_hex, u32_to_octal, zero_pad,
};
use vstd::prelude::*;
use vstd::string::StrSliceExecFns;

verus! {

/// [a-zA-Z0-9_]: characters of identifiers, keywords and numbers.
pub open spec fn spec_is_ident_char(c: char) -> bool {
    let v = c as u32;
    (97 <= v <= 122) || (65 <= v <= 90) || (48 <= v <= 57) || c == '_'
}

/// C operator and separator symbols.
pub open spec fn spec_is_punct_char(c: char) -> bool {
    seq!['!', '%', '^', '&', '*', '-', '+', '=', '|', '~', '<', '>', '.', '?', '/', ':'].contains(c)
}

/// Pairs of symbols that would form a different (compound) operator or a
/// comment if written next to each other.
pub open spec fn spec_forms_compound(l: char, r: char) -> bool {
    ||| (l == '/' && r == '*')
    ||| (l == '/' && r == '/')
    ||| (l == '+' && r == '+')
    ||| (l == '-' && r == '-')
    ||| (l == '-' && r == '>')
    ||| (l == '<' && r == '<')
    ||| (l == '>' && r == '>')
    ||| (l == '=' && r == '=')
    ||| (l == '<' && r == '=')
    ||| (l == '>' && r == '=')
    ||| (l == '!' && r == '=')
    ||| (l == '&' && r == '&')
    ||| (l == '|' && r == '|')
    ||| (l == '+' && r == '=')
    ||| (l == '-' && r == '=')
    ||| (l == '*' && r == '=')
    ||| (l == '/' && r == '=')
    ||| (l == '%' && r == '=')
    ||| (l == '&' && r == '=')
    ||| (l == '|' && r == '=')
    ||| (l == '^' && r == '=')
}

/// Whether two C tokens need a space between them. Markers count as
/// identifiers, to be conservative; two markers never need one.
pub open spec fn spec_c_needs_space(left: TokenView, right: TokenView) -> bool {
    if left.1 == TokenStyle::Marker && right.1 == TokenStyle::Marker {
        false
    } else if left.0 is None || right.0 is None {
        false
    } else if left.0.unwrap().len() == 0 || right.0.unwrap().len() == 0 {
        false
    } else {
        let l = if left.1 == TokenStyle::Marker { 'a' } else { left.0.unwrap().last() };
        let r = if right.1 == TokenStyle::Marker { 'a' } else { right.0.unwrap()[0] };
        if spec_is_ident_char(l) && spec_is_ident_char(r) {
            // Words must be separated (int main, return 0, 123 456).
            true
        } else if spec_is_punct_char(l) && spec_is_punct_char(r) {
            spec_forms_compound(l, r)
        } else {
            // Literal prefixes (L"", u'', U"").
            (r == '"' || r == '\'') && (l == 'L' || l == 'u' || l == 'U')
        }
    }
}

impl TokenInfo for CLowerer {
    open spec fn spec_needs_space(&self, left: TokenView, right: TokenView) -> bool {
        spec_c_needs_space(left, right)
    }

    fn needs_space_between(&self, left: &Token, right: &Token) -> (res: bool) {
        if left.style == TokenStyle::Marker && right.style == TokenStyle::Marker {
            return false;
        }
        let left_text = match &left.text {
            Some(t) => t.as_str(),
            None => return false,
        };
        let right_text = match &right.text {
            Some(t) => t.as_str(),
            None => return false,
        };
        let left_len = left_text.unicode_len();
        let right_len = right_text.unicode_len();
        if left_len == 0 || right_len == 0 {
            return false;
        }
        let mut left_char = left_text.get_char(left_len - 1);
        let mut right_char = right_text.get_char(0);
        // Markers are treated as identifiers, to be conservative about spaces.
        if left.style == TokenStyle::Marker {
            left_char = 'a';
        }
        if right.style == TokenStyle::Marker {
            right_char = 'a';
        }
        // Words must be separated.
        if is_ident_char(left_char) && is_ident_char(right_char) {
            return true;
        }
        // Operators need a space only where they'd form a compound operator.
        if is_punct_char(left_char) && is_punct_char(right_char) {
            return forms_compound(left_char, right_char);
        }
        // Literal prefixes.
        if (right_char == '"' || right_char == '\'') && (left_char == 'L' || left_char == 'u'
            || left_char == 'U') {
            return true;
        }
        false
    }
}

/// Returns true for [a-zA-Z0-9_].
/// Used to detect identifiers, keywords, and numbers.
fn is_ident_char(c: char) -> (res: bool)
    ensures
        res == spec_is_ident_char(c),
{
    let v = c as u32;
    (97 <= v && v <= 122) || (65 <= v && v <= 90) || (48 <= v && v <= 57) || c == '_'
}

/// Returns true for C operator/separator symbols.
fn is_punct_char(c: char) -> (res: bool)
    ensures
        res == spec_is_punct_char(c),
{
    let res = c == '!' || c == '%' || c == '^' || c == '&' || c == '*' || c == '-' || c == '+' || c
        == '=' || c == '|' || c == '~' || c == '<' || c == '>' || c == '.' || c == '?' || c == '/'
        || c == ':';
    proof {
        let s = seq!['!', '%', '^', '&', '*', '-', '+', '=', '|', '~', '<', '>', '.', '?', '/', ':'];
        if res {
            if c == '!' { assert(s[0] == c); }
            if c == '%' { assert(s[1] == c); }
            if c == '^' { assert(s[2] == c); }
            if c == '&' { assert(s[3] == c); }
            if c == '*' { assert(s[4] == c); }
            if c == '-' { assert(s[5] == c); }
            if c == '+' { assert(s[6] == c); }
            if c == '=' { assert(s[7] == c); }
            if c == '|' { assert(s[8] == c); }
            if c == '~' { assert(s[9] == c); }
            if c == '<' { assert(s[10] == c); }
            if c == '>' { assert(s[11] == c); }
            if c == '.' { assert(s[12] == c); }
            if c == '?' { assert(s[13] == c); }
            if c == '/' { assert(s[14] == c); }
            if c == ':' { assert(s[15] == c); }
        }
    }
    res
}

fn forms_compound(l: char, r: char) -> (res: bool)
    ensures
        res == spec_forms_compound(l, r),
{
    (l == '/' && r == '*') || (l == '/' && r == '/') || (l == '+' && r == '+') || (l == '-' && r
        == '-') || (l == '-' && r == '>') || (l == '<' && r == '<') || (l == '>' && r == '>') || (l
        == '=' && r == '=') || (l == '<' && r == '=') || (l == '>' && r == '=') || (l == '!' && r
        == '=') || (l == '&' && r == '&') || (l == '|' && r == '|') || (l == '+' && r == '=') || (l
        == '-' && r == '=') || (l == '*' && r == '=') || (l == '/' && r == '=') || (l == '%' && r
        == '=') || (l == '&' && r == '=') || (l == '|' && r == '=') || (l == '^' && r == '=')
}

/// Control characters (Unicode general category Cc).
pub open spec fn spec_is_control(c: char) -> bool {
    let v = c as u32;
    v <= 0x1F || (0x7F <= v && v <= 0x9F)
}

/// The C escape of a character, without special handling of quotes:
/// backslash, newline, carriage return and tab get their short escapes,
/// other ASCII control characters (NUL included) a three-digit octal escape,
/// so that a digit after them cannot extend the escape, other control
/// characters a four-digit hexadecimal `\u` escape, and every other
/// character stands for itself.
pub open spec fn spec_escape(c: char) -> Seq<char> {
    if c == '\\' {
        seq!['\\', '\\']
    } else if c == '\n' {
        seq!['\\', 'n']
    } else if c == '\r' {
        seq!['\\', 'r']
    } else if c == '\t' {
        seq!['\\', 't']
    } else if spec_is_control(c) {
        if (c as u32) < 128 {
            seq!['\\'] + zero_pad(octal_digits(c as u32 as nat), 3)
        } else {
            seq!['\\', 'u'] + zero_pad(hex_digits(c as u32 as nat), 4)
        }
    } else {
        seq![c]
    }
}

/// The text of a C string literal's contents for `s`.
pub open spec fn spec_escape_string(s: Seq<char>) -> Seq<char>
    decreases s.len(),
{
    if s.len() == 0 {
        Seq::empty()
    } else {
        spec_escape_string(s.drop_last()) + if s.last() == '"' {
            seq!['\\', '"']
        } else {
            spec_escape(s.last())
        }
    }
}

/// The text of a C char literal's contents for `s`.
pub open spec fn spec_escape_char(s: Seq<char>) -> Seq<char>
    decreases s.len(),
{
    if s.len() == 0 {
        Seq::empty()
    } else {
        spec_escape_char(s.drop_last()) + if s.last() == '\'' {
            seq!['\\', '\'']
        } else {
            spec_escape(s.last())
        }
    }
}

/// Escapes a string for use in a C string literal.
pub fn escape_string(s: &str) -> (res: String)
    ensures
        res@ == spec_escape_string(s@),
{
    let mut output = String::new();
    let n = s.unicode_len();
    let mut i: usize = 0;
    while i < n
        invariant
            n == s@.len(),
            i <= n,
            output@ == spec_escape_string(s@.take(i as int)),
        decreases n - i,
    {
        let c = s.get_char(i);
        proof {
            assert(s@.take(i + 1).drop_last() == s@.take(i as int));
            assert(s@.take(i + 1).last() == c);
            reveal_strlit("\\\"");
        }
        if c == '"' {
            output.append("\\\"");
        } else {
            append_escape(&mut output, c);
        }
        i = i + 1;
    }
    proof {
        assert(s@.take(n as int) == s@);
    }
    output
}

/// Escapes a char for use in a C char literal.
pub fn escape_char(s: &str) -> (res: String)
    ensures
        res@ == spec_escape_char(s@),
{
    let mut output = String::new();
    let n = s.unicode_len();
    let mut i: usize = 0;
    while i < n
        invariant
            n == s@.len(),
            i <= n,
            output@ == spec_escape_char(s@.take(i as int)),
        decreases n - i,
    {
        let c = s.get_char(i);
        proof {
            assert(s@.take(i + 1).drop_last() == s@.take(i as int));
            assert(s@.take(i + 1).last() == c);
            reveal_strlit("\\'");
        }
        if c == '\'' {
            output.append("\\'");
        } else {
            append_escape(&mut output, c);
        }
        i = i + 1;
    }
    proof {
        assert(s@.take(n as int) == s@);
    }
    output
}

/// Appends the generic escape of a character for strings and chars.
/// Quotes aren't escaped here.
pub fn append_escape(append: &mut String, c: char)
    ensures
        final(append)@ == old(append)@ + spec_escape(c),
{
    proof {
        reveal_strlit("\\\\");
        reveal_strlit("\\n");
        reveal_strlit("\\r");
        reveal_strlit("\\t");
        reveal_strlit("\\u");
        reveal_strlit("\\");
    }
    if c == '\\' {
        append.append("\\\\");
    } else if c == '\n' {
        append.append("\\n");
    } else if c == '\r' {
        append.append("\\r");
    } else if c == '\t' {
        append.append("\\t");
    } else {
        let v = c as u32;
        if v <= 0x1F || (0x7F <= v && v <= 0x9F) {
            if v < 128 {
                // \nnn in octal
                append.append("\\");
                let digits = pad_zeros(u32_to_octal(v), 3);
                append.append(digits.as_str());
            } else {
                // \uhhhh in hex
                append.append("\\u");
                let digits = pad_zeros(u32_to_hex(v), 4);
                append.append(digits.as_str());
            }
        } else {
            push_char(append, c);
        }
    }
}

} // verus!
