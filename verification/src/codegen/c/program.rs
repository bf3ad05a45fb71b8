//! Lowering of whole programs to C: declarations, then the quine encoding
//! of the output and its rendering as text.

use super::lower::{
    fn_lowerable, lower_fn, lower_imports_tokens, lower_static_tokens, marker, push_token, req,
    static_lowerable, CLowerer,
};
use super::token::spec_escape_string;
use crate::codegen::token::{
    all_have_text, merge_tokens, merged_prefix, token_views, Token, TokenInfo, TokenStyle,
    TokenView, Tokens,
};
use crate::mir::view::stmts_size;
use crate::mir::{MIRDeclaration, MIRFunctionType};
use crate::util::text::{decimal_text, push_char, u128_to_decimal};
use vstd::prelude::*;
use vstd::utf8::encode_utf8;

verus! {

/// Options controlling how the output is formatted.
#[derive(Clone, Copy, Debug)]
pub struct LowerOptions {
    /// Whether fancy tokens (indentation, line breaks) are kept.
    pub fancy: bool,
}

// ---------------------------------------------------------------------------
// Declarations
// ---------------------------------------------------------------------------

/// The C tokens of one declaration: constants and extern functions emit
/// nothing, markers stay markers.
pub open spec fn decl_tokens(d: MIRDeclaration, indent: nat) -> Seq<TokenView> {
    match d {
        MIRDeclaration::Static(v) => lower_static_tokens(v),
        MIRDeclaration::Function(f) => if f.fn_type == MIRFunctionType::Extern {
            Seq::empty()
        } else {
            lower_fn(f, indent)
        },
        MIRDeclaration::Constant(_) => Seq::empty(),
        MIRDeclaration::Marker(m) => seq![marker(m.name@)],
    }
}

/// The C tokens of the declarations, in order.
pub open spec fn decls_tokens(ds: Seq<MIRDeclaration>, indent: nat) -> Seq<TokenView>
    decreases ds.len(),
{
    if ds.len() == 0 {
        Seq::empty()
    } else {
        decls_tokens(ds.drop_last(), indent) + decl_tokens(ds.last(), indent)
    }
}

/// Every declaration can be lowered at indentation `indent`.
pub open spec fn decls_lowerable(ds: Seq<MIRDeclaration>, indent: nat) -> bool {
    forall|i: int| 0 <= i < ds.len() ==> decl_lowerable(#[trigger] ds[i], indent)
}

/// A declaration that can be lowered at indentation `indent`.
pub open spec fn decl_lowerable(d: MIRDeclaration, indent: nat) -> bool {
    match d {
        MIRDeclaration::Static(v) => static_lowerable(v),
        MIRDeclaration::Function(f) => f.fn_type == MIRFunctionType::Extern || (fn_lowerable(f) && indent
            + stmts_size(f.body@) <= u32::MAX),
        _ => true,
    }
}

// ---------------------------------------------------------------------------
// Quine encoding
// ---------------------------------------------------------------------------

/// Bytes never used to encode spaces and line breaks, since generated
/// values (numbers, booleans) may contain them.
pub open spec fn reserved_bytes() -> Seq<u8> {
    seq![
        48u8, 49u8, 50u8, 51u8, 52u8, 53u8, 54u8, 55u8, 56u8, 57u8, 46u8, 43u8, 45u8, 116u8,
        114u8, 117u8, 101u8, 102u8, 97u8, 108u8, 115u8, 101u8, 32u8, 10u8,
    ]
}

/// A byte of the UTF-8 text of a token that is not a marker.
pub open spec fn text_byte_used(toks: Seq<TokenView>, b: u8) -> bool {
    exists|i: int|
        0 <= i < toks.len() && (#[trigger] toks[i]).1 != TokenStyle::Marker && toks[i].0 is Some
            && encode_utf8(toks[i].0->0).contains(b)
}

/// A byte that can't stand for a space or a line break.
pub open spec fn byte_taken(toks: Seq<TokenView>, b: u8) -> bool {
    text_byte_used(toks, b) || reserved_bytes().contains(b)
}

/// Control characters (Unicode general category Cc).
pub open spec fn is_control_char(c: char) -> bool {
    let v = c as u32;
    v <= 0x1F || (0x7F <= v && v <= 0x9F)
}

/// The least byte from `from` on that is free and stands for a printable
/// character.
pub open spec fn first_free(toks: Seq<TokenView>, from: int) -> Option<u8>
    decreases 256 - from,
{
    if from < 0 || from >= 256 {
        None
    } else if !byte_taken(toks, from as u8) && !is_control_char(from as u8 as char) {
        Some(from as u8)
    } else {
        first_free(toks, from + 1)
    }
}

/// The characters that stand for spaces and line breaks in the quine: the
/// two least free printable bytes.
pub open spec fn encoding_chars(toks: Seq<TokenView>) -> Option<(u8, u8)> {
    match first_free(toks, 0) {
        Some(sp) => match first_free(toks, sp + 1) {
            Some(nl) => Some((sp, nl)),
            None => None,
        },
        None => None,
    }
}

/// A marker that the quine fills in.
pub open spec fn is_quine_marker(t: TokenView) -> bool {
    &&& t.1 == TokenStyle::Marker
    &&& (t.0 == Some("$quine"@) || t.0 == Some("$quineLen"@) || t.0 == Some("$quineSpace"@)
        || t.0 == Some("$quineLine"@))
}

/// The number of quine elements: one per token that is not a marker, and
/// one per marker that the quine fills in.
pub open spec fn quine_len(toks: Seq<TokenView>) -> nat
    decreases toks.len(),
{
    if toks.len() == 0 {
        0
    } else {
        quine_len(toks.drop_last()) + if toks.last().1 != TokenStyle::Marker || is_quine_marker(
            toks.last(),
        ) {
            1nat
        } else {
            0nat
        }
    }
}

/// A text with spaces and line breaks replaced by their stand-ins.
pub open spec fn encode_ws(x: Seq<char>, sp: u8, nl: u8) -> Seq<char> {
    Seq::new(
        x.len(),
        |i: int|
            if x[i] == ' ' {
                sp as char
            } else if x[i] == '\n' {
                nl as char
            } else {
                x[i]
            },
    )
}

/// What a token contributes to the quine array: its encoded text, or what
/// a quine marker stands for (the empty string stands for the array
/// itself); other markers contribute nothing.
pub open spec fn quine_piece(t: TokenView, qlen: nat, sp: u8, nl: u8) -> Option<Seq<char>> {
    if t.1 == TokenStyle::Marker {
        if t.0 == Some("$quine"@) {
            Some(Seq::empty())
        } else if t.0 == Some("$quineLen"@) {
            Some(decimal_text(qlen as int))
        } else if t.0 == Some("$quineSpace"@) {
            Some(seq![sp as char])
        } else if t.0 == Some("$quineLine"@) {
            Some(seq![nl as char])
        } else {
            None
        }
    } else {
        match t.0 {
            Some(x) => Some(encode_ws(x, sp, nl)),
            None => None,
        }
    }
}

/// A C string literal.
pub open spec fn quoted(p: Seq<char>) -> Seq<char> {
    "\""@ + spec_escape_string(p) + "\""@
}

/// The quine array's elements as C string literals, in token order.
pub open spec fn quine_pieces(toks: Seq<TokenView>, qlen: nat, sp: u8, nl: u8) -> Seq<Seq<char>>
    decreases toks.len(),
{
    if toks.len() == 0 {
        Seq::empty()
    } else {
        let prev = quine_pieces(toks.drop_last(), qlen, sp, nl);
        match quine_piece(toks.last(), qlen, sp, nl) {
            Some(p) => prev.push(quoted(p)),
            None => prev,
        }
    }
}

/// Texts joined with commas.
pub open spec fn join_commas(ps: Seq<Seq<char>>) -> Seq<char>
    decreases ps.len(),
{
    if ps.len() == 0 {
        Seq::empty()
    } else if ps.len() == 1 {
        ps[0]
    } else {
        join_commas(ps.drop_last()) + seq![','] + ps.last()
    }
}

/// A token with a quine marker filled in.
pub open spec fn inject(t: TokenView, joined: Seq<char>, qlen: nat, sp: u8, nl: u8) -> TokenView {
    if t.1 == TokenStyle::Marker {
        if t.0 == Some("$quine"@) {
            req(joined)
        } else if t.0 == Some("$quineLen"@) {
            req(decimal_text(qlen as int))
        } else if t.0 == Some("$quineSpace"@) {
            req(seq![sp as char])
        } else if t.0 == Some("$quineLine"@) {
            req(seq![nl as char])
        } else {
            t
        }
    } else {
        t
    }
}

/// The tokens that are output: quine markers filled in, other markers
/// dropped.
pub open spec fn final_tokens(toks: Seq<TokenView>, joined: Seq<char>, qlen: nat, sp: u8, nl: u8) -> Seq<
    TokenView,
> {
    toks.map_values(inject_fn(joined, qlen, sp, nl)).filter(not_marker())
}

/// [`inject`] as a function of the token.
pub open spec fn inject_fn(joined: Seq<char>, qlen: nat, sp: u8, nl: u8) -> spec_fn(TokenView) -> TokenView {
    |t: TokenView| inject(t, joined, qlen, sp, nl)
}

/// Whether a token is no marker.
pub open spec fn not_marker() -> spec_fn(TokenView) -> bool {
    |t: TokenView| t.1 != TokenStyle::Marker
}

/// The text that the token at `i` contributes: its text, and a space where
/// it would otherwise run into the next token.
pub open spec fn rendered_piece<I: TokenInfo + ?Sized>(info: &I, ts: Seq<TokenView>, i: int) -> Seq<
    char,
> {
    match ts[i].0 {
        Some(x) => x + if i + 1 < ts.len() && info.spec_needs_space(ts[i], ts[i + 1]) {
            seq![' ']
        } else {
            Seq::empty()
        },
        None => Seq::empty(),
    }
}

/// The text of the first `k` tokens.
pub open spec fn rendered<I: TokenInfo + ?Sized>(info: &I, ts: Seq<TokenView>, k: nat) -> Seq<char>
    decreases k,
{
    if k == 0 {
        Seq::empty()
    } else {
        rendered(info, ts, (k - 1) as nat) + rendered_piece(info, ts, k - 1)
    }
}

/// The program text for the joined tokens: adjacent tokens merged, the
/// quine array and its markers filled in, and the tokens rendered. None when
/// a token has no text, or when no two printable bytes are left to stand
/// for spaces and line breaks.
pub open spec fn finish_spec<I: TokenInfo + ?Sized>(info: &I, toks: Seq<TokenView>) -> Option<Seq<char>> {
    if !all_have_text(toks) {
        None
    } else {
        let merged = merged_prefix(info, toks, None, toks.len());
        match encoding_chars(merged) {
            None => None,
            Some((sp, nl)) => {
                let q = quine_len(merged);
                let joined = join_commas(quine_pieces(merged, q, sp, nl));
                let out = final_tokens(merged, joined, q, sp, nl);
                Some(rendered(info, out, out.len()))
            },
        }
    }
}

// ---------------------------------------------------------------------------
// Executable side
// ---------------------------------------------------------------------------

/// Lowers the declarations in order.
pub fn lower_decls(lowerer: &mut CLowerer, decls: &Vec<MIRDeclaration>) -> (res: Tokens)
    requires
        decls_lowerable(decls@, old(lowerer).indent_level as nat),
    ensures
        token_views(res@) == decls_tokens(decls@, old(lowerer).indent_level as nat),
        *final(lowerer) == *old(lowerer),
{
    let mut out = Tokens::new();
    let n = decls.len();
    let mut i: usize = 0;
    let ghost indent = lowerer.indent_level as nat;
    assert(decls@.take(0) =~= Seq::<MIRDeclaration>::empty());
    while i < n
        invariant
            n == decls@.len(),
            i <= n,
            indent == lowerer.indent_level as nat,
            *lowerer == *old(lowerer),
            decls_lowerable(decls@, indent),
            token_views(out@) == decls_tokens(decls@.take(i as int), indent),
        decreases n - i,
    {
        assert(decls@.take(i as int + 1).drop_last() =~= decls@.take(i as int));
        assert(decls@.take(i as int + 1).last() == decls@[i as int]);
        assert(decl_lowerable(decls@[i as int], indent));
        let ghost before = token_views(out@);
        match &decls[i] {
            MIRDeclaration::Static(v) => {
                let t = lowerer.lower_static(v);
                super::lower::append_tokens(&mut out, t);
            },
            MIRDeclaration::Function(f) => {
                if f.fn_type != MIRFunctionType::Extern {
                    let t = lowerer.lower_function(f);
                    super::lower::append_tokens(&mut out, t);
                } else {
                    assert(token_views(out@) =~= before + Seq::<TokenView>::empty());
                }
            },
            MIRDeclaration::Constant(_) => {
                assert(token_views(out@) =~= before + Seq::<TokenView>::empty());
            },
            MIRDeclaration::Marker(m) => {
                push_token(&mut out, Token { text: Some(m.name.clone()), style: TokenStyle::Marker });
                assert(token_views(out@) =~= before + seq![marker(m.name@)]);
            },
        }
        i = i + 1;
    }
    assert(decls@.take(n as int) =~= decls@);
    out
}

/// Whether every token has text.
pub fn all_texts(t: &Tokens) -> (res: bool)
    ensures
        res == all_have_text(token_views(t@)),
{
    let n = t.len();
    let mut i: usize = 0;
    while i < n
        invariant
            n == t@.len(),
            i <= n,
            forall|j: int| 0 <= j < i ==> (#[trigger] token_views(t@)[j]).0 is Some,
        decreases n - i,
    {
        if t.get(i).text.is_none() {
            assert(token_views(t@)[i as int].0 is None);
            return false;
        }
        i = i + 1;
    }
    true
}

fn is_control(c: char) -> (res: bool)
    ensures
        res == is_control_char(c),
{
    let v = c as u32;
    v <= 0x1F || (0x7F <= v && v <= 0x9F)
}

fn mark_bytes(used: &mut Vec<bool>, text: &String)
    requires
        old(used)@.len() == 256,
    ensures
        final(used)@.len() == 256,
        forall|b: int|
            0 <= b < 256 ==> #[trigger] final(used)@[b] == (old(used)@[b] || encode_utf8(text@).contains(
                b as u8,
            )),
{
    let bytes = text.as_str().as_bytes();
    let n = bytes.len();
    let mut j: usize = 0;
    while j < n
        invariant
            n == bytes@.len(),
            bytes@ == encode_utf8(text@),
            j <= n,
            used@.len() == 256,
            forall|b: int|
                0 <= b < 256 ==> #[trigger] used@[b] == (old(used)@[b] || bytes@.take(j as int).contains(
                    b as u8,
                )),
        decreases n - j,
    {
        let byte = bytes[j];
        used.set(byte as usize, true);
        proof {
            let t1 = bytes@.take(j as int + 1);
            let t0 = bytes@.take(j as int);
            assert(t1 =~= t0.push(byte));
            assert forall|b: int| 0 <= b < 256 implies #[trigger] used@[b] == (old(used)@[b]
                || t1.contains(b as u8)) by {
                if b == byte as int {
                    assert(t1[j as int] == byte);
                } else {
                    if t1.contains(b as u8) {
                        let k = choose|k: int| 0 <= k < t1.len() && #[trigger] t1[k] == b as u8;
                        assert(t0[k] == b as u8);
                    }
                    if t0.contains(b as u8) {
                        let k = choose|k: int| 0 <= k < t0.len() && #[trigger] t0[k] == b as u8;
                        assert(t1[k] == b as u8);
                    }
                }
            }
        }
        j = j + 1;
    }
    assert(bytes@.take(n as int) =~= bytes@);
}

/// Which bytes can't stand for spaces and line breaks.
fn taken_bytes(t: &Tokens) -> (res: Vec<bool>)
    ensures
        res@.len() == 256,
        forall|b: int| 0 <= b < 256 ==> #[trigger] res@[b] == byte_taken(token_views(t@), b as u8),
{
    let ghost tv = token_views(t@);
    let mut used: Vec<bool> = Vec::new();
    let mut b: usize = 0;
    while b < 256
        invariant
            b <= 256,
            used@.len() == b,
            forall|x: int| 0 <= x < b ==> !#[trigger] used@[x],
        decreases 256 - b,
    {
        used.push(false);
        b = b + 1;
    }
    let n = t.len();
    let mut i: usize = 0;
    while i < n
        invariant
            n == t@.len(),
            tv == token_views(t@),
            i <= n,
            used@.len() == 256,
            forall|x: int| 0 <= x < 256 ==> #[trigger] used@[x] == text_byte_used(tv.take(i as int), x as u8),
        decreases n - i,
    {
        let tok = t.get(i);
        let ghost before = used@;
        let ghost tk = tv.take(i as int + 1);
        assert(tk[i as int] == tok@);
        if tok.style != TokenStyle::Marker {
            match &tok.text {
                Some(text) => {
                    mark_bytes(&mut used, text);
                },
                None => {},
            }
        }
        proof {
            assert forall|x: int| 0 <= x < 256 implies #[trigger] used@[x] == text_byte_used(tk, x as u8) by {
                if text_byte_used(tk, x as u8) {
                    let k = choose|k: int|
                        0 <= k < tk.len() && (#[trigger] tk[k]).1 != TokenStyle::Marker && tk[k].0 is Some
                            && encode_utf8(tk[k].0->0).contains(x as u8);
                    if k < i {
                        assert(tv.take(i as int)[k] == tk[k]);
                    }
                }
                if text_byte_used(tv.take(i as int), x as u8) {
                    let k = choose|k: int|
                        0 <= k < tv.take(i as int).len() && (#[trigger] tv.take(i as int)[k]).1
                            != TokenStyle::Marker && tv.take(i as int)[k].0 is Some && encode_utf8(
                            tv.take(i as int)[k].0->0,
                        ).contains(x as u8);
                    assert(tk[k] == tv.take(i as int)[k]);
                }
            }
        }
        i = i + 1;
    }
    assert(tv.take(n as int) =~= tv);
    let reserved: [u8; 24] = [
        48u8, 49u8, 50u8, 51u8, 52u8, 53u8, 54u8, 55u8, 56u8, 57u8, 46u8, 43u8, 45u8, 116u8,
        114u8, 117u8, 101u8, 102u8, 97u8, 108u8, 115u8, 101u8, 32u8, 10u8,
    ];
    assert(reserved@ =~= reserved_bytes());
    let mut j: usize = 0;
    while j < 24
        invariant
            j <= 24,
            reserved@ == reserved_bytes(),
            used@.len() == 256,
            forall|x: int|
                0 <= x < 256 ==> #[trigger] used@[x] == (text_byte_used(tv, x as u8)
                    || reserved_bytes().take(j as int).contains(x as u8)),
        decreases 24 - j,
    {
        let r = reserved[j];
        used.set(r as usize, true);
        proof {
            let rt = reserved_bytes().take(j as int + 1);
            let r0 = reserved_bytes().take(j as int);
            assert(rt =~= r0.push(r));
            assert forall|x: int| 0 <= x < 256 implies #[trigger] used@[x] == (text_byte_used(tv, x as u8)
                || rt.contains(x as u8)) by {
                if x == r as int {
                    assert(rt[j as int] == r);
                } else {
                    if rt.contains(x as u8) {
                        let k = choose|k: int| 0 <= k < rt.len() && #[trigger] rt[k] == x as u8;
                        assert(r0[k] == x as u8);
                    }
                    if r0.contains(x as u8) {
                        let k = choose|k: int| 0 <= k < r0.len() && #[trigger] r0[k] == x as u8;
                        assert(rt[k] == x as u8);
                    }
                }
            }
        }
        j = j + 1;
    }
    assert(reserved_bytes().take(24) =~= reserved_bytes());
    used
}

fn find_free(used: &Vec<bool>, from: u32, Ghost(toks): Ghost<Seq<TokenView>>) -> (res: Option<u8>)
    requires
        used@.len() == 256,
        from <= 256,
        forall|b: int| 0 <= b < 256 ==> #[trigger] used@[b] == byte_taken(toks, b as u8),
    ensures
        res == first_free(toks, from as int),
{
    let mut b = from;
    while b < 256
        invariant
            from <= b <= 256,
            used@.len() == 256,
            forall|x: int| 0 <= x < 256 ==> #[trigger] used@[x] == byte_taken(toks, x as u8),
            first_free(toks, from as int) == first_free(toks, b as int),
        decreases 256 - b,
    {
        let c = (b as u8) as char;
        if !used[b as usize] && !is_control(c) {
            return Some(b as u8);
        }
        b = b + 1;
    }
    None
}

fn text_eq(x: &String, s: &str) -> (res: bool)
    ensures
        res == (x@ == s@),
{
    x.eq(&s.to_owned())
}

/// Which quine marker a token is: 1 for the array, 2 for its length, 3 for
/// the space stand-in, 4 for the line-break stand-in, 0 for none.
fn quine_marker_kind(t: &Token) -> (res: u8)
    ensures
        res == if t@.1 != TokenStyle::Marker {
            0u8
        } else if t@.0 == Some("$quine"@) {
            1u8
        } else if t@.0 == Some("$quineLen"@) {
            2u8
        } else if t@.0 == Some("$quineSpace"@) {
            3u8
        } else if t@.0 == Some("$quineLine"@) {
            4u8
        } else {
            0u8
        },
{
    if t.style != TokenStyle::Marker {
        return 0;
    }
    match &t.text {
        Some(x) => if text_eq(x, "$quine") {
            1
        } else if text_eq(x, "$quineLen") {
            2
        } else if text_eq(x, "$quineSpace") {
            3
        } else if text_eq(x, "$quineLine") {
            4
        } else {
            0
        },
        None => 0,
    }
}

fn count_quine(t: &Tokens) -> (res: usize)
    ensures
        res == quine_len(token_views(t@)),
{
    let ghost tv = token_views(t@);
    let n = t.len();
    let mut count: usize = 0;
    let mut i: usize = 0;
    assert(tv.take(0) =~= Seq::<TokenView>::empty());
    while i < n
        invariant
            n == t@.len(),
            tv == token_views(t@),
            i <= n,
            count <= i,
            count == quine_len(tv.take(i as int)),
        decreases n - i,
    {
        assert(tv.take(i as int + 1).drop_last() =~= tv.take(i as int));
        assert(tv.take(i as int + 1).last() == t@[i as int]@);
        let tok = t.get(i);
        if tok.style != TokenStyle::Marker || quine_marker_kind(tok) != 0 {
            count = count + 1;
        }
        i = i + 1;
    }
    assert(tv.take(n as int) =~= tv);
    count
}

fn byte_string(b: u8) -> (res: String)
    ensures
        res@ == seq![b as char],
{
    let mut s = String::new();
    push_char(&mut s, b as char);
    s
}

fn encode_ws_exec(x: &String, sp: u8, nl: u8) -> (res: String)
    ensures
        res@ == encode_ws(x@, sp, nl),
{
    let text = x.as_str();
    let n = text.unicode_len();
    let mut out = String::new();
    let mut i: usize = 0;
    while i < n
        invariant
            n == x@.len(),
            text@ == x@,
            i <= n,
            out@ == encode_ws(x@, sp, nl).take(i as int),
        decreases n - i,
    {
        let c = text.get_char(i);
        if c == ' ' {
            push_char(&mut out, sp as char);
        } else if c == '\n' {
            push_char(&mut out, nl as char);
        } else {
            push_char(&mut out, c);
        }
        i = i + 1;
        assert(out@ =~= encode_ws(x@, sp, nl).take(i as int));
    }
    assert(encode_ws(x@, sp, nl).take(n as int) =~= encode_ws(x@, sp, nl));
    out
}

fn quine_piece_exec(t: &Token, qlen: usize, sp: u8, nl: u8) -> (res: Option<String>)
    ensures
        match quine_piece(t@, qlen as nat, sp, nl) {
            Some(p) => res is Some && res->0@ == p,
            None => res is None,
        },
{
    let kind = quine_marker_kind(t);
    if t.style == TokenStyle::Marker {
        if kind == 1 {
            Some(String::new())
        } else if kind == 2 {
            Some(u128_to_decimal(qlen as u128))
        } else if kind == 3 {
            Some(byte_string(sp))
        } else if kind == 4 {
            Some(byte_string(nl))
        } else {
            None
        }
    } else {
        match &t.text {
            Some(x) => Some(encode_ws_exec(x, sp, nl)),
            None => None,
        }
    }
}

proof fn lemma_join_commas_push(ps: Seq<Seq<char>>, x: Seq<char>)
    ensures
        join_commas(ps.push(x)) == if ps.len() == 0 {
            x
        } else {
            join_commas(ps) + seq![','] + x
        },
{
    assert(ps.push(x).drop_last() =~= ps);
    if ps.len() == 0 {
        assert(ps.push(x)[0] == x);
    }
}

fn quine_array_text(t: &Tokens, qlen: usize, sp: u8, nl: u8) -> (res: String)
    ensures
        res@ == join_commas(quine_pieces(token_views(t@), qlen as nat, sp, nl)),
{
    let ghost tv = token_views(t@);
    let n = t.len();
    let mut out = String::new();
    let mut count: usize = 0;
    let mut i: usize = 0;
    assert(tv.take(0) =~= Seq::<TokenView>::empty());
    while i < n
        invariant
            n == t@.len(),
            tv == token_views(t@),
            i <= n,
            count <= i,
            count == quine_pieces(tv.take(i as int), qlen as nat, sp, nl).len(),
            out@ == join_commas(quine_pieces(tv.take(i as int), qlen as nat, sp, nl)),
        decreases n - i,
    {
        assert(tv.take(i as int + 1).drop_last() =~= tv.take(i as int));
        assert(tv.take(i as int + 1).last() == t@[i as int]@);
        let tok = t.get(i);
        match quine_piece_exec(tok, qlen, sp, nl) {
            Some(p) => {
                proof {
                    lemma_join_commas_push(quine_pieces(tv.take(i as int), qlen as nat, sp, nl), quoted(p@));
                }
                if count > 0 {
                    push_char(&mut out, ',');
                }
                out.append("\"");
                let escaped = super::token::escape_string(p.as_str());
                out.append(escaped.as_str());
                out.append("\"");
                count = count + 1;
                proof {
                    assert(out@ =~= join_commas(quine_pieces(tv.take(i as int + 1), qlen as nat, sp, nl)));
                }
            },
            None => {},
        }
        i = i + 1;
    }
    assert(tv.take(n as int) =~= tv);
    out
}

fn inject_and_strip(t: &Tokens, joined: &String, qlen: usize, sp: u8, nl: u8) -> (res: Tokens)
    ensures
        token_views(res@) == final_tokens(token_views(t@), joined@, qlen as nat, sp, nl),
{
    let ghost tv = token_views(t@);
    let ghost f = inject_fn(joined@, qlen as nat, sp, nl);
    let n = t.len();
    let mut out = Tokens::new();
    let mut i: usize = 0;
    assert(tv.take(0).map_values(f) =~= Seq::<TokenView>::empty());
    proof {
        reveal(Seq::filter);
    }
    assert(Seq::<TokenView>::empty().filter(not_marker()) =~= Seq::<TokenView>::empty());
    while i < n
        invariant
            n == t@.len(),
            tv == token_views(t@),
            f == inject_fn(joined@, qlen as nat, sp, nl),
            i <= n,
            token_views(out@) == tv.take(i as int).map_values(f).filter(not_marker()),
        decreases n - i,
    {
        let tok = t.get(i);
        let kind = quine_marker_kind(tok);
        let injected = if kind == 1 {
            Token::new(joined.clone())
        } else if kind == 2 {
            Token::new(u128_to_decimal(qlen as u128))
        } else if kind == 3 {
            Token::new(byte_string(sp))
        } else if kind == 4 {
            Token::new(byte_string(nl))
        } else {
            tok.clone()
        };
        proof {
            assert(tv[i as int] == tok@);
            assert(injected@ == f(tv[i as int]));
            assert(tv.take(i as int + 1).map_values(f) =~= tv.take(i as int).map_values(f).push(
                f(tv[i as int]),
            ));
            tv.take(i as int).map_values(f).lemma_filter_push(f(tv[i as int]), not_marker());
        }
        if injected.style != TokenStyle::Marker {
            push_token(&mut out, injected);
        }
        i = i + 1;
    }
    assert(tv.take(n as int) =~= tv);
    out
}

fn render_tokens<I: TokenInfo>(info: &I, t: &Tokens) -> (res: String)
    ensures
        res@ == rendered(info, token_views(t@), t@.len()),
{
    let ghost tv = token_views(t@);
    let n = t.len();
    let mut out = String::new();
    let mut i: usize = 0;
    while i < n
        invariant
            n == t@.len(),
            tv == token_views(t@),
            i <= n,
            out@ == rendered(info, tv, i as nat),
        decreases n - i,
    {
        let tok = t.get(i);
        assert(tv[i as int] == tok@);
        match &tok.text {
            Some(x) => {
                out.append(x.as_str());
                if i + 1 < n {
                    assert(tv[i + 1] == t@[i + 1]@);
                    if info.needs_space_between(tok, t.get(i + 1)) {
                        push_char(&mut out, ' ');
                    }
                }
            },
            None => {},
        }
        i = i + 1;
        assert(out@ =~= rendered(info, tv, i as nat));
    }
    out
}

/// Turns the joined header and body tokens into the program text: merges
/// adjacent tokens, encodes the output into the quine array (spaces and line
/// breaks stand for the two least printable bytes the output leaves free),
/// fills in the quine markers, and renders the tokens with the spaces C
/// needs between them. None when a token has no text, or when no two such
/// bytes are left.
pub fn finish_program<I: TokenInfo>(info: &I, tokens: Tokens) -> (res: Option<String>)
    ensures
        match finish_spec(info, token_views(tokens@)) {
            Some(text) => res is Some && res->0@ == text,
            None => res is None,
        },
{
    if !all_texts(&tokens) {
        return None;
    }
    let mut merged = tokens;
    merge_tokens(info, &mut merged, None);
    let ghost mv = token_views(merged@);
    let used = taken_bytes(&merged);
    let sp = match find_free(&used, 0, Ghost(mv)) {
        Some(b) => b,
        None => {
            return None;
        },
    };
    let nl = match find_free(&used, sp as u32 + 1, Ghost(mv)) {
        Some(b) => b,
        None => {
            return None;
        },
    };
    let q = count_quine(&merged);
    let joined = quine_array_text(&merged, q, sp, nl);
    let out = inject_and_strip(&merged, &joined, q, sp, nl);
    Some(render_tokens(info, &out))
}

// ---------------------------------------------------------------------------
// Whole programs
// ---------------------------------------------------------------------------

/// Tokens without the fancy ones.
pub open spec fn strip_fancy(t: Seq<TokenView>) -> Seq<TokenView> {
    t.filter(|x: TokenView| x.1 != TokenStyle::Fancy)
}

proof fn lemma_views_filter(s: Seq<Token>)
    ensures
        token_views(s.filter(|t: Token| t.style != TokenStyle::Fancy)) == strip_fancy(token_views(s)),
    decreases s.len(),
{
    if s.len() == 0 {
        reveal(Seq::filter);
        assert(s.filter(|t: Token| t.style != TokenStyle::Fancy) =~= Seq::<Token>::empty());
        assert(token_views(s) =~= Seq::<TokenView>::empty());
        assert(token_views(s).filter(|x: TokenView| x.1 != TokenStyle::Fancy) =~= Seq::<TokenView>::empty());
        assert(token_views(Seq::<Token>::empty()) =~= Seq::<TokenView>::empty());
    } else {
        let init = s.drop_last();
        let x = s.last();
        assert(s =~= init.push(x));
        lemma_views_filter(init);
        init.lemma_filter_push(x, |t: Token| t.style != TokenStyle::Fancy);
        assert(token_views(s) =~= token_views(init).push(x@));
        token_views(init).lemma_filter_push(x@, |v: TokenView| v.1 != TokenStyle::Fancy);
        if x.style != TokenStyle::Fancy {
            assert(token_views(init.filter(|t: Token| t.style != TokenStyle::Fancy).push(x)) =~= token_views(
                init.filter(|t: Token| t.style != TokenStyle::Fancy),
            ).push(x@));
        }
    }
}

/// The C text of a program: the includes, then the declarations; without
/// fancy output, fancy tokens are dropped and the output is compressed with
/// defines; then the quine is filled in and the tokens rendered (see
/// [`finish_spec`]). None where [`finish_spec`] gives none, or when a token
/// to compress has no text.
pub open spec fn program_text(
    l: CLowerer,
    imports: Seq<String>,
    decls: Seq<MIRDeclaration>,
    fancy: bool,
) -> Option<Seq<char>> {
    let h0 = lower_imports_tokens(imports);
    let b0 = decls_tokens(decls, l.indent_level as nat);
    if fancy {
        finish_spec(&l, h0 + b0)
    } else if !all_have_text(strip_fancy(b0)) {
        None
    } else {
        let hb = super::compress::compressed(&l, strip_fancy(h0), strip_fancy(b0));
        finish_spec(&l, hb.0 + hb.1)
    }
}

impl CLowerer {
    /// Converts a program, given by its required imports and its
    /// declarations in order, to C text (see [`program_text`]).
    pub fn lower_program(
        &mut self,
        imports: &Vec<String>,
        decls: &Vec<MIRDeclaration>,
        options: LowerOptions,
    ) -> (res: Option<String>)
        requires
            decls_lowerable(decls@, old(self).indent_level as nat),
        ensures
            match program_text(*old(self), imports@, decls@, options.fancy) {
                Some(text) => res is Some && res->0@ == text,
                None => res is None,
            },
            *final(self) == *old(self),
    {
        let mut header = self.lower_imports(imports);
        let mut body = lower_decls(self, decls);
        if !options.fancy {
            let ghost hs = header@;
            let ghost bs = body@;
            crate::codegen::token::strip_fancy_tokens(&mut header);
            crate::codegen::token::strip_fancy_tokens(&mut body);
            proof {
                lemma_views_filter(hs);
                lemma_views_filter(bs);
            }
            if !all_texts(&body) {
                return None;
            }
            let info = *self;
            super::compress::compress_with_defines(&info, &mut header, &mut body);
        }
        let ghost hv = token_views(header@);
        let ghost bv = token_views(body@);
        header.extend(body);
        assert(token_views(header@) =~= hv + bv);
        let info = *self;
        finish_program(&info, header)
    }
}

} // verus!
