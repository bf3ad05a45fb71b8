//! Compression of C output: adjacent tokens that always occur together are
//! merged, and tokens that pay for it are replaced by short `#define` names.

use super::lower::{push_token, req, CLowerer};
use crate::codegen::token::{
    all_have_text, lemma_merged_prefix_props, merge_tokens, merged_prefix, token_views, Token,
    TokenInfo, TokenStyle, TokenView, Tokens,
};
use crate::util::name::{name_is_used, next_name, spec_name_of};
use crate::util::text::push_char;
use vstd::prelude::*;
use vstd::string::StringSliceAdditionalSpecFns;
use vstd::utf8::encode_utf8;

verus! {

// ---------------------------------------------------------------------------
// Costs
// ---------------------------------------------------------------------------

/// Texts and counts up to this bound keep every cost computation exact.
pub open spec fn size_limit() -> int {
    0x1000_0000
}

/// The UTF-8 length of a text.
pub open spec fn byte_len(t: Seq<char>) -> int {
    encode_utf8(t).len() as int
}

/// The line-break bytes of a text.
pub open spec fn newline_bytes(t: Seq<char>) -> int {
    encode_utf8(t).filter(|b: u8| b == 10u8).len() as int
}

/// The length of a define line `#define {name} {text}\n`, counting one
/// character for the name and an extra backslash per line break.
pub open spec fn line_cost(t: Seq<char>) -> int {
    8 + 1 + 1 + byte_len(t) + newline_bytes(t) + 1
}

/// The characters saved by defining `t`, used `count` times (negative when
/// the define costs more than it saves).
pub open spec fn savings(t: Seq<char>, count: int) -> int {
    (byte_len(t) - 1) * count - line_cost(t)
}

/// Zero for losses.
pub open spec fn max0(x: int) -> int {
    if x > 0 {
        x
    } else {
        0
    }
}

fn count_newline_bytes(text: &str) -> (res: usize)
    ensures
        res == newline_bytes(text@),
{
    let bytes = text.as_bytes();
    let n = bytes.len();
    let mut count: usize = 0;
    let mut i: usize = 0;
    proof {
        reveal(Seq::filter);
        assert(bytes@.take(0).filter(|b: u8| b == 10u8) =~= Seq::<u8>::empty());
    }
    while i < n
        invariant
            n == bytes@.len(),
            bytes@ == encode_utf8(text@),
            i <= n,
            count == bytes@.take(i as int).filter(|b: u8| b == 10u8).len(),
            count <= i,
        decreases n - i,
    {
        proof {
            assert(bytes@.take(i as int + 1) =~= bytes@.take(i as int).push(bytes@[i as int]));
            bytes@.take(i as int).lemma_filter_push(bytes@[i as int], |b: u8| b == 10u8);
        }
        if bytes[i] == 10u8 {
            count = count + 1;
        }
        i = i + 1;
    }
    assert(bytes@.take(n as int) =~= bytes@);
    count
}

/// The full cost of a define line for `text` (see [`line_cost`]).
pub fn define_line_cost(text: &str) -> (res: i64)
    requires
        byte_len(text@) <= 4 * size_limit(),
    ensures
        res == line_cost(text@),
        res <= 11 + 2 * byte_len(text@),
{
    let newlines = count_newline_bytes(text);
    proof {
        encode_utf8(text@).lemma_filter_len(|b: u8| b == 10u8);
    }
    assert(text.spec_bytes() == encode_utf8(text@));
    let len = text.len();
    assert(len == byte_len(text@));
    11 + len as i64 + newlines as i64
}

/// How many characters are saved by replacing `count` uses of `text` with a
/// define (see [`savings`]).
pub fn define_savings(text: &str, count: usize) -> (res: i64)
    requires
        byte_len(text@) <= 4 * size_limit(),
        count <= size_limit(),
    ensures
        res == savings(text@, count as int),
{
    savings_of(text, count as i64)
}

fn savings_of(text: &str, count: i64) -> (res: i64)
    requires
        byte_len(text@) <= 4 * size_limit(),
        -size_limit() <= count <= size_limit(),
    ensures
        res == savings(text@, count as int),
        res <= (byte_len(text@) + 1) * size_limit(),
        res >= -(byte_len(text@) + 1) * size_limit() - 2 * byte_len(text@) - 11,
{
    assert(text.spec_bytes() == encode_utf8(text@));
    let len = text.len() as i64;
    assert(len == byte_len(text@));
    let cost = define_line_cost(text);
    proof {
        assert((len - 1) * count <= 4 * size_limit() * size_limit()) by (nonlinear_arith)
            requires
                0 <= len <= 4 * size_limit(),
                -size_limit() <= count <= size_limit(),
        ;
        assert((len - 1) * count >= -4 * size_limit() * size_limit() - size_limit()) by (nonlinear_arith)
            requires
                0 <= len <= 4 * size_limit(),
                -size_limit() <= count <= size_limit(),
        ;
        assert((len - 1) * count >= -(len + 1) * size_limit()) by (nonlinear_arith)
            requires
                0 <= len,
                -size_limit() <= count <= size_limit(),
        ;
        if count >= 0 {
            assert((len - 1) * count <= len * count) by (nonlinear_arith)
                requires
                    0 <= len,
                    0 <= count,
            ;
            assert(len * count <= (len + 1) * size_limit()) by (nonlinear_arith)
                requires
                    0 <= len,
                    0 <= count <= size_limit(),
            ;
        } else {
            assert((len - 1) * count <= (len + 1) * size_limit()) by (nonlinear_arith)
                requires
                    0 <= len,
                    -size_limit() <= count < 0,
            ;
        }
    }
    (len - 1) * count - cost
}

// ---------------------------------------------------------------------------
// Counting
// ---------------------------------------------------------------------------

/// The number of non-marker tokens with text `t`.
pub open spec fn text_count(b: Seq<TokenView>, t: Seq<char>) -> nat
    decreases b.len(),
{
    if b.len() == 0 {
        0
    } else {
        text_count(b.drop_last(), t) + if b.last().1 != TokenStyle::Marker && b.last().0 == Some(t) {
            1nat
        } else {
            0nat
        }
    }
}

/// Two adjacent non-marker tokens at `i` and `i + 1`.
pub open spec fn is_pair(b: Seq<TokenView>, i: int) -> bool {
    0 <= i && i + 1 < b.len() && b[i].1 != TokenStyle::Marker && b[i + 1].1 != TokenStyle::Marker
}

/// The pair at `i` has texts `l` and `r`.
pub open spec fn pair_is(b: Seq<TokenView>, i: int, l: Seq<char>, r: Seq<char>) -> bool {
    is_pair(b, i) && b[i].0 == Some(l) && b[i + 1].0 == Some(r)
}

/// The number of pairs with texts `l`, `r` starting before `k`.
pub open spec fn pair_count_upto(b: Seq<TokenView>, l: Seq<char>, r: Seq<char>, k: int) -> nat
    decreases k,
{
    if k <= 0 {
        0
    } else {
        pair_count_upto(b, l, r, k - 1) + if pair_is(b, k - 1, l, r) {
            1nat
        } else {
            0nat
        }
    }
}

/// The first pair with texts `l`, `r` starting before `k`.
pub open spec fn first_pair_upto(b: Seq<TokenView>, l: Seq<char>, r: Seq<char>, k: int) -> Option<int>
    decreases k,
{
    if k <= 0 {
        None
    } else {
        match first_pair_upto(b, l, r, k - 1) {
            Some(i) => Some(i),
            None => if pair_is(b, k - 1, l, r) {
                Some(k - 1)
            } else {
                None
            },
        }
    }
}

/// The text of the pair at `i` merged into one token.
pub open spec fn pair_text<I: TokenInfo + ?Sized>(info: &I, b: Seq<TokenView>, i: int) -> Seq<char> {
    b[i].0->0 + if info.spec_needs_space(b[i], b[i + 1]) {
        seq![' ']
    } else {
        Seq::empty()
    } + b[i + 1].0->0
}

/// What merging every pair like the one at `i` gains over defining its two
/// tokens separately; the merged text is that of the first such pair.
pub open spec fn pair_benefit<I: TokenInfo + ?Sized>(info: &I, b: Seq<TokenView>, i: int) -> int {
    let l = b[i].0->0;
    let r = b[i + 1].0->0;
    let lc = text_count(b, l) as int;
    let rc = text_count(b, r) as int;
    let pc = pair_count_upto(b, l, r, b.len() - 1) as int;
    let m = pair_text(info, b, first_pair_upto(b, l, r, b.len() - 1)->0);
    let before = max0(savings(l, lc)) + max0(savings(r, rc));
    let after = max0(savings(m, pc)) + max0(savings(l, lc - pc)) + max0(savings(r, rc - pc));
    after - before
}

/// Lexicographic order of texts by character codes (that of their UTF-8 bytes).
pub open spec fn text_less(a: Seq<char>, b: Seq<char>) -> bool
    decreases a.len(),
{
    if a.len() == 0 {
        b.len() > 0
    } else if b.len() == 0 {
        false
    } else if a[0] != b[0] {
        (a[0] as u32) < (b[0] as u32)
    } else {
        text_less(a.drop_first(), b.drop_first())
    }
}

/// Whether the pair at `i` ranks above the pair at `j`: by benefit, then
/// by left text, then by right text.
pub open spec fn pair_ranks_above<I: TokenInfo + ?Sized>(info: &I, b: Seq<TokenView>, i: int, j: int) -> bool {
    let bi = pair_benefit(info, b, i);
    let bj = pair_benefit(info, b, j);
    bi > bj || (bi == bj && (text_less(b[j].0->0, b[i].0->0) || (b[j].0->0 == b[i].0->0 && text_less(
        b[j + 1].0->0,
        b[i + 1].0->0,
    ))))
}

/// The best profitable pair starting before `k`, if any.
pub open spec fn best_pair_upto<I: TokenInfo + ?Sized>(info: &I, b: Seq<TokenView>, k: int) -> Option<int>
    decreases k,
{
    if k <= 0 {
        None
    } else {
        let p = best_pair_upto(info, b, k - 1);
        let i = k - 1;
        if is_pair(b, i) && pair_benefit(info, b, i) > 0 {
            match p {
                None => Some(i),
                Some(j) => if pair_ranks_above(info, b, i, j) {
                    Some(i)
                } else {
                    Some(j)
                },
            }
        } else {
            p
        }
    }
}

/// The texts of the most profitable pair to merge, if any.
pub open spec fn best_merge<I: TokenInfo + ?Sized>(info: &I, b: Seq<TokenView>) -> Option<(Seq<char>, Seq<char>)> {
    match best_pair_upto(info, b, b.len() - 1) {
        Some(i) => Some((b[i].0->0, b[i + 1].0->0)),
        None => None,
    }
}

/// Token counts and texts are small enough for exact costs.
pub open spec fn within_limits(b: Seq<TokenView>) -> bool {
    &&& b.len() <= size_limit()
    &&& forall|i: int| 0 <= i < b.len() ==> 4 * (#[trigger] b[i]).0->0.len() <= size_limit()
}

/// A character takes at most four bytes in UTF-8.
pub proof fn lemma_encode_len(t: Seq<char>)
    ensures
        byte_len(t) <= 4 * t.len(),
    decreases t.len(),
{
    if t.len() > 0 {
        lemma_encode_len(t.drop_first());
        assert(vstd::utf8::encode_scalar(t[0] as u32).len() <= 4);
    }
}

/// Merges the most profitable pair of texts, again and again, until no
/// merge is profitable.
pub open spec fn merge_rounds<I: TokenInfo + ?Sized>(info: &I, b: Seq<TokenView>) -> Seq<TokenView>
    decreases b.len(),
{
    if !within_limits(b) {
        b
    } else {
        match best_merge(info, b) {
            None => b,
            Some((l, r)) => {
                let nb = merged_prefix(info, b, Some((l, r)), b.len());
                if nb.len() < b.len() {
                    merge_rounds(info, nb)
                } else {
                    nb
                }
            },
        }
    }
}

// ---------------------------------------------------------------------------
// Merging pairs: executable side
// ---------------------------------------------------------------------------

/// UTF-8 encoding distributes over concatenation.
pub proof fn lemma_encode_concat(a: Seq<char>, b: Seq<char>)
    ensures
        encode_utf8(a + b) == encode_utf8(a) + encode_utf8(b),
    decreases a.len(),
{
    if a.len() == 0 {
        assert(a + b =~= b);
        assert(encode_utf8(a) =~= Seq::<u8>::empty());
        assert(encode_utf8(a) + encode_utf8(b) =~= encode_utf8(b));
    } else {
        assert((a + b).drop_first() =~= a.drop_first() + b);
        assert((a + b)[0] == a[0]);
        lemma_encode_concat(a.drop_first(), b);
        assert(encode_utf8(a + b) =~= encode_utf8(a) + encode_utf8(b));
    }
}

fn text_count_exec(b: &Tokens, t: &String) -> (res: usize)
    ensures
        res == text_count(token_views(b@), t@),
        res <= b@.len(),
{
    let ghost bv = token_views(b@);
    let n = b.len();
    let mut count: usize = 0;
    let mut i: usize = 0;
    assert(bv.take(0) =~= Seq::<TokenView>::empty());
    while i < n
        invariant
            n == b@.len(),
            bv == token_views(b@),
            i <= n,
            count <= i,
            count == text_count(bv.take(i as int), t@),
        decreases n - i,
    {
        assert(bv.take(i as int + 1).drop_last() =~= bv.take(i as int));
        assert(bv.take(i as int + 1).last() == b@[i as int]@);
        let tok = b.get(i);
        if tok.style != TokenStyle::Marker {
            match &tok.text {
                Some(x) => if x.eq(t) {
                    count = count + 1;
                },
                None => {},
            }
        }
        i = i + 1;
    }
    assert(bv.take(n as int) =~= bv);
    count
}

fn is_pair_exec(b: &Tokens, i: usize) -> (res: bool)
    requires
        i + 1 < b@.len(),
    ensures
        res == is_pair(token_views(b@), i as int),
{
    let _n = b.len();
    b.get(i).style != TokenStyle::Marker && b.get(i + 1).style != TokenStyle::Marker
}

fn pair_is_exec(b: &Tokens, i: usize, l: &String, r: &String) -> (res: bool)
    requires
        i + 1 < b@.len(),
    ensures
        res == pair_is(token_views(b@), i as int, l@, r@),
{
    let _n = b.len();
    if !is_pair_exec(b, i) {
        return false;
    }
    let left = match &b.get(i).text {
        Some(x) => x.eq(l),
        None => false,
    };
    let right = match &b.get(i + 1).text {
        Some(x) => x.eq(r),
        None => false,
    };
    left && right
}

fn pair_stats(b: &Tokens, l: &String, r: &String) -> (res: (usize, Option<usize>))
    ensures
        res.0 == pair_count_upto(token_views(b@), l@, r@, b@.len() - 1),
        res.0 <= b@.len(),
        match first_pair_upto(token_views(b@), l@, r@, b@.len() - 1) {
            Some(k) => res.1 == Some(k as usize) && 0 <= k < b@.len() - 1,
            None => res.1 is None,
        },
{
    let ghost bv = token_views(b@);
    let n = b.len();
    if n == 0 {
        return (0, None);
    }
    let mut count: usize = 0;
    let mut first: Option<usize> = None;
    let mut i: usize = 0;
    while i < n - 1
        invariant
            n == b@.len(),
            n >= 1,
            bv == token_views(b@),
            i <= n - 1,
            count <= i,
            count == pair_count_upto(bv, l@, r@, i as int),
            match first_pair_upto(bv, l@, r@, i as int) {
                Some(k) => first == Some(k as usize) && 0 <= k < i,
                None => first is None,
            },
        decreases n - 1 - i,
    {
        if pair_is_exec(b, i, l, r) {
            count = count + 1;
            if first.is_none() {
                first = Some(i);
            }
        }
        i = i + 1;
    }
    (count, first)
}

fn text_less_exec(a: &String, b: &String) -> (res: bool)
    ensures
        res == text_less(a@, b@),
{
    let x = a.as_str();
    let y = b.as_str();
    let n = x.unicode_len();
    let m = y.unicode_len();
    let mut i: usize = 0;
    assert(a@.skip(0) =~= a@);
    assert(b@.skip(0) =~= b@);
    while i < n && i < m
        invariant
            n == a@.len(),
            m == b@.len(),
            x@ == a@,
            y@ == b@,
            i <= n,
            i <= m,
            text_less(a@, b@) == text_less(a@.skip(i as int), b@.skip(i as int)),
        decreases n - i,
    {
        let c = x.get_char(i);
        let d = y.get_char(i);
        assert(a@.skip(i as int)[0] == c);
        assert(b@.skip(i as int)[0] == d);
        if c != d {
            return (c as u32) < (d as u32);
        }
        assert(a@.skip(i as int).drop_first() =~= a@.skip(i as int + 1));
        assert(b@.skip(i as int).drop_first() =~= b@.skip(i as int + 1));
        i = i + 1;
    }
    i == n && i < m
}

fn pair_text_exec<I: TokenInfo>(info: &I, b: &Tokens, i: usize) -> (res: String)
    requires
        i + 1 < b@.len(),
        all_have_text(token_views(b@)),
    ensures
        res@ == pair_text(info, token_views(b@), i as int),
{
    let ghost bv = token_views(b@);
    let _n = b.len();
    let left = b.get(i);
    let right = b.get(i + 1);
    assert(bv[i as int] == left@ && bv[i + 1] == right@);
    assert(left.text is Some && right.text is Some);
    let mut out = String::new();
    match &left.text {
        Some(x) => out.append(x.as_str()),
        None => {},
    }
    if info.needs_space_between(left, right) {
        push_char(&mut out, ' ');
    }
    match &right.text {
        Some(x) => out.append(x.as_str()),
        None => {},
    }
    out
}

fn pair_benefit_exec<I: TokenInfo>(info: &I, b: &Tokens, i: usize) -> (res: i64)
    requires
        i + 1 < b@.len(),
        is_pair(token_views(b@), i as int),
        all_have_text(token_views(b@)),
        within_limits(token_views(b@)),
    ensures
        res == pair_benefit(info, token_views(b@), i as int),
{
    let ghost bv = token_views(b@);
    let _n = b.len();
    let left = b.get(i);
    let right = b.get(i + 1);
    assert(bv[i as int] == left@ && bv[i + 1] == right@);
    let l = match &left.text {
        Some(x) => x.clone(),
        None => String::new(),
    };
    let r = match &right.text {
        Some(x) => x.clone(),
        None => String::new(),
    };
    let lc = text_count_exec(b, &l);
    let rc = text_count_exec(b, &r);
    let (pc, first) = pair_stats(b, &l, &r);
    assert(pair_is(bv, i as int, l@, r@));
    proof {
        lemma_first_pair_found(bv, l@, r@, i as int, bv.len() - 1);
    }
    let k = match first {
        Some(k) => k,
        None => 0,
    };
    let m = pair_text_exec(info, b, k);
    proof {
        lemma_encode_concat(bv[k as int].0->0, seq![' ']);
        lemma_encode_concat(bv[k as int].0->0, Seq::<char>::empty());
        lemma_encode_concat(bv[k as int].0->0 + seq![' '], bv[k + 1].0->0);
        lemma_encode_concat(bv[k as int].0->0 + Seq::<char>::empty(), bv[k + 1].0->0);
        assert(seq![' '].drop_first() =~= Seq::<char>::empty());
        assert(encode_utf8(seq![' ']).len() <= 4);
        assert(bv[k as int] == b@[k as int]@);
        assert(bv[k + 1] == b@[k + 1]@);
    }
    proof {
        lemma_encode_len(l@);
        lemma_encode_len(r@);
        assert(4 * l@.len() <= size_limit());
        assert(4 * r@.len() <= size_limit());
        let kl = bv[k as int].0->0;
        let kr = bv[k + 1].0->0;
        assert(4 * kl.len() <= size_limit());
        assert(4 * kr.len() <= size_limit());
        lemma_encode_len(kl);
        lemma_encode_len(kr);
        assert(byte_len(m@) <= 2 * size_limit() + 4);
    }
    let s1 = capped_savings(l.as_str(), lc as i64);
    let s2 = capped_savings(r.as_str(), rc as i64);
    let s3 = capped_savings(m.as_str(), pc as i64);
    let s4 = capped_savings(l.as_str(), lc as i64 - pc as i64);
    let s5 = capped_savings(r.as_str(), rc as i64 - pc as i64);
    proof {
        lemma_cap_bound(byte_len(l@), size_limit(), s1 as int);
        lemma_cap_bound(byte_len(r@), size_limit(), s2 as int);
        lemma_cap_bound(byte_len(l@), size_limit(), s4 as int);
        lemma_cap_bound(byte_len(r@), size_limit(), s5 as int);
        lemma_cap_bound(byte_len(m@), 2 * size_limit() + 4, s3 as int);
    }
    let before = s1 + s2;
    let after = s3 + s4 + s5;
    after - before
}

proof fn lemma_first_pair_found(b: Seq<TokenView>, l: Seq<char>, r: Seq<char>, i: int, k: int)
    requires
        pair_is(b, i, l, r),
        0 <= i < k,
    ensures
        first_pair_upto(b, l, r, k) is Some,
        first_pair_upto(b, l, r, k)->0 <= i,
        pair_is(b, first_pair_upto(b, l, r, k)->0, l, r),
    decreases k,
{
    if k - 1 > i {
        lemma_first_pair_found(b, l, r, i, k - 1);
    } else {
        lemma_first_pair_is_pair(b, l, r, k - 1);
    }
}

proof fn lemma_first_pair_is_pair(b: Seq<TokenView>, l: Seq<char>, r: Seq<char>, k: int)
    ensures
        first_pair_upto(b, l, r, k) is Some ==> pair_is(b, first_pair_upto(b, l, r, k)->0, l, r)
            && first_pair_upto(b, l, r, k)->0 < k,
    decreases k,
{
    if k > 0 {
        lemma_first_pair_is_pair(b, l, r, k - 1);
    }
}

fn capped_savings(text: &str, count: i64) -> (res: i64)
    requires
        byte_len(text@) <= 4 * size_limit(),
        -size_limit() <= count <= size_limit(),
    ensures
        res == max0(savings(text@, count as int)),
        0 <= res <= (byte_len(text@) + 1) * size_limit(),
{
    let x = savings_of(text, count);
    if x > 0 {
        x
    } else {
        0
    }
}

proof fn lemma_cap_bound(len: int, bound: int, x: int)
    requires
        0 <= len <= bound,
        0 <= x <= (len + 1) * size_limit(),
    ensures
        x <= (bound + 1) * size_limit(),
{
    assert((len + 1) * size_limit() <= (bound + 1) * size_limit()) by (nonlinear_arith)
        requires
            0 <= len <= bound,
    ;
}

fn check_limits(b: &Tokens) -> (res: bool)
    requires
        all_have_text(token_views(b@)),
    ensures
        res == within_limits(token_views(b@)),
{
    let ghost bv = token_views(b@);
    let n = b.len();
    if n > 0x1000_0000 {
        return false;
    }
    let mut i: usize = 0;
    while i < n
        invariant
            n == b@.len(),
            bv == token_views(b@),
            all_have_text(bv),
            i <= n,
            forall|j: int| 0 <= j < i ==> 4 * (#[trigger] bv[j]).0->0.len() <= size_limit(),
        decreases n - i,
    {
        let tok = b.get(i);
        assert(bv[i as int] == tok@);
        match &tok.text {
            Some(x) => {
                let chars = x.as_str().unicode_len();
                if chars > 0x0400_0000 {
                    return false;
                }
                assert(bv[i as int].0->0 == x@);
            },
            None => {
                assert(bv[i as int].0 is Some);
            },
        }
        i = i + 1;
    }
    true
}

fn text_of(t: &Token) -> (res: &String)
    requires
        t.text is Some,
    ensures
        Some(*res) == t.text,
{
    match &t.text {
        Some(x) => x,
        None => {
            assert(false);
            t.text.as_ref().unwrap()
        },
    }
}

fn best_merge_exec<I: TokenInfo>(info: &I, b: &Tokens) -> (res: Option<(String, String)>)
    requires
        all_have_text(token_views(b@)),
        within_limits(token_views(b@)),
    ensures
        match best_merge(info, token_views(b@)) {
            Some((l, r)) => match res {
                Some((a, c)) => a@ == l && c@ == r,
                None => false,
            },
            None => res is None,
        },
{
    let ghost bv = token_views(b@);
    let n = b.len();
    if n == 0 {
        return None;
    }
    let mut best: Option<usize> = None;
    let mut best_benefit: i64 = 0;
    let mut i: usize = 0;
    while i < n - 1
        invariant
            n == b@.len(),
            n >= 1,
            bv == token_views(b@),
            all_have_text(bv),
            within_limits(bv),
            i <= n - 1,
            best == match best_pair_upto(info, bv, i as int) {
                Some(k) => Some(k as usize),
                None => None::<usize>,
            },
            match best_pair_upto(info, bv, i as int) {
                Some(k) => 0 <= k < i && k + 1 < n && best_benefit == pair_benefit(info, bv, k),
                None => true,
            },
        decreases n - 1 - i,
    {
        if is_pair_exec(b, i) {
            let bi = pair_benefit_exec(info, b, i);
            if bi > 0 {
                match best {
                    None => {
                        best = Some(i);
                        best_benefit = bi;
                    },
                    Some(j) => {
                        let ti = text_of(b.get(i));
                        let tj = text_of(b.get(j));
                        let ui = text_of(b.get(i + 1));
                        let uj = text_of(b.get(j + 1));
                        assert(bv[i as int] == b@[i as int]@ && bv[j as int] == b@[j as int]@);
                        assert(bv[i + 1] == b@[i + 1]@ && bv[j + 1] == b@[j + 1]@);
                        let above = bi > best_benefit || (bi == best_benefit && (text_less_exec(tj, ti) || (
                        tj.eq(ti) && text_less_exec(uj, ui))));
                        if above {
                            best = Some(i);
                            best_benefit = bi;
                        }
                    },
                }
            }
        }
        i = i + 1;
    }
    match best {
        Some(k) => {
            let l = text_of(b.get(k)).clone();
            let r = text_of(b.get(k + 1)).clone();
            assert(bv[k as int] == b@[k as int]@ && bv[k + 1] == b@[k + 1]@);
            Some((l, r))
        },
        None => None,
    }
}

/// Merges the most profitable pair of adjacent texts into single tokens,
/// again and again, while a merge still pays (see [`merge_rounds`]).
pub fn merge_pairs<I: TokenInfo>(info: &I, body: &mut Tokens)
    requires
        all_have_text(token_views(old(body)@)),
    ensures
        token_views(final(body)@) == merge_rounds(info, token_views(old(body)@)),
        all_have_text(token_views(final(body)@)),
{
    let ghost orig = token_views(body@);
    loop
        invariant_except_break
            all_have_text(token_views(body@)),
            merge_rounds(info, orig) == merge_rounds(info, token_views(body@)),
        ensures
            all_have_text(token_views(body@)),
            token_views(body@) == merge_rounds(info, orig),
        decreases body@.len(),
    {
        let ghost cur = token_views(body@);
        if !check_limits(body) {
            break;
        }
        match best_merge_exec(info, body) {
            None => {
                break;
            },
            Some((l, r)) => {
                let before = body.len();
                merge_tokens(info, body, Some((&l, &r)));
                proof {
                    lemma_merged_prefix_props(info, cur, Some((l@, r@)), cur.len());
                }
                if body.len() >= before {
                    break;
                }
            },
        }
    }
}

// ---------------------------------------------------------------------------
// Defines: specification
// ---------------------------------------------------------------------------

/// What a define name looks like to the spacing rules.
pub open spec fn name_probe() -> TokenView {
    req("a"@)
}

/// The spaces that writing a name in place of the middle token of the
/// window at `i` (tokens `i`, `i + 1`, `i + 2`) would add.
pub open spec fn window_spaces<I: TokenInfo + ?Sized>(info: &I, b: Seq<TokenView>, i: int) -> int {
    (if info.spec_needs_space(b[i], name_probe()) && !info.spec_needs_space(b[i], b[i + 1]) {
        1int
    } else {
        0int
    }) + (if info.spec_needs_space(name_probe(), b[i + 2]) && !info.spec_needs_space(b[i + 1], b[i + 2]) {
        1int
    } else {
        0int
    })
}

/// The spaces added by defining `t`, over the windows starting before `k`
/// whose middle token has text `t`.
pub open spec fn spaces_added<I: TokenInfo + ?Sized>(info: &I, b: Seq<TokenView>, t: Seq<char>, k: int) -> int
    decreases k,
{
    if k <= 0 {
        0
    } else {
        spaces_added(info, b, t, k - 1) + if b[k].0 == Some(t) {
            window_spaces(info, b, k - 1)
        } else {
            0
        }
    }
}

/// What defining `t` saves: by its number of uses when defines were first
/// counted (in `b0`), less the spaces it would add to the current body `b`.
pub open spec fn define_score<I: TokenInfo + ?Sized>(
    info: &I,
    b0: Seq<TokenView>,
    b: Seq<TokenView>,
    t: Seq<char>,
) -> int {
    savings(t, text_count(b0, t) as int) - spaces_added(info, b, t, b.len() - 2)
}

/// The text of the token at `i` of `b0` is a candidate for a define.
pub open spec fn define_candidate(b0: Seq<TokenView>, removed: Seq<Seq<char>>, i: int) -> bool {
    b0[i].1 != TokenStyle::Marker && !removed.contains(b0[i].0->0)
}

/// The position in `b0`, before `k`, of the best text to define: the
/// highest positive score, then the greatest text.
pub open spec fn best_define_upto<I: TokenInfo + ?Sized>(
    info: &I,
    b0: Seq<TokenView>,
    b: Seq<TokenView>,
    removed: Seq<Seq<char>>,
    k: int,
) -> Option<int>
    decreases k,
{
    if k <= 0 {
        None
    } else {
        let p = best_define_upto(info, b0, b, removed, k - 1);
        let i = k - 1;
        let t = b0[i].0->0;
        if define_candidate(b0, removed, i) && define_score(info, b0, b, t) > 0 {
            match p {
                None => Some(i),
                Some(j) => {
                    let sj = define_score(info, b0, b, b0[j].0->0);
                    let si = define_score(info, b0, b, t);
                    if si > sj || (si == sj && text_less(b0[j].0->0, t)) {
                        Some(i)
                    } else {
                        Some(j)
                    }
                },
            }
        } else {
            p
        }
    }
}

/// The first number from `from` on whose name is none of the used texts,
/// looking at most `fuel` names ahead.
pub open spec fn first_unused(used: Seq<Seq<char>>, from: nat, fuel: nat) -> nat
    decreases fuel,
{
    if fuel == 0 || !used.contains(spec_name_of(from)) {
        from
    } else {
        first_unused(used, from + 1, (fuel - 1) as nat)
    }
}

/// Replaces the text `t` of every non-marker token by `name`.
pub open spec fn replace_text(b: Seq<TokenView>, t: Seq<char>, name: Seq<char>) -> Seq<TokenView> {
    b.map_values(
        |x: TokenView|
            if x.1 != TokenStyle::Marker && x.0 == Some(t) {
                (Some(name), x.1)
            } else {
                x
            },
    )
}

/// The state of assigning defines: the body, the texts defined so far,
/// the next name number, and the defines as (text, name) in order.
pub struct DefineState {
    pub body: Seq<TokenView>,
    pub removed: Seq<Seq<char>>,
    pub name_num: nat,
    pub defines: Seq<(Seq<char>, Seq<char>)>,
}

/// Defines the best text, round after round, until none pays (at most
/// `fuel` rounds; a text can only be defined once).
pub open spec fn define_rounds<I: TokenInfo + ?Sized>(
    info: &I,
    b0: Seq<TokenView>,
    used: Seq<Seq<char>>,
    st: DefineState,
    fuel: nat,
) -> DefineState
    decreases fuel,
{
    if fuel == 0 || st.name_num + used.len() + 2 >= usize::MAX {
        st
    } else {
        match best_define_upto(info, b0, st.body, st.removed, b0.len() as int) {
            None => st,
            Some(i) => {
                let t = b0[i].0->0;
                let n = first_unused(used, st.name_num, (used.len() + 1) as nat);
                let name = spec_name_of(n);
                define_rounds(
                    info,
                    b0,
                    used,
                    DefineState {
                        body: replace_text(st.body, t, name),
                        removed: st.removed.push(t),
                        name_num: n + 1,
                        defines: st.defines.push((t, name)),
                    },
                    (fuel - 1) as nat,
                )
            },
        }
    }
}

/// A text with every line break preceded by a backslash.
pub open spec fn escape_newlines(t: Seq<char>) -> Seq<char>
    decreases t.len(),
{
    if t.len() == 0 {
        Seq::empty()
    } else {
        escape_newlines(t.drop_last()) + if t.last() == '\n' {
            seq!['\\', '\n']
        } else {
            seq![t.last()]
        }
    }
}

/// The define line for a text and its name.
pub open spec fn define_line(d: (Seq<char>, Seq<char>)) -> TokenView {
    req("#define "@ + d.1 + seq![' '] + escape_newlines(d.0) + seq!['\n'])
}

/// The define lines, the last define first.
pub open spec fn define_lines(ds: Seq<(Seq<char>, Seq<char>)>) -> Seq<TokenView>
    decreases ds.len(),
{
    if ds.len() == 0 {
        Seq::empty()
    } else {
        seq![define_line(ds.last())] + define_lines(ds.drop_last())
    }
}

/// The texts of the tokens that have one.
pub open spec fn texts_of(b: Seq<TokenView>) -> Seq<Seq<char>>
    decreases b.len(),
{
    if b.len() == 0 {
        Seq::empty()
    } else {
        match b.last().0 {
            Some(t) => texts_of(b.drop_last()).push(t),
            None => texts_of(b.drop_last()),
        }
    }
}

/// What compression does to a header and a body: merge pairs in the body,
/// then define the texts that pay, with names that no text of the given
/// header or body spells, appending the define lines to the header.
pub open spec fn compressed<I: TokenInfo + ?Sized>(
    info: &I,
    header: Seq<TokenView>,
    body: Seq<TokenView>,
) -> (Seq<TokenView>, Seq<TokenView>) {
    let used = texts_of(header + body);
    if body.len() <= 1 {
        (header, body)
    } else {
        let b0 = merge_rounds(info, body);
        if !within_limits(b0) {
            (header, b0)
        } else {
            let st = define_rounds(
                info,
                b0,
                used,
                DefineState { body: b0, removed: Seq::empty(), name_num: 0, defines: Seq::empty() },
                (b0.len() + 1) as nat,
            );
            (header + define_lines(st.defines), st.body)
        }
    }
}

// ---------------------------------------------------------------------------
// Defines: executable side
// ---------------------------------------------------------------------------

/// The views of strings.
pub open spec fn string_views(v: Seq<String>) -> Seq<Seq<char>> {
    v.map_values(|x: String| x@)
}

pub(crate) proof fn lemma_used_views(used: Seq<String>, name: Seq<char>)
    ensures
        name_is_used(used, name) == string_views(used).contains(name),
{
    if name_is_used(used, name) {
        let j = choose|j: int| 0 <= j < used.len() && (#[trigger] used[j])@ == name;
        assert(string_views(used)[j] == name);
    }
    if string_views(used).contains(name) {
        let j = choose|j: int| 0 <= j < string_views(used).len() && string_views(used)[j] == name;
        assert(used[j]@ == name);
    }
}

pub(crate) proof fn lemma_first_unused(used: Seq<String>, from: nat, fuel: nat, fin: nat)
    requires
        from < fin <= from + fuel + 1,
        !name_is_used(used, spec_name_of((fin - 1) as nat)),
        forall|m: int| from <= m < fin - 1 ==> name_is_used(used, #[trigger] spec_name_of(m as nat)),
    ensures
        first_unused(string_views(used), from, fuel) == fin - 1,
    decreases fuel,
{
    lemma_used_views(used, spec_name_of(from));
    if from < fin - 1 {
        let m: int = from as int;
        assert(from <= m < fin - 1);
        assert(name_is_used(used, spec_name_of(m as nat)));
        lemma_first_unused(used, from + 1, (fuel - 1) as nat, fin);
    }
}

fn push_texts(out: &mut Vec<String>, t: &Tokens)
    ensures
        string_views(final(out)@) == string_views(old(out)@) + texts_of(token_views(t@)),
{
    let ghost tv = token_views(t@);
    let ghost start = string_views(out@);
    let n = t.len();
    let mut i: usize = 0;
    assert(tv.take(0) =~= Seq::<TokenView>::empty());
    assert(string_views(out@) =~= start + texts_of(tv.take(0)));
    while i < n
        invariant
            n == t@.len(),
            tv == token_views(t@),
            i <= n,
            string_views(out@) == start + texts_of(tv.take(i as int)),
        decreases n - i,
    {
        let tok = t.get(i);
        assert(tv.take(i as int + 1).drop_last() =~= tv.take(i as int));
        assert(tv.take(i as int + 1).last() == tok@);
        match &tok.text {
            Some(x) => {
                let ghost before = out@;
                out.push(x.clone());
                assert(string_views(out@) =~= string_views(before).push(x@));
                assert(string_views(out@) =~= start + texts_of(tv.take(i as int + 1)));
            },
            None => {},
        }
        i = i + 1;
    }
    assert(tv.take(n as int) =~= tv);
}

proof fn lemma_texts_of_concat(a: Seq<TokenView>, b: Seq<TokenView>)
    ensures
        texts_of(a + b) == texts_of(a) + texts_of(b),
    decreases b.len(),
{
    if b.len() == 0 {
        assert(a + b =~= a);
        assert(texts_of(a) + texts_of(b) =~= texts_of(a));
    } else {
        assert((a + b).drop_last() =~= a + b.drop_last());
        lemma_texts_of_concat(a, b.drop_last());
        assert((a + b).last() == b.last());
        match b.last().0 {
            Some(t) => assert(texts_of(a) + texts_of(b) =~= (texts_of(a) + texts_of(b.drop_last())).push(t)),
            None => {},
        }
    }
}

fn texts_vec(header: &Tokens, body: &Tokens) -> (res: Vec<String>)
    ensures
        string_views(res@) == texts_of(token_views(header@) + token_views(body@)),
{
    let mut out: Vec<String> = Vec::new();
    assert(string_views(out@) =~= Seq::<Seq<char>>::empty());
    push_texts(&mut out, header);
    push_texts(&mut out, body);
    proof {
        lemma_texts_of_concat(token_views(header@), token_views(body@));
        assert(string_views(out@) =~= texts_of(token_views(header@) + token_views(body@)));
    }
    out
}

fn contains_text(v: &Vec<String>, t: &String) -> (res: bool)
    ensures
        res == string_views(v@).contains(t@),
{
    let mut j: usize = 0;
    while j < v.len()
        invariant
            j <= v@.len(),
            forall|k: int| 0 <= k < j ==> v@[k]@ != t@,
        decreases v@.len() - j,
    {
        if v[j].eq(t) {
            assert(string_views(v@)[j as int] == t@);
            return true;
        }
        j = j + 1;
    }
    proof {
        if string_views(v@).contains(t@) {
            let k = choose|k: int| 0 <= k < string_views(v@).len() && string_views(v@)[k] == t@;
            assert(v@[k]@ == t@);
        }
    }
    false
}

fn spaces_exec<I: TokenInfo>(info: &I, b: &Tokens, t: &String) -> (res: i64)
    requires
        b@.len() <= size_limit(),
    ensures
        res == spaces_added(info, token_views(b@), t@, b@.len() - 2),
        0 <= res <= 2 * b@.len(),
{
    let ghost bv = token_views(b@);
    let n = b.len();
    if n < 3 {
        return 0;
    }
    let probe = Token::new("a".to_owned());
    let mut total: i64 = 0;
    let mut i: usize = 0;
    while i < n - 2
        invariant
            n == b@.len(),
            n >= 3,
            n <= size_limit(),
            bv == token_views(b@),
            probe@ == name_probe(),
            i <= n - 2,
            total == spaces_added(info, bv, t@, i as int),
            0 <= total <= 2 * i,
        decreases n - 2 - i,
    {
        let left = b.get(i);
        let middle = b.get(i + 1);
        let right = b.get(i + 2);
        assert(bv[i as int] == left@ && bv[i + 1] == middle@ && bv[i + 2] == right@);
        let matches = match &middle.text {
            Some(x) => x.eq(t),
            None => false,
        };
        if matches {
            let mut w: i64 = 0;
            if info.needs_space_between(left, &probe) && !info.needs_space_between(left, middle) {
                w = w + 1;
            }
            if info.needs_space_between(&probe, right) && !info.needs_space_between(middle, right) {
                w = w + 1;
            }
            total = total + w;
        }
        i = i + 1;
    }
    total
}

fn best_define_exec<I: TokenInfo>(info: &I, b0: &Tokens, b: &Tokens, removed: &Vec<String>) -> (res: Option<usize>)
    requires
        all_have_text(token_views(b0@)),
        within_limits(token_views(b0@)),
        b@.len() == b0@.len(),
    ensures
        match best_define_upto(info, token_views(b0@), token_views(b@), string_views(removed@), b0@.len() as int) {
            Some(k) => res == Some(k as usize) && 0 <= k < b0@.len(),
            None => res is None,
        },
{
    let ghost v0 = token_views(b0@);
    let ghost bv = token_views(b@);
    let ghost rv = string_views(removed@);
    let n = b0.len();
    let mut best: Option<usize> = None;
    let mut best_score: i64 = 0;
    let mut i: usize = 0;
    while i < n
        invariant
            n == b0@.len(),
            n == b@.len(),
            v0 == token_views(b0@),
            bv == token_views(b@),
            rv == string_views(removed@),
            all_have_text(v0),
            within_limits(v0),
            i <= n,
            match best_define_upto(info, v0, bv, rv, i as int) {
                Some(k) => best == Some(k as usize) && 0 <= k < i && best_score == define_score(
                    info,
                    v0,
                    bv,
                    v0[k].0->0,
                ),
                None => best is None,
            },
        decreases n - i,
    {
        let tok = b0.get(i);
        assert(v0[i as int] == tok@);
        if tok.style != TokenStyle::Marker {
            let t = text_of(tok);
            if !contains_text(removed, t) {
                let count = text_count_exec(b0, t);
                proof {
                    lemma_encode_len(t@);
                }
                let sav = savings_of(t.as_str(), count as i64);
                let sp = spaces_exec(info, b, t);
                proof {
                    assert(sav <= (byte_len(t@) + 1) * size_limit());
                    assert((byte_len(t@) + 1) * size_limit() <= (size_limit() + 1) * size_limit()) by (nonlinear_arith)
                        requires
                            byte_len(t@) <= size_limit(),
                    ;
                    assert((byte_len(t@) + 1) * size_limit() <= (size_limit() + 1) * size_limit());
                }
                let score = sav - sp;
                if score > 0 {
                    match best {
                        None => {
                            best = Some(i);
                            best_score = score;
                        },
                        Some(j) => {
                            let tj = text_of(b0.get(j));
                            assert(v0[j as int] == b0@[j as int]@);
                            if score > best_score || (score == best_score && text_less_exec(tj, t)) {
                                best = Some(i);
                                best_score = score;
                            }
                        },
                    }
                }
            }
        }
        i = i + 1;
    }
    best
}

fn replace_text_exec(b: &mut Tokens, t: &String, name: &String)
    ensures
        token_views(final(b)@) == replace_text(token_views(old(b)@), t@, name@),
        final(b)@.len() == old(b)@.len(),
{
    let ghost orig = token_views(b@);
    let n = b.len();
    let mut i: usize = 0;
    while i < n
        invariant
            n == b@.len(),
            orig.len() == n,
            i <= n,
            forall|j: int| 0 <= j < i ==> #[trigger] token_views(b@)[j] == replace_text(orig, t@, name@)[j],
            forall|j: int| i <= j < n ==> #[trigger] token_views(b@)[j] == orig[j],
        decreases n - i,
    {
        let tok = b.get(i);
        assert(token_views(b@)[i as int] == tok@);
        let hit = tok.style != TokenStyle::Marker && match &tok.text {
            Some(x) => x.eq(t),
            None => false,
        };
        let ghost before = token_views(b@);
        assert(replace_text(orig, t@, name@)[i as int] == (if orig[i as int].1 != TokenStyle::Marker
            && orig[i as int].0 == Some(t@) {
            (Some(name@), orig[i as int].1)
        } else {
            orig[i as int]
        }));
        if hit {
            let style = tok.style;
            b.set(i, Token { text: Some(name.clone()), style });
            assert(token_views(b@) =~= before.update(i as int, (Some(name@), style)));
        }
        i = i + 1;
    }
    assert(token_views(b@) =~= replace_text(orig, t@, name@));
}

fn escape_newlines_exec(t: &String) -> (res: String)
    ensures
        res@ == escape_newlines(t@),
{
    let s = t.as_str();
    let n = s.unicode_len();
    let mut out = String::new();
    let mut i: usize = 0;
    assert(t@.take(0) =~= Seq::<char>::empty());
    while i < n
        invariant
            n == t@.len(),
            s@ == t@,
            i <= n,
            out@ == escape_newlines(t@.take(i as int)),
        decreases n - i,
    {
        let c = s.get_char(i);
        assert(t@.take(i as int + 1).drop_last() =~= t@.take(i as int));
        assert(t@.take(i as int + 1).last() == c);
        if c == '\n' {
            push_char(&mut out, '\\');
            push_char(&mut out, '\n');
        } else {
            push_char(&mut out, c);
        }
        i = i + 1;
        assert(out@ =~= escape_newlines(t@.take(i as int)));
    }
    assert(t@.take(n as int) =~= t@);
    out
}

fn push_define_lines(header: &mut Tokens, defines: &Vec<(String, String)>)
    ensures
        token_views(final(header)@) == token_views(old(header)@) + define_lines(
            defines@.map_values(|d: (String, String)| (d.0@, d.1@)),
        ),
{
    let ghost ds = defines@.map_values(|d: (String, String)| (d.0@, d.1@));
    let ghost start = token_views(header@);
    let n = defines.len();
    let mut k: usize = n;
    assert(ds.take(n as int) =~= ds);
    while k > 0
        invariant
            n == defines@.len(),
            ds == defines@.map_values(|d: (String, String)| (d.0@, d.1@)),
            k <= n,
            token_views(header@) + define_lines(ds.take(k as int)) == start + define_lines(ds),
        decreases k,
    {
        let (text, name) = &defines[k - 1];
        assert(ds[k - 1] == (text@, name@));
        let mut line = "#define ".to_owned();
        line.append(name.as_str());
        push_char(&mut line, ' ');
        let escaped = escape_newlines_exec(text);
        line.append(escaped.as_str());
        push_char(&mut line, '\n');
        assert(line@ =~= "#define "@ + name@ + seq![' '] + escaped@ + seq!['\n']);
        let ghost before = token_views(header@);
        push_token(header, Token::new(line));
        proof {
            assert(token_views(header@) == before.push(define_line(ds[k - 1])));
            assert(ds.take(k as int).drop_last() =~= ds.take(k - 1));
            assert(ds.take(k as int).last() == ds[k - 1]);
            assert(define_lines(ds.take(k as int)) == seq![define_line(ds[k - 1])] + define_lines(
                ds.take(k - 1),
            ));
            assert(token_views(header@) + define_lines(ds.take(k - 1)) =~= before + define_lines(
                ds.take(k as int),
            ));
        }
        k = k - 1;
    }
    assert(ds.take(0) =~= Seq::<(Seq<char>, Seq<char>)>::empty());
    assert(token_views(header@) + define_lines(ds.take(0)) =~= token_views(header@));
}

fn copy_tokens(b: &Tokens) -> (res: Tokens)
    ensures
        res@ == b@,
{
    let mut out = Tokens::new();
    out.extend_from(b);
    assert(out@ =~= b@);
    out
}

/// The state of the define rounds as the specification sees it.
spec fn state_of(
    body: Seq<TokenView>,
    removed: Seq<String>,
    name_num: usize,
    defines: Seq<(String, String)>,
) -> DefineState {
    DefineState {
        body,
        removed: string_views(removed),
        name_num: name_num as nat,
        defines: defines.map_values(|d: (String, String)| (d.0@, d.1@)),
    }
}

fn assign_defines<I: TokenInfo>(info: &I, header: &mut Tokens, body: &mut Tokens, used: &Vec<String>)
    requires
        all_have_text(token_views(old(body)@)),
        within_limits(token_views(old(body)@)),
    ensures
        ({
            let b0 = token_views(old(body)@);
            let st = define_rounds(
                info,
                b0,
                string_views(used@),
                DefineState { body: b0, removed: Seq::empty(), name_num: 0, defines: Seq::empty() },
                (b0.len() + 1) as nat,
            );
            &&& token_views(final(body)@) == st.body
            &&& token_views(final(header)@) == token_views(old(header)@) + define_lines(st.defines)
        }),
{
    let ghost b0v = token_views(body@);
    let ghost uv = string_views(used@);
    let b0 = copy_tokens(body);
    let n0 = b0.len();
    let mut removed: Vec<String> = Vec::new();
    let mut defines: Vec<(String, String)> = Vec::new();
    let mut name_num: usize = 0;
    let mut rounds: usize = 0;
    let ghost init = DefineState { body: b0v, removed: Seq::empty(), name_num: 0, defines: Seq::empty() };
    assert(string_views(removed@) =~= Seq::<Seq<char>>::empty());
    assert(defines@.map_values(|d: (String, String)| (d.0@, d.1@)) =~= Seq::<(Seq<char>, Seq<char>)>::empty());
    assert(state_of(token_views(body@), removed@, name_num, defines@) == init);
    loop
        invariant_except_break
            n0 == b0@.len(),
            b0v == token_views(b0@),
            uv == string_views(used@),
            all_have_text(b0v),
            within_limits(b0v),
            body@.len() == n0,
            rounds <= n0 + 1,
            define_rounds(info, b0v, uv, init, (n0 + 1) as nat) == define_rounds(
                info,
                b0v,
                uv,
                state_of(token_views(body@), removed@, name_num, defines@),
                (n0 + 1 - rounds) as nat,
            ),
        ensures
            define_rounds(info, b0v, uv, init, (n0 + 1) as nat) == state_of(
                token_views(body@),
                removed@,
                name_num,
                defines@,
            ),
        decreases n0 + 1 - rounds,
    {
        let ghost st = state_of(token_views(body@), removed@, name_num, defines@);
        if rounds > n0 {
            break;
        }
        if name_num >= usize::MAX - 2 || used.len() >= usize::MAX - 2 - name_num {
            break;
        }
        match best_define_exec(info, &b0, body, &removed) {
            None => {
                break;
            },
            Some(i) => {
                let t = text_of(b0.get(i)).clone();
                assert(b0v[i as int] == b0@[i as int]@);
                let ghost from = name_num;
                let name = next_name(&mut name_num, used);
                proof {
                    lemma_first_unused(used@, from as nat, (used@.len() + 1) as nat, name_num as nat);
                }
                replace_text_exec(body, &t, &name);
                let ghost rem0 = removed@;
                let ghost def0 = defines@;
                removed.push(t.clone());
                defines.push((t, name));
                proof {
                    assert(string_views(removed@) =~= string_views(rem0).push(b0v[i as int].0->0));
                    assert(defines@.map_values(|d: (String, String)| (d.0@, d.1@)) =~= def0.map_values(
                        |d: (String, String)| (d.0@, d.1@),
                    ).push((b0v[i as int].0->0, spec_name_of((name_num - 1) as nat))));
                }
                rounds = rounds + 1;
            },
        }
    }
    push_define_lines(header, &defines);
}

/// Compresses the output: merges adjacent tokens where that pays, then
/// replaces the texts that pay for it by short `#define` names, whose
/// lines are appended to `header` (see [`compressed`]). Names are chosen
/// so that no text of the given header or body spells them.
pub fn compress_with_defines<I: TokenInfo>(info: &I, header: &mut Tokens, body: &mut Tokens)
    requires
        all_have_text(token_views(old(body)@)),
    ensures
        (token_views(final(header)@), token_views(final(body)@)) == compressed(
            info,
            token_views(old(header)@),
            token_views(old(body)@),
        ),
{
    if body.len() <= 1 {
        return;
    }
    let used = texts_vec(header, body);
    merge_pairs(info, body);
    if !check_limits(body) {
        return;
    }
    assign_defines(info, header, body, &used);
}

} // verus!
