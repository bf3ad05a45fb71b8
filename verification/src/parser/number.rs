//! Number literals: decimal digits with an optional sign and an optional
//! type suffix (`i32` or `u32`).

use crate::mir::MIRTypeInner;
use vstd::prelude::*;

verus! {

pub open spec fn is_digit(c: char) -> bool {
    '0' <= c && c <= '9'
}

pub open spec fn all_digits(s: Seq<char>) -> bool {
    forall|i: int| 0 <= i < s.len() ==> is_digit(#[trigger] s[i])
}

/// The number that a run of decimal digits spells.
pub open spec fn digits_value(s: Seq<char>) -> int
    decreases s.len(),
{
    if s.len() == 0 {
        0
    } else {
        digits_value(s.drop_last()) * 10 + (s.last() as int - '0' as int)
    }
}

/// The integer that a literal spells: an optional `+` or `-`, then at
/// least one decimal digit.
pub open spec fn literal_value(s: Seq<char>) -> Option<int> {
    let signed = s.len() > 0 && (s[0] == '-' || s[0] == '+');
    let body = if signed {
        s.drop_first()
    } else {
        s
    };
    if body.len() > 0 && all_digits(body) {
        Some(
            if signed && s[0] == '-' {
                -digits_value(body)
            } else {
                digits_value(body)
            },
        )
    } else {
        None
    }
}

/// The literal without its type suffix, and the type the suffix names.
pub open spec fn number_suffix(s: Seq<char>) -> (Seq<char>, Option<MIRTypeInner>) {
    if s.len() >= 3 && s.subrange(s.len() - 3, s.len() as int) == seq!['i', '3', '2'] {
        (s.subrange(0, s.len() - 3), Some(MIRTypeInner::I32))
    } else if s.len() >= 3 && s.subrange(s.len() - 3, s.len() as int) == seq!['u', '3', '2'] {
        (s.subrange(0, s.len() - 3), Some(MIRTypeInner::U32))
    } else {
        (s, None)
    }
}

/// The value and type of a number literal, where its value fits in an
/// `i128`.
pub open spec fn number_value(s: Seq<char>) -> Option<(int, Option<MIRTypeInner>)> {
    let (t, ty) = number_suffix(s);
    match literal_value(t) {
        Some(v) => if i128::MIN <= v <= i128::MAX {
            Some((v, ty))
        } else {
            None
        },
        None => None,
    }
}

proof fn lemma_digits_mono(s: Seq<char>, i: int, j: int)
    requires
        0 <= i <= j <= s.len(),
        all_digits(s.take(j)),
    ensures
        0 <= digits_value(s.take(i)) <= digits_value(s.take(j)),
    decreases j - i,
{
    if i < j {
        assert(s.take(j).drop_last() =~= s.take(j - 1));
        assert(s.take(j).last() == s[j - 1]);
        assert(is_digit(s.take(j)[j - 1]));
        assert forall|k: int| 0 <= k < j - 1 implies is_digit(#[trigger] s.take(j - 1)[k]) by {
            assert(s.take(j)[k] == s.take(j - 1)[k]);
        }
        lemma_digits_mono(s, i, j - 1);
    } else {
        lemma_digits_nonneg(s.take(i));
    }
}

proof fn lemma_digits_nonneg(s: Seq<char>)
    requires
        all_digits(s),
    ensures
        0 <= digits_value(s),
    decreases s.len(),
{
    if s.len() > 0 {
        assert forall|k: int| 0 <= k < s.len() - 1 implies is_digit(#[trigger] s.drop_last()[k]) by {
            assert(s.drop_last()[k] == s[k]);
        }
        assert(is_digit(s[s.len() - 1]));
        lemma_digits_nonneg(s.drop_last());
    }
}

/// Reads a number literal: its value and the type its suffix names.
/// `None` where the text is not a literal or its value does not fit in an
/// `i128`.
pub fn parse_number(text: &str) -> (res: Option<(i128, Option<MIRTypeInner>)>)
    ensures
        match (res, number_value(text@)) {
            (Some((v, ty)), Some((w, ty2))) => v == w && ty == ty2,
            (None, None) => true,
            _ => false,
        },
{
    let n = text.unicode_len();
    let ghost s = text@;
    let mut end = n;
    let mut ty: Option<MIRTypeInner> = None;
    if n >= 3 && text.get_char(n - 2) == '3' && text.get_char(n - 1) == '2' {
        let c = text.get_char(n - 3);
        if c == 'i' {
            end = n - 3;
            ty = Some(MIRTypeInner::I32);
            assert(s.subrange(n - 3, n as int) =~= seq!['i', '3', '2']);
        } else if c == 'u' {
            end = n - 3;
            ty = Some(MIRTypeInner::U32);
            assert(s.subrange(n - 3, n as int) =~= seq!['u', '3', '2']);
        } else {
            assert(s.subrange(n - 3, n as int)[0] == c);
        }
    }
    let ghost t = s.subrange(0, end as int);
    assert(number_suffix(s) == (t, ty)) by {
        if end == n {
            assert(t =~= s);
            if n >= 3 {
                assert(s.subrange(n - 3, n as int)[0] == s[n - 3]);
                assert(s.subrange(n - 3, n as int)[1] == s[n - 2]);
                assert(s.subrange(n - 3, n as int)[2] == s[n - 1]);
            }
        }
    }
    let mut i: usize = 0;
    let mut neg = false;
    if end > 0 {
        let c = text.get_char(0);
        if c == '-' || c == '+' {
            neg = c == '-';
            i = 1;
        }
    }
    let start = i;
    assert(t.len() == end);
    assert(end > 0 ==> t[0] == text@[0]);
    let ghost body = t.subrange(start as int, end as int);
    assert(body =~= (if start == 1 {
        t.drop_first()
    } else {
        t
    }));
    if i == end {
        return None;
    }
    let mut v: i128 = 0;
    assert(body.take(0) =~= Seq::<char>::empty());
    while i < end
        invariant
            s == text@,
            n == s.len(),
            number_suffix(s) == (t, ty),
            start == 1 <==> (t.len() > 0 && (t[0] == '-' || t[0] == '+')),
            start <= 1,
            neg <==> (start == 1 && t[0] == '-'),
            start < end,
            start <= i <= end,
            end <= s.len(),
            t == s.subrange(0, end as int),
            body == t.subrange(start as int, end as int),
            body == (if start == 1 {
                t.drop_first()
            } else {
                t
            }),
            all_digits(body.take(i - start)),
            v == (if neg {
                -digits_value(body.take(i - start))
            } else {
                digits_value(body.take(i - start))
            }),
        decreases end - i,
    {
        let c = text.get_char(i);
        assert(body[i - start] == c);
        if !('0' <= c && c <= '9') {
            assert(!is_digit(body[i - start]));
            return None;
        }
        let d = (c as u32 - '0' as u32) as i128;
        let ghost k = i - start;
        assert(body.take(k + 1).drop_last() =~= body.take(k));
        assert(body.take(k + 1).last() == c);
        assert forall|q: int| 0 <= q < k + 1 implies is_digit(#[trigger] body.take(k + 1)[q]) by {
            if q < k {
                assert(body.take(k + 1)[q] == body.take(k)[q]);
            }
        }
        proof {
            lemma_digits_nonneg(body.take(k));
        }
        assert(0 <= d <= 9);
        if neg {
            if v < -17014118346046923173168730371588410572 || (v == -17014118346046923173168730371588410572 && d > 8) {
                proof {
                    if all_digits(body) {
                        assert(body.take(body.len() as int) =~= body);
                        lemma_digits_mono(body, k + 1, body.len() as int);
                        assert(digits_value(body.take(k + 1)) == digits_value(body.take(k)) * 10 + d);
                    }
                }
                return None;
            }
            v = v * 10 - d;
        } else {
            if v > 17014118346046923173168730371588410572 || (v == 17014118346046923173168730371588410572 && d > 7) {
                proof {
                    if all_digits(body) {
                        assert(body.take(body.len() as int) =~= body);
                        lemma_digits_mono(body, k + 1, body.len() as int);
                        assert(digits_value(body.take(k + 1)) == digits_value(body.take(k)) * 10 + d);
                    }
                }
                return None;
            }
            v = v * 10 + d;
        }
        i = i + 1;
    }
    assert(body.take(end - start) =~= body);
    Some((v, ty))
}

} // verus!
