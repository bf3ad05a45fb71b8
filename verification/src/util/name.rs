//! Short identifier names, used for mangling and for defines.

use super::text::push_char;
use vstd::prelude::*;

verus! {

/// The letter for `d` (0 to 51): 'a'..'z', then 'A'..'Z'.
pub open spec fn letter_char(d: nat) -> char {
    if d < 26 {
        ((97 + d) as u8) as char
    } else {
        ((65 + d - 26) as u8) as char
    }
}

/// The character for `d` (0 to 61): a letter, then '0'..'9'.
pub open spec fn alnum_char(d: nat) -> char {
    if d < 52 {
        letter_char(d)
    } else {
        ((48 + d - 52) as u8) as char
    }
}

/// The characters after the first one of the name of a number whose first
/// character has been taken off: base 62, least significant digit first.
pub open spec fn name_tail(n: nat) -> Seq<char>
    decreases n,
{
    if n == 0 {
        Seq::empty()
    } else {
        seq![alnum_char(n % 62)] + name_tail(n / 62)
    }
}

/// The name of a number: a letter for `num % 52`, followed by the remaining
/// quotient in base 62 (least significant first).
pub open spec fn spec_name_of(num: nat) -> Seq<char> {
    seq![letter_char(num % 52)] + name_tail(num / 52)
}

fn letter(d: usize) -> (res: char)
    requires
        d < 52,
    ensures
        res == letter_char(d as nat),
{
    if d < 26 {
        (97u8 + d as u8) as char
    } else {
        (65u8 + (d - 26) as u8) as char
    }
}

fn alnum(d: usize) -> (res: char)
    requires
        d < 62,
    ensures
        res == alnum_char(d as nat),
{
    if d < 52 {
        letter(d)
    } else {
        (48u8 + (d - 52) as u8) as char
    }
}

/// Maps a sequential number to a short identifier string.
/// The first character is [a-zA-Z], the remaining characters are [a-zA-Z0-9].
pub(crate) fn name_num_to_str(num: usize) -> (res: String)
    ensures
        res@ == spec_name_of(num as nat),
{
    let mut buf = String::new();
    push_char(&mut buf, letter(num % 52));
    let mut rest = num / 52;
    proof {
        assert(buf@ + name_tail(rest as nat) == spec_name_of(num as nat));
    }
    while rest != 0
        invariant
            buf@ + name_tail(rest as nat) == spec_name_of(num as nat),
        decreases rest,
    {
        let ghost prev = buf@;
        push_char(&mut buf, alnum(rest % 62));
        proof {
            assert(prev + name_tail(rest as nat) == prev.push(alnum_char((rest % 62) as nat)) + name_tail((rest / 62) as nat));
        }
        rest = rest / 62;
    }
    proof {
        assert(buf@ + name_tail(0) == buf@);
    }
    buf
}

proof fn lemma_letter_injective(a: nat, b: nat)
    requires
        a < 52,
        b < 52,
        letter_char(a) == letter_char(b),
    ensures
        a == b,
{
    assert(letter_char(a) as u32 == letter_char(b) as u32);
}

proof fn lemma_alnum_injective(a: nat, b: nat)
    requires
        a < 62,
        b < 62,
        alnum_char(a) == alnum_char(b),
    ensures
        a == b,
{
    assert(alnum_char(a) as u32 == alnum_char(b) as u32);
}

proof fn lemma_name_tail_injective(a: nat, b: nat)
    requires
        name_tail(a) == name_tail(b),
    ensures
        a == b,
    decreases a,
{
    if a != 0 && b != 0 {
        assert(name_tail(a)[0] == alnum_char(a % 62));
        assert(name_tail(b)[0] == alnum_char(b % 62));
        lemma_alnum_injective(a % 62, b % 62);
        assert(name_tail(a).drop_first() == name_tail(a / 62));
        assert(name_tail(b).drop_first() == name_tail(b / 62));
        lemma_name_tail_injective(a / 62, b / 62);
    } else if a != 0 {
        assert(name_tail(a).len() > 0);
    } else if b != 0 {
        assert(name_tail(b).len() > 0);
    }
}

/// Different numbers have different names.
pub proof fn lemma_name_injective(a: nat, b: nat)
    requires
        spec_name_of(a) == spec_name_of(b),
    ensures
        a == b,
{
    assert(spec_name_of(a)[0] == letter_char(a % 52));
    assert(spec_name_of(b)[0] == letter_char(b % 52));
    lemma_letter_injective(a % 52, b % 52);
    assert(spec_name_of(a).drop_first() == name_tail(a / 52));
    assert(spec_name_of(b).drop_first() == name_tail(b / 52));
    lemma_name_tail_injective(a / 52, b / 52);
}

/// A sequence of distinct numbers below `n` has at most `n` elements.
pub(crate) proof fn lemma_distinct_below(s: Seq<int>, n: int)
    requires
        0 <= n,
        forall|i: int| 0 <= i < s.len() ==> 0 <= #[trigger] s[i] < n,
        forall|i: int, j: int| 0 <= i < j < s.len() ==> s[i] != s[j],
    ensures
        s.len() <= n,
    decreases n,
{
    if n == 0 {
        if s.len() > 0 {
            let x = s[0];
            assert(0 <= x < n);
        }
    } else {
        let k = choose|k: int| 0 <= k < s.len() && s[k] == n - 1;
        if 0 <= k < s.len() && s[k] == n - 1 {
            let t = s.remove(k);
            assert forall|i: int| 0 <= i < t.len() implies 0 <= #[trigger] t[i] < n - 1 by {
                if i < k {
                    assert(t[i] == s[i]);
                } else {
                    assert(t[i] == s[i + 1]);
                }
            }
            assert forall|i: int, j: int| 0 <= i < j < t.len() implies t[i] != t[j] by {
                let si = if i < k { i } else { i + 1 };
                let sj = if j < k { j } else { j + 1 };
                assert(t[i] == s[si]);
                assert(t[j] == s[sj]);
            }
            lemma_distinct_below(t, n - 1);
        } else {
            assert forall|i: int| 0 <= i < s.len() implies 0 <= #[trigger] s[i] < n - 1 by {
                if s[i] == n - 1 {
                    assert(0 <= i < s.len() && s[i] == n - 1);
                }
            }
            lemma_distinct_below(s, n - 1);
        }
    }
}

/// Whether one of the strings in `used` spells `name`.
pub open spec fn name_is_used(used: Seq<String>, name: Seq<char>) -> bool {
    exists|j: int| 0 <= j < used.len() && (#[trigger] used[j])@ == name
}

fn is_used(used: &Vec<String>, name: &String) -> (res: bool)
    ensures
        res == name_is_used(used@, name@),
{
    let mut j: usize = 0;
    while j < used.len()
        invariant
            j <= used@.len(),
            forall|k: int| 0 <= k < j ==> (#[trigger] used@[k])@ != name@,
        decreases used@.len() - j,
    {
        if used[j].eq(name) {
            return true;
        }
        j = j + 1;
    }
    false
}

/// Returns the next name that isn't spelled by any string in `used`,
/// advancing `name_num` past it.
///
/// The name returned is the name of the first number from `name_num` on whose
/// name is unused; `name_num` ends one past that number.
pub fn next_name(name_num: &mut usize, used: &Vec<String>) -> (res: String)
    requires
        *old(name_num) + used@.len() < usize::MAX,
    ensures
        *old(name_num) < *final(name_num) <= *old(name_num) + used@.len() + 1,
        res@ == spec_name_of((*final(name_num) - 1) as nat),
        !name_is_used(used@, res@),
        forall|m: int| *old(name_num) <= m < *final(name_num) - 1 ==> name_is_used(used@, #[trigger] spec_name_of(m as nat)),
{
    let ghost start = *name_num;
    let ghost mut seen: Seq<int> = Seq::empty();
    loop
        invariant
            start == *old(name_num),
            start <= *name_num,
            *name_num - start <= used@.len(),
            seen.len() == *name_num - start,
            start + used@.len() < usize::MAX,
            forall|t: int| 0 <= t < seen.len() ==> 0 <= #[trigger] seen[t] < used@.len(),
            forall|t: int| 0 <= t < seen.len() ==> (#[trigger] used@[seen[t]])@ == spec_name_of((start + t) as nat),
            forall|m: int| start <= m < *name_num ==> name_is_used(used@, #[trigger] spec_name_of(m as nat)),
        decreases used@.len() - (*name_num - start),
    {
        let name = name_num_to_str(*name_num);
        *name_num = *name_num + 1;
        if !is_used(used, &name) {
            return name;
        }
        proof {
            let j = choose|j: int| 0 <= j < used@.len() && (#[trigger] used@[j])@ == name@;
            let new_seen = seen.push(j);
            assert forall|t: int| 0 <= t < new_seen.len() implies (#[trigger] used@[new_seen[t]])@ == spec_name_of((start + t) as nat) by {
                if t < seen.len() {
                    assert(new_seen[t] == seen[t]);
                }
            }
            assert forall|a: int, b: int| 0 <= a < b < new_seen.len() implies new_seen[a] != new_seen[b] by {
                if new_seen[a] == new_seen[b] {
                    assert(used@[new_seen[a]]@ == spec_name_of((start + a) as nat));
                    assert(used@[new_seen[b]]@ == spec_name_of((start + b) as nat));
                    lemma_name_injective((start + a) as nat, (start + b) as nat);
                }
            }
            lemma_distinct_below(new_seen, used@.len() as int);
            seen = new_seen;
        }
    }
}

} // verus!
