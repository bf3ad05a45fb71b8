//! The overloads of one function name, and how calls and new declarations
//! are resolved against them.

use super::types::{
    lemma_types_could_match_reflexive, lemma_types_could_match_symmetric, spec_types_could_match,
    types_could_match,
};
use super::{MIRFunctionArgs, MIRFunctionKey, MIRTypeInner};
use vstd::prelude::*;

verus! {

/// Whether `call_args` can be used to call a function taking `func_args`:
/// a variadic function needs at least its fixed arguments, any other function
/// exactly its arguments, and each fixed argument must match.
pub open spec fn spec_args_compatible(func_args: MIRFunctionArgs, call_args: Seq<MIRTypeInner>) -> bool {
    let fixed = func_args.args@.len();
    &&& if func_args.variadic {
        call_args.len() >= fixed
    } else {
        call_args.len() == fixed
    }
    &&& forall|i: int| 0 <= i < fixed ==> spec_types_could_match(#[trigger] func_args.args@[i], call_args[i])
}

/// Whether two signatures could both accept the same call.
pub open spec fn spec_signatures_conflict(a: MIRFunctionArgs, b: MIRFunctionArgs) -> bool {
    let a_fixed = a.args@.len();
    let b_fixed = b.args@.len();
    &&& match (a.variadic, b.variadic) {
        (false, false) => a_fixed == b_fixed,
        (true, false) => b_fixed >= a_fixed,
        (false, true) => a_fixed >= b_fixed,
        (true, true) => true,
    }
    &&& forall|i: int|
        0 <= i < a_fixed && 0 <= i < b_fixed ==> spec_types_could_match(
            #[trigger] b.args@[i],
            a.args@[i],
        )
}

/// The number of overloads in `s` compatible with a call with `call_args`.
pub open spec fn count_compatible_in(
    s: Seq<(MIRFunctionArgs, MIRFunctionKey)>,
    call_args: Seq<MIRTypeInner>,
) -> nat
    decreases s.len(),
{
    if s.len() == 0 {
        0
    } else {
        count_compatible_in(s.drop_last(), call_args) + if spec_args_compatible(s.last().0, call_args) {
            1nat
        } else {
            0nat
        }
    }
}

/// The key of the first overload in `s` compatible with `call_args`, if any.
pub open spec fn first_compatible_in(
    s: Seq<(MIRFunctionArgs, MIRFunctionKey)>,
    call_args: Seq<MIRTypeInner>,
) -> Option<MIRFunctionKey>
    decreases s.len(),
{
    if s.len() == 0 {
        None
    } else if spec_args_compatible(s[0].0, call_args) {
        Some(s[0].1)
    } else {
        first_compatible_in(s.drop_first(), call_args)
    }
}

/// The key of the first overload in `s` whose signature conflicts with `new_args`, if any.
pub open spec fn first_conflict_in(
    s: Seq<(MIRFunctionArgs, MIRFunctionKey)>,
    new_args: MIRFunctionArgs,
) -> Option<MIRFunctionKey>
    decreases s.len(),
{
    if s.len() == 0 {
        None
    } else if spec_signatures_conflict(s[0].0, new_args) {
        Some(s[0].1)
    } else {
        first_conflict_in(s.drop_first(), new_args)
    }
}

/// The overloads of `s` that don't conflict with `new_args`, in order.
pub open spec fn without_conflicts(
    s: Seq<(MIRFunctionArgs, MIRFunctionKey)>,
    new_args: MIRFunctionArgs,
) -> Seq<(MIRFunctionArgs, MIRFunctionKey)>
    decreases s.len(),
{
    if s.len() == 0 {
        s
    } else if spec_signatures_conflict(s.last().0, new_args) {
        without_conflicts(s.drop_last(), new_args)
    } else {
        without_conflicts(s.drop_last(), new_args).push(s.last())
    }
}

/// The overloads of `s` whose key isn't `key`, in order.
pub open spec fn without_key(
    s: Seq<(MIRFunctionArgs, MIRFunctionKey)>,
    key: MIRFunctionKey,
) -> Seq<(MIRFunctionArgs, MIRFunctionKey)>
    decreases s.len(),
{
    if s.len() == 0 {
        s
    } else if s.last().1 == key {
        without_key(s.drop_last(), key)
    } else {
        without_key(s.drop_last(), key).push(s.last())
    }
}

/// A list of function overloads for a single function name.
/// Stores argument types alongside keys, so that a search needs no lookups.
#[derive(Debug)]
pub struct FunctionOverloads(Vec<(MIRFunctionArgs, MIRFunctionKey)>);

impl View for FunctionOverloads {
    type V = Seq<(MIRFunctionArgs, MIRFunctionKey)>;

    closed spec fn view(&self) -> Seq<(MIRFunctionArgs, MIRFunctionKey)> {
        self.0@
    }
}


/// Two overload lists with the same signatures (by model) and keys, in
/// the same order.
pub open spec fn overloads_same(a: FunctionOverloads, b: FunctionOverloads) -> bool {
    &&& a@.len() == b@.len()
    &&& forall|i: int| 0 <= i < a@.len() ==> (#[trigger] a@[i]).0@ == b@[i].0@ && a@[i].1 == b@[i].1
}

impl FunctionOverloads {
    /// A copy of the overloads, with the same signatures and keys.
    pub fn copy(&self) -> (res: Self)
        ensures
            overloads_same(res, *self),
    {
        let mut v: Vec<(MIRFunctionArgs, MIRFunctionKey)> = Vec::new();
        let mut i: usize = 0;
        while i < self.0.len()
            invariant
                i <= self.0@.len(),
                v@.len() == i,
                forall|j: int| 0 <= j < i ==> (#[trigger] v@[j]).0@ == self.0@[j].0@ && v@[j].1 == self.0@[j].1,
            decreases self.0@.len() - i,
        {
            v.push((super::type_check::copy_args(&self.0[i].0), self.0[i].1));
            i = i + 1;
        }
        FunctionOverloads(v)
    }

    /// An empty list of overloads.
    pub fn new() -> (res: Self)
        ensures
            res@ == Seq::<(MIRFunctionArgs, MIRFunctionKey)>::empty(),
    {
        FunctionOverloads(Vec::new())
    }

    /// Finds the function compatible with the given call arguments.
    /// Returns None if no overload matches, or if more than one does (ambiguous).
    pub fn find_compatible(&self, call_args: &[MIRTypeInner]) -> (res: Option<MIRFunctionKey>)
        ensures
            res == (if count_compatible_in(self@, call_args@) == 1 {
                first_compatible_in(self@, call_args@)
            } else {
                None
            }),
    {
        let mut first: Option<MIRFunctionKey> = None;
        let mut count: usize = 0;
        let mut i: usize = 0;
        while i < self.0.len()
            invariant
                i <= self@.len(),
                self@ == self.0@,
                count == count_compatible_in(self@.take(i as int), call_args@),
                count <= i,
                first == first_compatible_in(self@.take(i as int), call_args@),
                (first is None) == (count == 0),
            decreases self@.len() - i,
        {
            proof {
                lemma_first_compatible_take(self@, call_args@, i as int);
                assert(self@.take(i + 1).drop_last() == self@.take(i as int));
            }
            if Self::args_compatible(&self.0[i].0, call_args) {
                if count == 0 {
                    first = Some(self.0[i].1);
                }
                count = count + 1;
            }
            i = i + 1;
        }
        proof {
            assert(self@.take(self@.len() as int) == self@);
        }
        if count == 1 {
            first
        } else {
            None
        }
    }

    /// Counts how many overloads are compatible with the given call arguments.
    pub fn count_compatible(&self, call_args: &[MIRTypeInner]) -> (res: usize)
        ensures
            res == count_compatible_in(self@, call_args@),
    {
        let mut count: usize = 0;
        let mut i: usize = 0;
        while i < self.0.len()
            invariant
                i <= self@.len(),
                self@ == self.0@,
                count == count_compatible_in(self@.take(i as int), call_args@),
                count <= i,
            decreases self@.len() - i,
        {
            proof {
                assert(self@.take(i + 1).drop_last() == self@.take(i as int));
            }
            if Self::args_compatible(&self.0[i].0, call_args) {
                count = count + 1;
            }
            i = i + 1;
        }
        proof {
            assert(self@.take(self@.len() as int) == self@);
        }
        count
    }

    /// Checks if adding a function with these args would conflict with an
    /// existing overload, returning the first conflicting key if so.
    pub fn find_conflict(&self, new_args: &MIRFunctionArgs) -> (res: Option<MIRFunctionKey>)
        ensures
            res == first_conflict_in(self@, *new_args),
    {
        let mut i: usize = 0;
        assert(self@.skip(0) == self@);
        while i < self.0.len()
            invariant
                i <= self@.len(),
                self@ == self.0@,
                first_conflict_in(self@, *new_args) == first_conflict_in(self@.skip(i as int), *new_args),
            decreases self@.len() - i,
        {
            proof {
                assert(self@.skip(i as int).drop_first() == self@.skip(i + 1));
            }
            if Self::signatures_conflict(&self.0[i].0, new_args) {
                return Some(self.0[i].1);
            }
            i = i + 1;
        }
        None
    }

    /// Removes all overloads that conflict with a new function with the given args.
    pub fn remove_conflicts(&mut self, new_args: &MIRFunctionArgs)
        ensures
            final(self)@ == without_conflicts(old(self)@, *new_args),
    {
        let mut old_items: Vec<(MIRFunctionArgs, MIRFunctionKey)> = Vec::new();
        std::mem::swap(&mut old_items, &mut self.0);
        let ghost orig = old_items@;
        assert(orig.len() == old_items.len());
        let mut kept: Vec<(MIRFunctionArgs, MIRFunctionKey)> = Vec::new();
        let mut i: usize = 0;
        while old_items.len() > 0
            invariant
                i <= orig.len(),
                orig.len() <= usize::MAX,
                old_items@.len() + i == orig.len(),
                old_items@ == orig.skip(i as int),
                kept@ == without_conflicts(orig.take(i as int), *new_args),
            decreases old_items@.len(),
        {
            proof {
                assert(orig.take(i + 1).drop_last() == orig.take(i as int));
                assert(orig.take(i + 1).last() == orig[i as int]);
            }
            let item = old_items.remove(0);
            if !Self::signatures_conflict(&item.0, new_args) {
                kept.push(item);
            }
            i = i + 1;
            proof {
                assert(old_items@ == orig.skip(i as int));
            }
        }
        proof {
            assert(orig.take(i as int) == orig);
        }
        self.0 = kept;
    }

    /// Adds a function overload.
    pub fn push(&mut self, args: MIRFunctionArgs, key: MIRFunctionKey)
        ensures
            final(self)@ == old(self)@.push((args, key)),
    {
        self.0.push((args, key));
    }

    /// Removes every overload with the given key.
    pub fn remove(&mut self, key: MIRFunctionKey)
        ensures
            final(self)@ == without_key(old(self)@, key),
    {
        let mut old_items: Vec<(MIRFunctionArgs, MIRFunctionKey)> = Vec::new();
        std::mem::swap(&mut old_items, &mut self.0);
        let ghost orig = old_items@;
        assert(orig.len() == old_items.len());
        let mut kept: Vec<(MIRFunctionArgs, MIRFunctionKey)> = Vec::new();
        let mut i: usize = 0;
        while old_items.len() > 0
            invariant
                i <= orig.len(),
                orig.len() <= usize::MAX,
                old_items@.len() + i == orig.len(),
                old_items@ == orig.skip(i as int),
                kept@ == without_key(orig.take(i as int), key),
            decreases old_items@.len(),
        {
            proof {
                assert(orig.take(i + 1).drop_last() == orig.take(i as int));
                assert(orig.take(i + 1).last() == orig[i as int]);
            }
            let item = old_items.remove(0);
            if item.1 != key {
                kept.push(item);
            }
            i = i + 1;
            proof {
                assert(old_items@ == orig.skip(i as int));
            }
        }
        proof {
            assert(orig.take(i as int) == orig);
        }
        self.0 = kept;
    }

    /// All keys, in order.
    pub fn keys(&self) -> (res: Vec<MIRFunctionKey>)
        ensures
            res@ == self@.map_values(|e: (MIRFunctionArgs, MIRFunctionKey)| e.1),
    {
        let mut res: Vec<MIRFunctionKey> = Vec::new();
        let mut i: usize = 0;
        while i < self.0.len()
            invariant
                i <= self@.len(),
                self@ == self.0@,
                res@ == self@.take(i as int).map_values(|e: (MIRFunctionArgs, MIRFunctionKey)| e.1),
            decreases self@.len() - i,
        {
            res.push(self.0[i].1);
            i = i + 1;
            proof {
                assert(res@ == self@.take(i as int).map_values(|e: (MIRFunctionArgs, MIRFunctionKey)| e.1));
            }
        }
        proof {
            assert(self@.take(self@.len() as int) == self@);
        }
        res
    }

    /// All (args, key) pairs, in order.
    pub fn iter(&self) -> (res: &[(MIRFunctionArgs, MIRFunctionKey)])
        ensures
            res@ == self@,
    {
        self.0.as_slice()
    }

    /// Returns true if there are no overloads.
    pub fn is_empty(&self) -> (res: bool)
        ensures
            res == (self@.len() == 0),
    {
        self.0.len() == 0
    }

    /// Checks if `call_args` can be used to call a function with `func_args`.
    fn args_compatible(func_args: &MIRFunctionArgs, call_args: &[MIRTypeInner]) -> (res: bool)
        ensures
            res == spec_args_compatible(*func_args, call_args@),
    {
        let fixed_count = func_args.args.len();
        if func_args.variadic {
            // Fixed args must always be given.
            if call_args.len() < fixed_count {
                return false;
            }
        } else {
            // No variadic part, so no room for more args than the fixed ones.
            if call_args.len() != fixed_count {
                return false;
            }
        }
        let mut i: usize = 0;
        while i < fixed_count
            invariant
                i <= fixed_count,
                fixed_count == func_args.args@.len(),
                fixed_count <= call_args@.len(),
                forall|j: int| 0 <= j < i ==> spec_types_could_match(#[trigger] func_args.args@[j], call_args@[j]),
            decreases fixed_count - i,
        {
            if !types_could_match(&func_args.args[i], &call_args[i]) {
                return false;
            }
            i = i + 1;
        }
        true
    }

    /// Checks if two function signatures could match the same call.
    fn signatures_conflict(a: &MIRFunctionArgs, b: &MIRFunctionArgs) -> (res: bool)
        ensures
            res == spec_signatures_conflict(*a, *b),
    {
        let a_fixed = a.args.len();
        let b_fixed = b.args.len();
        if !a.variadic && !b.variadic {
            if a_fixed != b_fixed {
                // Different counts, so no call fits both.
                return false;
            }
        } else if a.variadic && !b.variadic {
            if b_fixed < a_fixed {
                // a requires more fixed args than b takes.
                return false;
            }
        } else if !a.variadic && b.variadic {
            if a_fixed < b_fixed {
                // b requires more fixed args than a takes.
                return false;
            }
        }
        // Only the common prefix needs to be compared; the length checks
        // above rule out the other cases.
        let n = if a_fixed < b_fixed { a_fixed } else { b_fixed };
        let mut i: usize = 0;
        while i < n
            invariant
                i <= n,
                n <= a.args@.len(),
                n <= b.args@.len(),
                n == a.args@.len() || n == b.args@.len(),
                forall|j: int| 0 <= j < i ==> spec_types_could_match(#[trigger] b.args@[j], a.args@[j]),
            decreases n - i,
        {
            if !types_could_match(&b.args[i], &a.args[i]) {
                return false;
            }
            i = i + 1;
        }
        true
    }
}

/// The first compatible overload of a prefix extends to the next prefix.
proof fn lemma_first_compatible_take(
    s: Seq<(MIRFunctionArgs, MIRFunctionKey)>,
    call_args: Seq<MIRTypeInner>,
    i: int,
)
    requires
        0 <= i < s.len(),
    ensures
        first_compatible_in(s.take(i + 1), call_args) == (if first_compatible_in(s.take(i), call_args) is Some {
            first_compatible_in(s.take(i), call_args)
        } else if spec_args_compatible(s[i].0, call_args) {
            Some(s[i].1)
        } else {
            None
        }),
    decreases i,
{
    if i == 0 {
        assert(s.take(1).drop_first() == Seq::<(MIRFunctionArgs, MIRFunctionKey)>::empty());
        assert(s.take(0) == Seq::<(MIRFunctionArgs, MIRFunctionKey)>::empty());
        assert(s.take(1)[0] == s[0]);
    } else {
        lemma_first_compatible_take(s.drop_first(), call_args, i - 1);
        assert(s.take(i + 1).drop_first() == s.drop_first().take(i));
        assert(s.take(i).drop_first() == s.drop_first().take(i - 1));
        assert(s.take(i + 1)[0] == s[0]);
        assert(s.take(i)[0] == s[0]);
    }
}

/// Two signatures conflict regardless of the order in which they are compared.
pub proof fn lemma_signatures_conflict_symmetric(a: MIRFunctionArgs, b: MIRFunctionArgs)
    ensures
        spec_signatures_conflict(a, b) == spec_signatures_conflict(b, a),
{
    assert forall|i: int| 0 <= i < a.args@.len() && 0 <= i < b.args@.len() implies
        spec_types_could_match(#[trigger] b.args@[i], a.args@[i]) == spec_types_could_match(a.args@[i], b.args@[i]) by {
        lemma_types_could_match_symmetric(b.args@[i], a.args@[i]);
    }
}

/// Every signature conflicts with itself: no two functions of one name may
/// have the same argument types.
pub proof fn lemma_signature_conflicts_with_itself(a: MIRFunctionArgs)
    ensures
        spec_signatures_conflict(a, a),
{
    assert forall|i: int| 0 <= i < a.args@.len() implies spec_types_could_match(#[trigger] a.args@[i], a.args@[i]) by {
        lemma_types_could_match_reflexive(a.args@[i]);
    }
}

/// After removing the conflicts of a signature, none are left.
pub proof fn lemma_no_conflict_after_removal(
    s: Seq<(MIRFunctionArgs, MIRFunctionKey)>,
    new_args: MIRFunctionArgs,
)
    ensures
        first_conflict_in(without_conflicts(s, new_args), new_args) is None,
    decreases s.len(),
{
    if s.len() > 0 {
        lemma_no_conflict_after_removal(s.drop_last(), new_args);
        let rest = without_conflicts(s.drop_last(), new_args);
        if !spec_signatures_conflict(s.last().0, new_args) {
            lemma_first_conflict_push(rest, s.last(), new_args);
        }
    }
}

/// Appending an overload that doesn't conflict keeps the first conflict.
proof fn lemma_first_conflict_push(
    s: Seq<(MIRFunctionArgs, MIRFunctionKey)>,
    e: (MIRFunctionArgs, MIRFunctionKey),
    new_args: MIRFunctionArgs,
)
    requires
        first_conflict_in(s, new_args) is None,
        !spec_signatures_conflict(e.0, new_args),
    ensures
        first_conflict_in(s.push(e), new_args) is None,
    decreases s.len(),
{
    if s.len() == 0 {
        assert(s.push(e).drop_first() == Seq::<(MIRFunctionArgs, MIRFunctionKey)>::empty());
        assert(s.push(e)[0] == e);
        assert(first_conflict_in(s.push(e).drop_first(), new_args) is None);
    } else {
        lemma_first_conflict_push(s.drop_first(), e, new_args);
        assert(s.push(e).drop_first() == s.drop_first().push(e));
        assert(s.push(e)[0] == s[0]);
    }
}

/// Once an overload is added, its own signature is reported as a conflict.
pub proof fn lemma_push_then_conflict(
    s: Seq<(MIRFunctionArgs, MIRFunctionKey)>,
    args: MIRFunctionArgs,
    key: MIRFunctionKey,
)
    ensures
        first_conflict_in(s.push((args, key)), args) is Some,
    decreases s.len(),
{
    if s.len() == 0 {
        lemma_signature_conflicts_with_itself(args);
    } else {
        assert(s.push((args, key)).drop_first() == s.drop_first().push((args, key)));
        lemma_push_then_conflict(s.drop_first(), args, key);
    }
}

/// After removing a key, no overload with that key remains.
pub proof fn lemma_removed_key_absent(s: Seq<(MIRFunctionArgs, MIRFunctionKey)>, key: MIRFunctionKey)
    ensures
        forall|i: int| 0 <= i < without_key(s, key).len() ==> (#[trigger] without_key(s, key)[i]).1 != key,
    decreases s.len(),
{
    if s.len() > 0 {
        lemma_removed_key_absent(s.drop_last(), key);
        let rest = without_key(s.drop_last(), key);
        if s.last().1 != key {
            assert forall|i: int| 0 <= i < rest.push(s.last()).len() implies (#[trigger] rest.push(s.last())[i]).1 != key by {
                if i < rest.len() {
                    assert(rest.push(s.last())[i] == rest[i]);
                }
            }
        }
    }
}


/// Some entry of the list accepts the call's argument types.
pub open spec fn some_compatible(
    s: Seq<(MIRFunctionArgs, MIRFunctionKey)>,
    call_args: Seq<MIRTypeInner>,
) -> bool {
    exists|j: int| 0 <= j < s.len() && spec_args_compatible(#[trigger] s[j].0, call_args)
}

proof fn lemma_count_positive(s: Seq<(MIRFunctionArgs, MIRFunctionKey)>, c: Seq<MIRTypeInner>)
    ensures
        (count_compatible_in(s, c) > 0) == some_compatible(s, c),
    decreases s.len(),
{
    if s.len() > 0 {
        lemma_count_positive(s.drop_last(), c);
        if some_compatible(s.drop_last(), c) {
            let j = choose|j: int| 0 <= j < s.drop_last().len() && spec_args_compatible(
                #[trigger] s.drop_last()[j].0,
                c,
            );
            assert(s[j] == s.drop_last()[j]);
        }
        if some_compatible(s, c) && !spec_args_compatible(s.last().0, c) {
            let j = choose|j: int| 0 <= j < s.len() && spec_args_compatible(#[trigger] s[j].0, c);
            assert(s.drop_last()[j] == s[j]);
        }
    }
}

proof fn lemma_first_found(s: Seq<(MIRFunctionArgs, MIRFunctionKey)>, c: Seq<MIRTypeInner>)
    ensures
        first_compatible_in(s, c) is Some == some_compatible(s, c),
        first_compatible_in(s, c) matches Some(k) ==> exists|j: int|
            0 <= j < s.len() && #[trigger] s[j].1 == k && spec_args_compatible(s[j].0, c) && forall|
                i: int,
            | 0 <= i < j ==> !spec_args_compatible(#[trigger] s[i].0, c),
    decreases s.len(),
{
    if s.len() > 0 {
        lemma_first_found(s.drop_first(), c);
        if some_compatible(s.drop_first(), c) {
            let j = choose|j: int| 0 <= j < s.drop_first().len() && spec_args_compatible(
                #[trigger] s.drop_first()[j].0,
                c,
            );
            assert(s[j + 1] == s.drop_first()[j]);
        }
        if some_compatible(s, c) && !spec_args_compatible(s[0].0, c) {
            let j = choose|j: int| 0 <= j < s.len() && spec_args_compatible(#[trigger] s[j].0, c);
            assert(s.drop_first()[j - 1] == s[j]);
        }
        if spec_args_compatible(s[0].0, c) {
            assert(s[0].1 == first_compatible_in(s, c)->0);
        } else if first_compatible_in(s, c) is Some {
            let k = first_compatible_in(s, c)->0;
            let j = choose|j: int|
                0 <= j < s.drop_first().len() && #[trigger] s.drop_first()[j].1 == k
                    && spec_args_compatible(s.drop_first()[j].0, c) && forall|i: int|
                    0 <= i < j ==> !spec_args_compatible(#[trigger] s.drop_first()[i].0, c);
            assert(s[j + 1] == s.drop_first()[j]);
            assert forall|i: int| 0 <= i < j + 1 implies !spec_args_compatible(#[trigger] s[i].0, c) by {
                if i > 0 {
                    assert(s[i] == s.drop_first()[i - 1]);
                }
            }
        }
    }
}

/// Entry `j` is the one and only entry of `s` that accepts the call.
pub open spec fn only_compatible_at(
    s: Seq<(MIRFunctionArgs, MIRFunctionKey)>,
    call_args: Seq<MIRTypeInner>,
    j: int,
) -> bool {
    &&& 0 <= j < s.len()
    &&& spec_args_compatible(s[j].0, call_args)
    &&& forall|i: int| 0 <= i < s.len() && i != j ==> !spec_args_compatible(#[trigger] s[i].0, call_args)
}

proof fn lemma_count_one(s: Seq<(MIRFunctionArgs, MIRFunctionKey)>, c: Seq<MIRTypeInner>)
    ensures
        (count_compatible_in(s, c) == 1) == (exists|j: int| only_compatible_at(s, c, j)),
    decreases s.len(),
{
    if s.len() > 0 {
        let t = s.drop_last();
        let n = s.len() - 1;
        lemma_count_one(t, c);
        lemma_count_positive(t, c);
        if count_compatible_in(s, c) == 1 {
            if spec_args_compatible(s.last().0, c) {
                assert forall|i: int| 0 <= i < s.len() && i != n implies !spec_args_compatible(
                    #[trigger] s[i].0,
                    c,
                ) by {
                    assert(s[i] == t[i]);
                }
                assert(only_compatible_at(s, c, n));
            } else {
                let j = choose|j: int| only_compatible_at(t, c, j);
                assert forall|i: int| 0 <= i < s.len() && i != j implies !spec_args_compatible(
                    #[trigger] s[i].0,
                    c,
                ) by {
                    if i < n {
                        assert(s[i] == t[i]);
                    }
                }
                assert(s[j] == t[j]);
                assert(only_compatible_at(s, c, j));
            }
        }
        if exists|j: int| only_compatible_at(s, c, j) {
            let j = choose|j: int| only_compatible_at(s, c, j);
            if j == n {
                assert forall|i: int| 0 <= i < t.len() implies !spec_args_compatible(
                    #[trigger] t[i].0,
                    c,
                ) by {
                    assert(s[i] == t[i]);
                }
                assert(!some_compatible(t, c));
            } else {
                assert(s[j] == t[j]);
                assert forall|i: int| 0 <= i < t.len() && i != j implies !spec_args_compatible(
                    #[trigger] t[i].0,
                    c,
                ) by {
                    assert(s[i] == t[i]);
                }
                assert(only_compatible_at(t, c, j));
                assert(!spec_args_compatible(s[n].0, c));
            }
        }
    }
}

/// When some overload accepts a call, one is counted and the first such
/// one is found; when none does, none is. A lookup finds a function exactly
/// when one overload, and only one, accepts the call, and what it finds is
/// that overload's key: the first accepting entry, which is the only one.
pub proof fn lemma_compatible_lookup(
    s: Seq<(MIRFunctionArgs, MIRFunctionKey)>,
    call_args: Seq<MIRTypeInner>,
)
    ensures
        (count_compatible_in(s, call_args) > 0) == some_compatible(s, call_args),
        first_compatible_in(s, call_args) is Some == some_compatible(s, call_args),
        first_compatible_in(s, call_args) matches Some(k) ==> exists|j: int|
            0 <= j < s.len() && #[trigger] s[j].1 == k && spec_args_compatible(s[j].0, call_args)
                && forall|i: int| 0 <= i < j ==> !spec_args_compatible(#[trigger] s[i].0, call_args),
        (count_compatible_in(s, call_args) == 1) == (exists|j: int| only_compatible_at(s, call_args, j)),
        forall|j: int|
            only_compatible_at(s, call_args, j) ==> first_compatible_in(s, call_args) == Some(
                #[trigger] s[j].1,
            ),
{
    lemma_count_positive(s, call_args);
    lemma_first_found(s, call_args);
    lemma_count_one(s, call_args);
    assert forall|j: int|
        only_compatible_at(s, call_args, j) implies first_compatible_in(s, call_args) == Some(
        #[trigger] s[j].1,
    ) by {
        assert(some_compatible(s, call_args));
        let k = first_compatible_in(s, call_args)->0;
        let m = choose|m: int|
            0 <= m < s.len() && #[trigger] s[m].1 == k && spec_args_compatible(s[m].0, call_args)
                && forall|i: int| 0 <= i < m ==> !spec_args_compatible(#[trigger] s[i].0, call_args);
        assert(m == j);
    }
}

} // verus!
