//! Equality, matching and unification of MIR types.

use super::{MIRFunctionArgs, MIRType, MIRTypeInner};
use crate::targets::Target;
use vstd::prelude::*;

verus! {

/// Two types are the same type: equal structure, with names compared by
/// their characters.
pub open spec fn same_type(a: MIRTypeInner, b: MIRTypeInner) -> bool
    decreases a,
{
    match a {
        MIRTypeInner::UnknownNumber => b is UnknownNumber,
        MIRTypeInner::NotConstructed => b is NotConstructed,
        MIRTypeInner::I32 => b is I32,
        MIRTypeInner::U32 => b is U32,
        MIRTypeInner::Bool => b is Bool,
        MIRTypeInner::Unit => b is Unit,
        MIRTypeInner::String => b is String,
        MIRTypeInner::Char => b is Char,
        MIRTypeInner::FunctionPtr(args_a, ret_a) => match b {
            MIRTypeInner::FunctionPtr(args_b, ret_b) => {
                &&& args_a.variadic == args_b.variadic
                &&& args_a.args.len() == args_b.args.len()
                &&& forall|i: int|
                    0 <= i < args_a.args.len() ==> same_type(
                        #[trigger] args_a.args@[i],
                        args_b.args@[i],
                    )
                &&& same_type(*ret_a, *ret_b)
            },
            _ => false,
        },
        MIRTypeInner::Named(name_a) => match b {
            MIRTypeInner::Named(name_b) => name_a@ == name_b@,
            _ => false,
        },
        MIRTypeInner::Ref(inner_a) => match b {
            MIRTypeInner::Ref(inner_b) => same_type(*inner_a, *inner_b),
            _ => false,
        },
        MIRTypeInner::Array(inner_a) => match b {
            MIRTypeInner::Array(inner_b) => same_type(*inner_a, *inner_b),
            _ => false,
        },
        MIRTypeInner::ArrayFixed(inner_a, len_a) => match b {
            MIRTypeInner::ArrayFixed(inner_b, len_b) => len_a == len_b && same_type(
                *inner_a,
                *inner_b,
            ),
            _ => false,
        },
    }
}

/// Two argument lists are the same: same variadic flag and pairwise the same types.
pub open spec fn same_args(a: MIRFunctionArgs, b: MIRFunctionArgs) -> bool {
    &&& a.variadic == b.variadic
    &&& a.args.len() == b.args.len()
    &&& forall|i: int| 0 <= i < a.args.len() ==> same_type(#[trigger] a.args@[i], b.args@[i])
}

/// `same_type` is reflexive.
pub proof fn lemma_same_type_refl(a: MIRTypeInner)
    ensures
        same_type(a, a),
    decreases a,
{
    match a {
        MIRTypeInner::FunctionPtr(args, ret) => {
            assert forall|i: int| 0 <= i < args.args.len() implies same_type(
                #[trigger] args.args@[i],
                args.args@[i],
            ) by {
                assert(decreases_to!(a => args.args@[i]));
                lemma_same_type_refl(args.args@[i]);
            }
            lemma_same_type_refl(*ret);
        },
        MIRTypeInner::Ref(inner) => lemma_same_type_refl(*inner),
        MIRTypeInner::Array(inner) => lemma_same_type_refl(*inner),
        MIRTypeInner::ArrayFixed(inner, _) => lemma_same_type_refl(*inner),
        _ => {},
    }
}

/// `same_type` is symmetric.
pub proof fn lemma_same_type_symm(a: MIRTypeInner, b: MIRTypeInner)
    requires
        same_type(a, b),
    ensures
        same_type(b, a),
    decreases a,
{
    match (a, b) {
        (MIRTypeInner::FunctionPtr(args_a, ret_a), MIRTypeInner::FunctionPtr(args_b, ret_b)) => {
            assert forall|i: int| 0 <= i < args_b.args.len() implies same_type(
                #[trigger] args_b.args@[i],
                args_a.args@[i],
            ) by {
                assert(decreases_to!(a => args_a.args@[i]));
                lemma_same_type_symm(args_a.args@[i], args_b.args@[i]);
            }
            lemma_same_type_symm(*ret_a, *ret_b);
        },
        (MIRTypeInner::Ref(x), MIRTypeInner::Ref(y)) => lemma_same_type_symm(*x, *y),
        (MIRTypeInner::Array(x), MIRTypeInner::Array(y)) => lemma_same_type_symm(*x, *y),
        (MIRTypeInner::ArrayFixed(x, _), MIRTypeInner::ArrayFixed(y, _)) => lemma_same_type_symm(
            *x,
            *y,
        ),
        _ => {},
    }
}

impl Clone for MIRTypeInner {
    fn clone(&self) -> (res: Self)
        ensures
            same_type(res, *self),
        decreases self,
    {
        match self {
            MIRTypeInner::UnknownNumber => MIRTypeInner::UnknownNumber,
            MIRTypeInner::NotConstructed => MIRTypeInner::NotConstructed,
            MIRTypeInner::I32 => MIRTypeInner::I32,
            MIRTypeInner::U32 => MIRTypeInner::U32,
            MIRTypeInner::Bool => MIRTypeInner::Bool,
            MIRTypeInner::Unit => MIRTypeInner::Unit,
            MIRTypeInner::String => MIRTypeInner::String,
            MIRTypeInner::Char => MIRTypeInner::Char,
            MIRTypeInner::FunctionPtr(args, ret) => {
                let mut new_args: Vec<MIRTypeInner> = Vec::new();
                let mut i: usize = 0;
                while i < args.args.len()
                    invariant
                        i <= args.args@.len(),
                        new_args@.len() == i,
                        forall|j: int| 0 <= j < i ==> same_type(#[trigger] new_args@[j], args.args@[j]),
                        *self == MIRTypeInner::FunctionPtr(*args, *ret),
                    decreases args.args@.len() - i,
                {
                    assert(decreases_to!(*self => (*self)->FunctionPtr_0));
                    assert(decreases_to!((*self)->FunctionPtr_0 => ((*self)->FunctionPtr_0).args));
                    assert(decreases_to!(args.args => args.args@));
                    assert(decreases_to!(args.args@ => args.args@[i as int]));
                    assert(decreases_to!(*self => args.args@[i as int]));
                    new_args.push(args.args[i].clone());
                    i = i + 1;
                }
                let new_ret = (**ret).clone();

                MIRTypeInner::FunctionPtr(
                    MIRFunctionArgs { args: new_args, variadic: args.variadic },
                    Box::new(new_ret),
                )
            },
            MIRTypeInner::Named(name) => MIRTypeInner::Named(name.clone()),
            MIRTypeInner::Ref(inner) => MIRTypeInner::Ref(Box::new((**inner).clone())),
            MIRTypeInner::Array(inner) => MIRTypeInner::Array(Box::new((**inner).clone())),
            MIRTypeInner::ArrayFixed(inner, len) => MIRTypeInner::ArrayFixed(
                Box::new((**inner).clone()),
                *len,
            ),
        }
    }
}


/// Whether a value of type `to` could be used where `from` is expected once
/// inference has run: unresolved numbers match 32-bit integers, unconstructed
/// types match anything, and a fixed-size array may become an unsized array
/// (never the other way round); fixed sizes must agree.
pub open spec fn spec_types_could_match_ordered(from: MIRTypeInner, to: MIRTypeInner) -> bool
    decreases from,
{
    if same_type(from, to) {
        true
    } else {
        match from {
            MIRTypeInner::UnknownNumber => to is I32 || to is U32 || to is NotConstructed,
            MIRTypeInner::I32 | MIRTypeInner::U32 => to is UnknownNumber || to is NotConstructed,
            MIRTypeInner::NotConstructed => true,
            MIRTypeInner::Array(a) => match to {
                MIRTypeInner::NotConstructed => true,
                MIRTypeInner::Array(b) => spec_types_could_match_ordered(*a, *b),
                MIRTypeInner::ArrayFixed(b, _) => spec_types_could_match_ordered(*a, *b),
                _ => false,
            },
            MIRTypeInner::ArrayFixed(a, n) => match to {
                MIRTypeInner::NotConstructed => true,
                MIRTypeInner::ArrayFixed(b, m) => n == m && spec_types_could_match_ordered(*a, *b),
                _ => false,
            },
            _ => to is NotConstructed,
        }
    }
}

/// Whether two types could match in either direction (considering inference).
/// This holds in more cases than [`spec_types_could_match_ordered`]: fixed-size
/// and unsized arrays match each other both ways.
pub open spec fn spec_types_could_match(from: MIRTypeInner, to: MIRTypeInner) -> bool
    decreases from,
{
    if same_type(from, to) {
        true
    } else {
        match from {
            MIRTypeInner::UnknownNumber => to is I32 || to is U32 || to is NotConstructed,
            MIRTypeInner::I32 | MIRTypeInner::U32 => to is UnknownNumber || to is NotConstructed,
            MIRTypeInner::NotConstructed => true,
            MIRTypeInner::Array(a) => match to {
                MIRTypeInner::NotConstructed => true,
                MIRTypeInner::Array(b) => spec_types_could_match(*a, *b),
                MIRTypeInner::ArrayFixed(b, _) => spec_types_could_match(*a, *b),
                _ => false,
            },
            MIRTypeInner::ArrayFixed(a, n) => match to {
                MIRTypeInner::NotConstructed => true,
                MIRTypeInner::Array(b) => spec_types_could_match(*a, *b),
                MIRTypeInner::ArrayFixed(b, m) => n == m && spec_types_could_match(*a, *b),
                _ => false,
            },
            _ => to is NotConstructed,
        }
    }
}

/// Decides whether two types are the same type.
pub fn types_same(a: &MIRTypeInner, b: &MIRTypeInner) -> (res: bool)
    ensures
        res == same_type(*a, *b),
    decreases a,
{
    match (a, b) {
        (MIRTypeInner::UnknownNumber, MIRTypeInner::UnknownNumber) => true,
        (MIRTypeInner::NotConstructed, MIRTypeInner::NotConstructed) => true,
        (MIRTypeInner::I32, MIRTypeInner::I32) => true,
        (MIRTypeInner::U32, MIRTypeInner::U32) => true,
        (MIRTypeInner::Bool, MIRTypeInner::Bool) => true,
        (MIRTypeInner::Unit, MIRTypeInner::Unit) => true,
        (MIRTypeInner::String, MIRTypeInner::String) => true,
        (MIRTypeInner::Char, MIRTypeInner::Char) => true,
        (MIRTypeInner::FunctionPtr(args_a, ret_a), MIRTypeInner::FunctionPtr(args_b, ret_b)) => {
            if args_a.variadic != args_b.variadic || args_a.args.len() != args_b.args.len() {
                return false;
            }
            let mut i: usize = 0;
            while i < args_a.args.len()
                invariant
                    i <= args_a.args@.len(),
                    args_a.args@.len() == args_b.args@.len(),
                    forall|j: int| 0 <= j < i ==> same_type(#[trigger] args_a.args@[j], args_b.args@[j]),
                    *a == MIRTypeInner::FunctionPtr(*args_a, *ret_a),
                    *b == MIRTypeInner::FunctionPtr(*args_b, *ret_b),
                decreases args_a.args@.len() - i,
            {
                assert(decreases_to!(*a => (*a)->FunctionPtr_0));
                assert(decreases_to!((*a)->FunctionPtr_0 => ((*a)->FunctionPtr_0).args));
                assert(decreases_to!(args_a.args => args_a.args@));
                assert(decreases_to!(args_a.args@ => args_a.args@[i as int]));
                if !types_same(&args_a.args[i], &args_b.args[i]) {
                    return false;
                }
                i = i + 1;
            }
            types_same(ret_a, ret_b)
        },
        (MIRTypeInner::Named(x), MIRTypeInner::Named(y)) => x.eq(y),
        (MIRTypeInner::Ref(x), MIRTypeInner::Ref(y)) => types_same(x, y),
        (MIRTypeInner::Array(x), MIRTypeInner::Array(y)) => types_same(x, y),
        (MIRTypeInner::ArrayFixed(x, n), MIRTypeInner::ArrayFixed(y, m)) => *n == *m && types_same(
            x,
            y,
        ),
        _ => false,
    }
}

/// Checks if two types could match (considering inference).
/// `from` is the expected type (e.g., a function argument or a variable) and
/// `to` is the type of the value given for it.
pub fn types_could_match_ordered(from: &MIRTypeInner, to: &MIRTypeInner) -> (res: bool)
    ensures
        res == spec_types_could_match_ordered(*from, *to),
    decreases from,
{
    if types_same(from, to) {
        return true;
    }
    match (from, to) {
        (MIRTypeInner::UnknownNumber, MIRTypeInner::I32)
        | (MIRTypeInner::UnknownNumber, MIRTypeInner::U32)
        | (MIRTypeInner::I32, MIRTypeInner::UnknownNumber)
        | (MIRTypeInner::U32, MIRTypeInner::UnknownNumber)
        | (MIRTypeInner::NotConstructed, _)
        | (_, MIRTypeInner::NotConstructed) => true,
        (MIRTypeInner::Array(a), MIRTypeInner::ArrayFixed(b, _)) => types_could_match_ordered(a, b),
        (MIRTypeInner::Array(a), MIRTypeInner::Array(b)) => types_could_match_ordered(a, b),
        (MIRTypeInner::ArrayFixed(a, n), MIRTypeInner::ArrayFixed(b, m)) => *n == *m
            && types_could_match_ordered(a, b),
        _ => false,
    }
}

/// Checks if two types could match (considering inference), in either
/// direction. This is true in more cases than [`types_could_match_ordered`],
/// and is used to detect conflicts.
pub fn types_could_match(from: &MIRTypeInner, to: &MIRTypeInner) -> (res: bool)
    ensures
        res == spec_types_could_match(*from, *to),
    decreases from,
{
    if types_same(from, to) {
        return true;
    }
    match (from, to) {
        (MIRTypeInner::UnknownNumber, MIRTypeInner::I32)
        | (MIRTypeInner::UnknownNumber, MIRTypeInner::U32)
        | (MIRTypeInner::I32, MIRTypeInner::UnknownNumber)
        | (MIRTypeInner::U32, MIRTypeInner::UnknownNumber)
        | (MIRTypeInner::NotConstructed, _)
        | (_, MIRTypeInner::NotConstructed) => true,
        (MIRTypeInner::ArrayFixed(a, _), MIRTypeInner::Array(b)) => types_could_match(a, b),
        (MIRTypeInner::Array(a), MIRTypeInner::ArrayFixed(b, _)) => types_could_match(a, b),
        (MIRTypeInner::Array(a), MIRTypeInner::Array(b)) => types_could_match(a, b),
        (MIRTypeInner::ArrayFixed(a, n), MIRTypeInner::ArrayFixed(b, m)) => *n == *m
            && types_could_match(a, b),
        _ => false,
    }
}

/// Matching is symmetric: if `a` could match `b`, then `b` could match `a`.
pub proof fn lemma_types_could_match_symmetric(a: MIRTypeInner, b: MIRTypeInner)
    ensures
        spec_types_could_match(a, b) == spec_types_could_match(b, a),
    decreases a,
{
    if same_type(a, b) {
        lemma_same_type_symm(a, b);
    } else if same_type(b, a) {
        lemma_same_type_symm(b, a);
    } else {
        match (a, b) {
            (MIRTypeInner::Array(x), MIRTypeInner::Array(y)) => lemma_types_could_match_symmetric(*x, *y),
            (MIRTypeInner::Array(x), MIRTypeInner::ArrayFixed(y, _)) => lemma_types_could_match_symmetric(*x, *y),
            (MIRTypeInner::ArrayFixed(x, _), MIRTypeInner::Array(y)) => lemma_types_could_match_symmetric(*x, *y),
            (MIRTypeInner::ArrayFixed(x, _), MIRTypeInner::ArrayFixed(y, _)) => lemma_types_could_match_symmetric(*x, *y),
            _ => {},
        }
    }
}

/// Every type could match itself, in both the ordered and the unordered sense.
pub proof fn lemma_types_could_match_reflexive(a: MIRTypeInner)
    ensures
        spec_types_could_match(a, a),
        spec_types_could_match_ordered(a, a),
{
    lemma_same_type_refl(a);
}

/// A match in the ordered sense is also a match in the unordered sense.
pub proof fn lemma_types_could_match_ordered_implies_unordered(from: MIRTypeInner, to: MIRTypeInner)
    requires
        spec_types_could_match_ordered(from, to),
    ensures
        spec_types_could_match(from, to),
    decreases from,
{
    if !same_type(from, to) {
        match (from, to) {
            (MIRTypeInner::Array(x), MIRTypeInner::Array(y)) => lemma_types_could_match_ordered_implies_unordered(*x, *y),
            (MIRTypeInner::Array(x), MIRTypeInner::ArrayFixed(y, _)) => lemma_types_could_match_ordered_implies_unordered(*x, *y),
            (MIRTypeInner::ArrayFixed(x, _), MIRTypeInner::ArrayFixed(y, _)) => lemma_types_could_match_ordered_implies_unordered(*x, *y),
            _ => {},
        }
    }
}

} // verus!
