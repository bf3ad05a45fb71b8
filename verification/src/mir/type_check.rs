//! Type checking: every expression gets a type, unresolved number types are
//! resolved against their context, and mismatches become errors.

use super::eq::{lemma_same_type_view, lemma_types_view_index, type_eq};
use super::overloads::{count_compatible_in, first_compatible_in, spec_args_compatible};
use super::types::spec_types_could_match;
use super::expr::{call_size, expr_size, exprs_size, inner_size, lemma_exprs_size_elems};
use super::view::{
    exprs_view, lemma_exprs_view_index, lemma_exprs_view_push, lemma_stmts_size_elems,
    lemma_stmts_view_index, lemma_stmts_view_push, opt_ty_view, stmt_size, stmts_size, stmts_view,
    type_view, types_view, ArgsV, CallV, ExprV, InnerV, SourceV, SpanV, StmtV, TyV, TypeV, VarV,
};
use super::{
    FunctionOverloads, MIRConstant, MIRExpression, MIRExpressionInner, MIRFnCall, MIRFnSource,
    MIRFunction, MIRFunctionArgs, MIRFunctionKey, MIRProgram, MIRStatement, MIRStatic, MIRType,
    MIRTypeInner, MIRVariable,
};
use crate::parser::span::Span;
use crate::targets::Target;
use vstd::prelude::*;
use vstd::seq::axiom_seq_len_decreases;

verus! {

// ---------------------------------------------------------------------------
// Copies that keep the model
// ---------------------------------------------------------------------------

/// A copy of a type.
pub fn copy_type(t: &MIRTypeInner) -> (res: MIRTypeInner)
    ensures
        res@ == t@,
{
    let res = t.clone();
    proof {
        lemma_same_type_view(res, *t);
    }
    res
}

/// A copy of an argument list.
pub fn copy_args(a: &MIRFunctionArgs) -> (res: MIRFunctionArgs)
    ensures
        res@ == a@,
{
    let mut args: Vec<MIRTypeInner> = Vec::new();
    let mut i: usize = 0;
    while i < a.args.len()
        invariant
            i <= a.args@.len(),
            args@.len() == i,
            forall|j: int| 0 <= j < i ==> (#[trigger] args@[j])@ == a.args@[j]@,
        decreases a.args@.len() - i,
    {
        args.push(copy_type(&a.args[i]));
        i = i + 1;
    }
    proof {
        lemma_types_view_index(args@);
        lemma_types_view_index(a.args@);
        assert(types_view(args@) =~= types_view(a.args@));
    }
    MIRFunctionArgs { args, variadic: a.variadic }
}

/// A copy of a type with its span.
pub fn copy_ty(t: &MIRType) -> (res: MIRType)
    ensures
        res@ == t@,
{
    let span = match &t.span {
        Some(s) => Some(s.clone()),
        None => None,
    };
    MIRType { ty: copy_type(&t.ty), span }
}

/// Viewing a sequence with one more type pushes that type's view.
pub proof fn lemma_types_view_push(s: Seq<MIRTypeInner>, x: MIRTypeInner)
    ensures
        types_view(s.push(x)) == types_view(s).push(x@),
{
    assert(s.push(x).drop_last() =~= s);
}

// ---------------------------------------------------------------------------
// Unification
// ---------------------------------------------------------------------------

/// The type that two types agree on once inference has run, or `None` when
/// they can't agree. Equal types agree on themselves; an unresolved number
/// becomes a 32-bit integer; an unconstructed type becomes the other type;
/// an unsized and a fixed-size array agree on the constructor of the second
/// type (with their element types unified); fixed sizes must be equal; and
/// function pointers unify their return types and arguments pairwise.
pub open spec fn unify(a: TypeV, b: TypeV) -> Option<TypeV>
    decreases a, 0nat,
{
    if a == b {
        Some(a)
    } else if a is UnknownNumber && (b is I32 || b is U32) {
        Some(b)
    } else if (a is I32 || a is U32) && b is UnknownNumber {
        Some(a)
    } else if a is NotConstructed {
        Some(b)
    } else if b is NotConstructed {
        Some(a)
    } else {
        match a {
            TypeV::Array(x) => match b {
                TypeV::ArrayFixed(y, n) => match unify(*x, *y) {
                    Some(t) => Some(TypeV::ArrayFixed(Box::new(t), n)),
                    None => None,
                },
                TypeV::Array(y) => match unify(*x, *y) {
                    Some(t) => Some(TypeV::Array(Box::new(t))),
                    None => None,
                },
                _ => None,
            },
            TypeV::ArrayFixed(x, n) => match b {
                TypeV::Array(y) => match unify(*x, *y) {
                    Some(t) => Some(TypeV::Array(Box::new(t))),
                    None => None,
                },
                TypeV::ArrayFixed(y, m) => if n == m {
                    match unify(*x, *y) {
                        Some(t) => Some(TypeV::ArrayFixed(Box::new(t), n)),
                        None => None,
                    }
                } else {
                    None
                },
                _ => None,
            },
            TypeV::FunctionPtr(xa, xr) => match b {
                TypeV::FunctionPtr(ya, yr) => if xa.args.len() != ya.args.len() || xa.variadic
                    != ya.variadic {
                    None
                } else {
                    match (unify(*xr, *yr), unify_all(xa.args, ya.args)) {
                        (Some(r), Some(s)) => Some(
                            TypeV::FunctionPtr(ArgsV { args: s, variadic: xa.variadic }, Box::new(r)),
                        ),
                        _ => None,
                    }
                },
                _ => None,
            },
            _ => None,
        }
    }
}

/// Unifies two equally long lists of types pairwise; `None` if any pair
/// can't agree.
pub open spec fn unify_all(xs: Seq<TypeV>, ys: Seq<TypeV>) -> Option<Seq<TypeV>>
    decreases xs, xs.len(),
{
    if xs.len() == 0 || ys.len() == 0 {
        Some(Seq::empty())
    } else {
        proof {
            axiom_seq_len_decreases(xs, xs.drop_last());
        }
        match (unify_all(xs.drop_last(), ys.drop_last()), unify(xs.last(), ys.last())) {
            (Some(s), Some(t)) => Some(s.push(t)),
            _ => None,
        }
    }
}

/// Whether a type is one of the 32-bit integers.
fn is_int32(t: &MIRTypeInner) -> (res: bool)
    ensures
        res == (t@ is I32 || t@ is U32),
{
    match t {
        MIRTypeInner::I32 | MIRTypeInner::U32 => true,
        _ => false,
    }
}

/// Computes [`unify`] of two types.
fn unified(a: &MIRTypeInner, b: &MIRTypeInner) -> (res: Option<MIRTypeInner>)
    ensures
        match (res, unify(a@, b@)) {
            (Some(t), Some(u)) => t@ == u,
            (None, None) => true,
            _ => false,
        },
    decreases a,
{
    if type_eq(a, b) {
        return Some(copy_type(a));
    }
    if matches!(a, MIRTypeInner::UnknownNumber) && is_int32(b) {
        return Some(copy_type(b));
    }
    if is_int32(a) && matches!(b, MIRTypeInner::UnknownNumber) {
        return Some(copy_type(a));
    }
    if matches!(a, MIRTypeInner::NotConstructed) {
        return Some(copy_type(b));
    }
    if matches!(b, MIRTypeInner::NotConstructed) {
        return Some(copy_type(a));
    }
    match a {
        MIRTypeInner::Array(x) => match b {
            MIRTypeInner::ArrayFixed(y, n) => match unified(x, y) {
                Some(t) => Some(MIRTypeInner::ArrayFixed(Box::new(t), *n)),
                None => None,
            },
            MIRTypeInner::Array(y) => match unified(x, y) {
                Some(t) => Some(MIRTypeInner::Array(Box::new(t))),
                None => None,
            },
            _ => None,
        },
        MIRTypeInner::ArrayFixed(x, n) => match b {
            MIRTypeInner::Array(y) => match unified(x, y) {
                Some(t) => Some(MIRTypeInner::Array(Box::new(t))),
                None => None,
            },
            MIRTypeInner::ArrayFixed(y, m) => {
                if *n != *m {
                    return None;
                }
                match unified(x, y) {
                    Some(t) => Some(MIRTypeInner::ArrayFixed(Box::new(t), *n)),
                    None => None,
                }
            },
            _ => None,
        },
        MIRTypeInner::FunctionPtr(xa, xr) => match b {
            MIRTypeInner::FunctionPtr(ya, yr) => {
                proof {
                    lemma_types_view_index(xa.args@);
                    lemma_types_view_index(ya.args@);
                }
                if xa.args.len() != ya.args.len() || xa.variadic != ya.variadic {
                    return None;
                }
                let ret = unified(xr, yr);
                let ghost xs = types_view(xa.args@);
                let ghost ys = types_view(ya.args@);
                proof {
                    lemma_types_view_index(xa.args@);
                    lemma_types_view_index(ya.args@);
                    assert(xs.take(0) =~= Seq::<TypeV>::empty());
                }
                let mut out: Vec<MIRTypeInner> = Vec::new();
                let mut ok = true;
                let mut i: usize = 0;
                while i < xa.args.len()
                    invariant
                        i <= xa.args@.len(),
                        xa.args@.len() == ya.args@.len(),
                        xs == types_view(xa.args@),
                        ys == types_view(ya.args@),
                        xs.len() == xa.args@.len(),
                        ys.len() == ya.args@.len(),
                        forall|j: int| 0 <= j < xs.len() ==> #[trigger] xs[j] == xa.args@[j]@,
                        forall|j: int| 0 <= j < ys.len() ==> #[trigger] ys[j] == ya.args@[j]@,
                        *a == MIRTypeInner::FunctionPtr(*xa, *xr),
                        ok == unify_all(xs.take(i as int), ys.take(i as int)) is Some,
                        ok ==> unify_all(xs.take(i as int), ys.take(i as int)) == Some(
                            types_view(out@),
                        ),
                    decreases xa.args@.len() - i,
                {
                    assert(decreases_to!(*a => (*a)->FunctionPtr_0));
                    assert(decreases_to!((*a)->FunctionPtr_0 => ((*a)->FunctionPtr_0).args));
                    assert(decreases_to!(xa.args => xa.args@));
                    assert(decreases_to!(xa.args@ => xa.args@[i as int]));
                    assert(decreases_to!(*a => xa.args@[i as int]));
                    assert(xs.take(i as int + 1).drop_last() =~= xs.take(i as int));
                    assert(ys.take(i as int + 1).drop_last() =~= ys.take(i as int));
                    assert(xs.take(i as int + 1).last() == xs[i as int]);
                    assert(ys.take(i as int + 1).last() == ys[i as int]);
                    if ok {
                        match unified(&xa.args[i], &ya.args[i]) {
                            Some(t) => {
                                proof {
                                    lemma_types_view_push(out@, t);
                                }
                                out.push(t);
                            },
                            None => {
                                ok = false;
                            },
                        }
                    }
                    i = i + 1;
                }
                assert(xs.take(xs.len() as int) =~= xs);
                assert(ys.take(ys.len() as int) =~= ys);
                match ret {
                    Some(r) => {
                        if ok {
                            Some(
                                MIRTypeInner::FunctionPtr(
                                    MIRFunctionArgs { args: out, variadic: xa.variadic },
                                    Box::new(r),
                                ),
                            )
                        } else {
                            None
                        }
                    },
                    None => None,
                }
            },
            _ => None,
        },
        _ => None,
    }
}

/// Makes two types equal if inference allows it: returns whether they could
/// agree and, if so, sets both to the type they agree on (so that afterwards
/// the two types are equal). Types that can't agree are left as they were.
pub fn types_equal_inner(ty1: &mut MIRTypeInner, ty2: &mut MIRTypeInner) -> (res: bool)
    ensures
        res == unify(old(ty1)@, old(ty2)@) is Some,
        res ==> final(ty1)@ == unify(old(ty1)@, old(ty2)@)->0,
        res ==> final(ty2)@ == final(ty1)@,
        !res ==> *final(ty1) == *old(ty1) && *final(ty2) == *old(ty2),
{
    match unified(ty1, ty2) {
        Some(t) => {
            *ty1 = copy_type(&t);
            *ty2 = t;
            true
        },
        None => false,
    }
}

// ---------------------------------------------------------------------------
// Target representation of types
// ---------------------------------------------------------------------------

/// A type as the target represents it: where the target stores strings as
/// character arrays, every string type (also inside arrays, references and
/// function pointers) becomes an array of characters. `None` if the type
/// names a struct, which no target supports yet.
pub open spec fn convert(sca: bool, t: TypeV) -> Option<TypeV>
    decreases t, 0nat,
{
    match t {
        TypeV::String => if sca {
            Some(TypeV::Array(Box::new(TypeV::Char)))
        } else {
            Some(TypeV::String)
        },
        TypeV::Array(x) => match convert(sca, *x) {
            Some(y) => Some(TypeV::Array(Box::new(y))),
            None => None,
        },
        TypeV::ArrayFixed(x, n) => match convert(sca, *x) {
            Some(y) => Some(TypeV::ArrayFixed(Box::new(y), n)),
            None => None,
        },
        TypeV::Ref(x) => match convert(sca, *x) {
            Some(y) => Some(TypeV::Ref(Box::new(y))),
            None => None,
        },
        TypeV::FunctionPtr(a, r) => match (convert_all(sca, a.args), convert(sca, *r)) {
            (Some(xs), Some(y)) => Some(
                TypeV::FunctionPtr(ArgsV { args: xs, variadic: a.variadic }, Box::new(y)),
            ),
            _ => None,
        },
        TypeV::Named(_) => None,
        _ => Some(t),
    }
}

/// [`convert`] applied to each type of a list; `None` if any fails.
pub open spec fn convert_all(sca: bool, s: Seq<TypeV>) -> Option<Seq<TypeV>>
    decreases s, s.len(),
{
    if s.len() == 0 {
        Some(Seq::empty())
    } else {
        proof {
            axiom_seq_len_decreases(s, s.drop_last());
        }
        match (convert_all(sca, s.drop_last()), convert(sca, s.last())) {
            (Some(p), Some(x)) => Some(p.push(x)),
            _ => None,
        }
    }
}

/// Computes [`convert`] of a type.
fn converted(sca: bool, t: &MIRTypeInner) -> (res: Option<MIRTypeInner>)
    ensures
        match (res, convert(sca, t@)) {
            (Some(x), Some(y)) => x@ == y,
            (None, None) => true,
            _ => false,
        },
    decreases t,
{
    match t {
        MIRTypeInner::String => if sca {
            let c = MIRTypeInner::Char;
            assert(c@ == TypeV::Char);
            Some(MIRTypeInner::Array(Box::new(c)))
        } else {
            Some(MIRTypeInner::String)
        },
        MIRTypeInner::Array(x) => match converted(sca, x) {
            Some(y) => Some(MIRTypeInner::Array(Box::new(y))),
            None => None,
        },
        MIRTypeInner::ArrayFixed(x, n) => match converted(sca, x) {
            Some(y) => Some(MIRTypeInner::ArrayFixed(Box::new(y), *n)),
            None => None,
        },
        MIRTypeInner::Ref(x) => match converted(sca, x) {
            Some(y) => Some(MIRTypeInner::Ref(Box::new(y))),
            None => None,
        },
        MIRTypeInner::FunctionPtr(a, r) => {
            let ghost xs = types_view(a.args@);
            proof {
                lemma_types_view_index(a.args@);
                assert(xs.take(0) =~= Seq::<TypeV>::empty());
            }
            let mut out: Vec<MIRTypeInner> = Vec::new();
            let mut ok = true;
            let mut i: usize = 0;
            while i < a.args.len()
                invariant
                    i <= a.args@.len(),
                    xs == types_view(a.args@),
                    xs.len() == a.args@.len(),
                    forall|j: int| 0 <= j < xs.len() ==> #[trigger] xs[j] == a.args@[j]@,
                    *t == MIRTypeInner::FunctionPtr(*a, *r),
                    ok == convert_all(sca, xs.take(i as int)) is Some,
                    ok ==> convert_all(sca, xs.take(i as int)) == Some(types_view(out@)),
                decreases a.args@.len() - i,
            {
                assert(decreases_to!(*t => (*t)->FunctionPtr_0));
                assert(decreases_to!((*t)->FunctionPtr_0 => ((*t)->FunctionPtr_0).args));
                assert(decreases_to!(a.args => a.args@));
                assert(decreases_to!(a.args@ => a.args@[i as int]));
                assert(decreases_to!(*t => a.args@[i as int]));
                assert(xs.take(i as int + 1).drop_last() =~= xs.take(i as int));
                assert(xs.take(i as int + 1).last() == xs[i as int]);
                if ok {
                    match converted(sca, &a.args[i]) {
                        Some(x) => {
                            proof {
                                lemma_types_view_push(out@, x);
                            }
                            out.push(x);
                        },
                        None => {
                            ok = false;
                        },
                    }
                }
                i = i + 1;
            }
            assert(xs.take(xs.len() as int) =~= xs);
            assert(t@ == TypeV::FunctionPtr(a@, Box::new(r@)));
            match converted(sca, r) {
                Some(y) => if ok {
                    Some(
                        MIRTypeInner::FunctionPtr(
                            MIRFunctionArgs { args: out, variadic: a.variadic },
                            Box::new(y),
                        ),
                    )
                } else {
                    None
                },
                None => None,
            }
        },
        MIRTypeInner::Named(_) => None,
        _ => Some(copy_type(t)),
    }
}

/// Converts a type to the target's representation of it (see [`convert`]).
/// Returns false, leaving the type as it was, when the type names a struct,
/// which no target supports yet.
pub fn convert_types<T: Target>(target: &T, ty: &mut MIRTypeInner) -> (res: bool)
    ensures
        res == convert(target.spec_str_char_arr(), old(ty)@) is Some,
        res ==> final(ty)@ == convert(target.spec_str_char_arr(), old(ty)@)->0,
        !res ==> *final(ty) == *old(ty),
{
    match converted(target.str_char_arr(), ty) {
        Some(t) => {
            *ty = t;
            true
        },
        None => false,
    }
}

// ---------------------------------------------------------------------------
// Function types
// ---------------------------------------------------------------------------

/// The type of a function as a function pointer, at the function's span.
pub open spec fn fn_type(f: MIRFunction) -> TyV {
    TyV {
        ty: TypeV::FunctionPtr(f.args_ty@, Box::new(f.ret_ty.ty@)),
        span: Some(f.span@),
    }
}

/// Gets the type for a function as a function pointer.
pub fn get_fn_type(fn_data: &MIRFunction) -> (res: MIRType)
    ensures
        res@ == fn_type(*fn_data),
{
    MIRType {
        ty: MIRTypeInner::FunctionPtr(
            copy_args(&fn_data.args_ty),
            Box::new(copy_type(&fn_data.ret_ty.ty)),
        ),
        span: Some(fn_data.span.clone()),
    }
}

// ---------------------------------------------------------------------------
// Overload resolution on modelled types
// ---------------------------------------------------------------------------

/// [`spec_types_could_match`] on the models of the two types.
pub open spec fn could_match_v(from: TypeV, to: TypeV) -> bool
    decreases from,
{
    if from == to {
        true
    } else {
        match from {
            TypeV::UnknownNumber => to is I32 || to is U32 || to is NotConstructed,
            TypeV::I32 | TypeV::U32 => to is UnknownNumber || to is NotConstructed,
            TypeV::NotConstructed => true,
            TypeV::Array(a) => match to {
                TypeV::NotConstructed => true,
                TypeV::Array(b) => could_match_v(*a, *b),
                TypeV::ArrayFixed(b, _) => could_match_v(*a, *b),
                _ => false,
            },
            TypeV::ArrayFixed(a, n) => match to {
                TypeV::NotConstructed => true,
                TypeV::Array(b) => could_match_v(*a, *b),
                TypeV::ArrayFixed(b, m) => n == m && could_match_v(*a, *b),
                _ => false,
            },
            _ => to is NotConstructed,
        }
    }
}

/// [`spec_args_compatible`] for call arguments given by their models.
pub open spec fn args_compatible_v(func_args: MIRFunctionArgs, call: Seq<TypeV>) -> bool {
    let fixed = func_args.args@.len();
    &&& if func_args.variadic {
        call.len() >= fixed
    } else {
        call.len() == fixed
    }
    &&& forall|i: int| 0 <= i < fixed ==> could_match_v(#[trigger] func_args.args@[i]@, call[i])
}

/// [`count_compatible_in`] for call arguments given by their models.
pub open spec fn count_compatible_v(
    s: Seq<(MIRFunctionArgs, MIRFunctionKey)>,
    call: Seq<TypeV>,
) -> nat
    decreases s.len(),
{
    if s.len() == 0 {
        0
    } else {
        count_compatible_v(s.drop_last(), call) + if args_compatible_v(s.last().0, call) {
            1nat
        } else {
            0nat
        }
    }
}

/// [`first_compatible_in`] for call arguments given by their models.
pub open spec fn first_compatible_v(
    s: Seq<(MIRFunctionArgs, MIRFunctionKey)>,
    call: Seq<TypeV>,
) -> Option<MIRFunctionKey>
    decreases s.len(),
{
    if s.len() == 0 {
        None
    } else if args_compatible_v(s[0].0, call) {
        Some(s[0].1)
    } else {
        first_compatible_v(s.drop_first(), call)
    }
}

/// Whether two types could match depends on their models only.
pub proof fn lemma_could_match_view(a: MIRTypeInner, b: MIRTypeInner)
    ensures
        spec_types_could_match(a, b) == could_match_v(a@, b@),
    decreases a,
{
    lemma_same_type_view(a, b);
    match (a, b) {
        (MIRTypeInner::Array(x), MIRTypeInner::Array(y)) => lemma_could_match_view(*x, *y),
        (MIRTypeInner::Array(x), MIRTypeInner::ArrayFixed(y, _)) => lemma_could_match_view(*x, *y),
        (MIRTypeInner::ArrayFixed(x, _), MIRTypeInner::Array(y)) => lemma_could_match_view(*x, *y),
        (MIRTypeInner::ArrayFixed(x, _), MIRTypeInner::ArrayFixed(y, _)) => lemma_could_match_view(
            *x,
            *y,
        ),
        _ => {},
    }
}

/// Overload resolution depends on the models of the call's argument types only.
pub proof fn lemma_compatible_view(
    s: Seq<(MIRFunctionArgs, MIRFunctionKey)>,
    c: Seq<MIRTypeInner>,
    call: Seq<TypeV>,
)
    requires
        types_view(c) == call,
    ensures
        count_compatible_in(s, c) == count_compatible_v(s, call),
        first_compatible_in(s, c) == first_compatible_v(s, call),
    decreases s.len(),
{
    lemma_types_view_index(c);
    assert forall|f: MIRFunctionArgs| #[trigger] spec_args_compatible(f, c) == args_compatible_v(f, call) by {
        assert forall|i: int| 0 <= i < f.args@.len() && i < c.len() implies #[trigger] spec_types_could_match(
            f.args@[i],
            c[i],
        ) == could_match_v(f.args@[i]@, call[i]) by {
            lemma_could_match_view(f.args@[i], c[i]);
        }
    }
    if s.len() > 0 {
        lemma_compatible_view(s.drop_last(), c, call);
        lemma_compatible_view(s.drop_first(), c, call);
    }
}

// ---------------------------------------------------------------------------
// Names of the program and of the scope
// ---------------------------------------------------------------------------

/// The index of the first name of `names` equal to `name`.
pub open spec fn first_index_of(names: Seq<Seq<char>>, name: Seq<char>) -> Option<int>
    decreases names.len(),
{
    if names.len() == 0 {
        None
    } else if names[0] == name {
        Some(0)
    } else {
        match first_index_of(names.drop_first(), name) {
            Some(i) => Some(i + 1),
            None => None,
        }
    }
}

/// The index of the last name of `names` equal to `name`.
pub open spec fn last_index_of(names: Seq<Seq<char>>, name: Seq<char>) -> Option<int>
    decreases names.len(),
{
    if names.len() == 0 {
        None
    } else if names.last() == name {
        Some(names.len() - 1)
    } else {
        last_index_of(names.drop_last(), name)
    }
}

/// The first occurrence, if all earlier names differ.
pub(crate) proof fn lemma_first_index_at(names: Seq<Seq<char>>, name: Seq<char>, i: int)
    requires
        0 <= i < names.len(),
        names[i] == name,
        forall|j: int| 0 <= j < i ==> names[j] != name,
    ensures
        first_index_of(names, name) == Some(i),
    decreases i,
{
    if i > 0 {
        lemma_first_index_at(names.drop_first(), name, i - 1);
    }
}

/// A first occurrence found is an occurrence.
pub(crate) proof fn lemma_first_index_found(names: Seq<Seq<char>>, name: Seq<char>)
    ensures
        first_index_of(names, name) matches Some(j) ==> 0 <= j < names.len() && names[j] == name,
    decreases names.len(),
{
    if names.len() > 0 {
        lemma_first_index_found(names.drop_first(), name);
    }
}

/// No occurrence, if all names differ.
pub(crate) proof fn lemma_first_index_none(names: Seq<Seq<char>>, name: Seq<char>)
    requires
        forall|j: int| 0 <= j < names.len() ==> names[j] != name,
    ensures
        first_index_of(names, name) is None,
    decreases names.len(),
{
    if names.len() > 0 {
        lemma_first_index_none(names.drop_first(), name);
    }
}

/// The last occurrence, if all later names differ.
proof fn lemma_last_index_at(names: Seq<Seq<char>>, name: Seq<char>, i: int)
    requires
        0 <= i < names.len(),
        names[i] == name,
        forall|j: int| i < j < names.len() ==> names[j] != name,
    ensures
        last_index_of(names, name) == Some(i),
    decreases names.len(),
{
    if i < names.len() - 1 {
        lemma_last_index_at(names.drop_last(), name, i);
    }
}

/// No occurrence, if all names differ.
proof fn lemma_last_index_none(names: Seq<Seq<char>>, name: Seq<char>)
    requires
        forall|j: int| 0 <= j < names.len() ==> names[j] != name,
    ensures
        last_index_of(names, name) is None,
    decreases names.len(),
{
    if names.len() > 0 {
        lemma_last_index_none(names.drop_last(), name);
    }
}

/// A name with its type.
pub type Typed = (Seq<char>, TyV);

/// The names of a list of typed names.
pub open spec fn names_of(s: Seq<Typed>) -> Seq<Seq<char>> {
    s.map_values(|x: Typed| x.0)
}

/// The variables of a scope, as names with types.
pub open spec fn typed_vars(s: Seq<MIRVariable>) -> Seq<Typed> {
    s.map_values(|v: MIRVariable| (v.name@, v.ty@))
}

/// The constants of a program, as names with types.
pub open spec fn typed_consts(s: Seq<MIRConstant>) -> Seq<Typed> {
    s.map_values(|c: MIRConstant| (c.name@, c.ty@))
}

/// The statics of a program, as names with types.
pub open spec fn typed_statics(s: Seq<MIRStatic>) -> Seq<Typed> {
    s.map_values(|c: MIRStatic| (c.name@, c.ty@))
}

/// The overloads of each function name of a program.
pub open spec fn overload_lists(s: Seq<(String, super::FunctionOverloads)>) -> Seq<
    (Seq<char>, Seq<(MIRFunctionArgs, MIRFunctionKey)>),
> {
    s.map_values(|c: (String, super::FunctionOverloads)| (c.0@, c.1@))
}

/// The type of each function of a program.
pub open spec fn fn_types(s: Seq<MIRFunction>) -> Seq<TyV> {
    s.map_values(|f: MIRFunction| fn_type(f))
}

/// What a type check can see: the names and types of the variables in scope
/// (innermost last), constants and statics, the overloads of each function
/// name, the type of each function, and how the target stores strings.
pub struct CheckEnv {
    pub vars: Seq<Typed>,
    pub consts: Seq<Typed>,
    pub statics: Seq<Typed>,
    pub overloads: Seq<(Seq<char>, Seq<(MIRFunctionArgs, MIRFunctionKey)>)>,
    pub fn_types: Seq<TyV>,
    pub sca: bool,
}

/// What a type check of an expression of `p` sees with `vars` in scope.
pub open spec fn env_of(p: MIRProgram, sca: bool, vars: Seq<MIRVariable>) -> CheckEnv {
    CheckEnv {
        vars: typed_vars(vars),
        consts: typed_consts(p.constants@),
        statics: typed_statics(p.statics@),
        overloads: overload_lists(p.function_names@),
        fn_types: fn_types(p.functions@),
        sca,
    }
}

/// The type a name has as a value: that of the innermost variable in scope,
/// else that of the constant, else that of the static of that name.
pub open spec fn name_type(env: CheckEnv, name: Seq<char>) -> Option<TyV> {
    match last_index_of(names_of(env.vars), name) {
        Some(i) => Some(env.vars[i].1),
        None => match first_index_of(names_of(env.consts), name) {
            Some(i) => Some(env.consts[i].1),
            None => match first_index_of(names_of(env.statics), name) {
                Some(i) => Some(env.statics[i].1),
                None => None,
            },
        },
    }
}

/// The overloads of a function name, if there's an entry for it.
pub open spec fn overloads_of(env: CheckEnv, name: Seq<char>) -> Option<
    Seq<(MIRFunctionArgs, MIRFunctionKey)>,
> {
    match first_index_of(overload_lists_names(env.overloads), name) {
        Some(i) => Some(env.overloads[i].1),
        None => None,
    }
}

/// The names that have overloads.
pub open spec fn overload_lists_names(s: Seq<(Seq<char>, Seq<(MIRFunctionArgs, MIRFunctionKey)>)>) -> Seq<
    Seq<char>,
> {
    s.map_values(|x: (Seq<char>, Seq<(MIRFunctionArgs, MIRFunctionKey)>)| x.0)
}

// ---------------------------------------------------------------------------
// Errors
// ---------------------------------------------------------------------------

/// The operators whose operands must have the same type.
#[derive(Debug, Clone, Copy, PartialEq, Eq, Structural)]
pub enum Operator {
    Addition,
    Subtraction,
    Multiplication,
    Division,
    Equals,
    NotEquals,
    LessThan,
    GreaterThan,
    LessThanOrEquals,
    GreaterThanOrEquals,
    BinaryAnd,
    BinaryOr,
    Conditional,
}

/// Why a program doesn't type check.
#[derive(Debug)]
pub enum TypeError {
    /// An expression has a type other than the one its context requires.
    UnexpectedType { expected: MIRType, actual: MIRType, span: Span },
    /// The operands of an operator have different types.
    OperandsDiffer { op: Operator, left: MIRType, right: MIRType, span: Span },
    /// A name that is no variable, constant or static.
    UnknownVariable { name: String, span: Span },
    /// A function used as a value without taking a reference to it.
    FunctionAsValue { span: Span },
    /// A call of a name that has no function.
    NoFunction { name: String, span: Span },
    /// A call that no overload of the name accepts.
    NoCompatibleFunction { name: String, span: Span },
    /// A call that more than one overload of the name accepts.
    AmbiguousFunction { name: String, span: Span },
    /// A reference to something that is no variable, array index or member.
    RefToNonPlace { span: Span },
    /// A dereference of something that is no reference.
    DerefNonRef { span: Span },
    /// An index into something that is no (unsized) array.
    IndexNonArray { span: Span },
    /// A construct that has no type rules yet (member access, struct types).
    Unsupported { span: Span },
    /// A variable that shadows a variable, constant or static.
    Shadowing { name: String, span: Span },
    /// An assignment to a constant.
    SetConstant { span: Span },
    /// An assignment to a function argument.
    SetArg { span: Span },
}

/// Model of a [`TypeError`].
pub enum TypeErrV {
    UnexpectedType { expected: TyV, actual: TyV, span: SpanV },
    OperandsDiffer { op: Operator, left: TyV, right: TyV, span: SpanV },
    UnknownVariable { name: Seq<char>, span: SpanV },
    FunctionAsValue { span: SpanV },
    NoFunction { name: Seq<char>, span: SpanV },
    NoCompatibleFunction { name: Seq<char>, span: SpanV },
    AmbiguousFunction { name: Seq<char>, span: SpanV },
    RefToNonPlace { span: SpanV },
    DerefNonRef { span: SpanV },
    IndexNonArray { span: SpanV },
    Unsupported { span: SpanV },
    Shadowing { name: Seq<char>, span: SpanV },
    SetConstant { span: SpanV },
    SetArg { span: SpanV },
}

impl View for TypeError {
    type V = TypeErrV;

    open spec fn view(&self) -> TypeErrV {
        match *self {
            TypeError::UnexpectedType { expected, actual, span } => TypeErrV::UnexpectedType {
                expected: expected@,
                actual: actual@,
                span: span@,
            },
            TypeError::OperandsDiffer { op, left, right, span } => TypeErrV::OperandsDiffer {
                op,
                left: left@,
                right: right@,
                span: span@,
            },
            TypeError::UnknownVariable { name, span } => TypeErrV::UnknownVariable {
                name: name@,
                span: span@,
            },
            TypeError::FunctionAsValue { span } => TypeErrV::FunctionAsValue { span: span@ },
            TypeError::NoFunction { name, span } => TypeErrV::NoFunction { name: name@, span: span@ },
            TypeError::NoCompatibleFunction { name, span } => TypeErrV::NoCompatibleFunction {
                name: name@,
                span: span@,
            },
            TypeError::AmbiguousFunction { name, span } => TypeErrV::AmbiguousFunction {
                name: name@,
                span: span@,
            },
            TypeError::RefToNonPlace { span } => TypeErrV::RefToNonPlace { span: span@ },
            TypeError::DerefNonRef { span } => TypeErrV::DerefNonRef { span: span@ },
            TypeError::IndexNonArray { span } => TypeErrV::IndexNonArray { span: span@ },
            TypeError::Unsupported { span } => TypeErrV::Unsupported { span: span@ },
            TypeError::Shadowing { name, span } => TypeErrV::Shadowing { name: name@, span: span@ },
            TypeError::SetConstant { span } => TypeErrV::SetConstant { span: span@ },
            TypeError::SetArg { span } => TypeErrV::SetArg { span: span@ },
        }
    }
}

// ---------------------------------------------------------------------------
// The type rules
// ---------------------------------------------------------------------------

/// A type written nowhere.
pub open spec fn plain(t: TypeV) -> TyV {
    TyV { ty: t, span: None }
}

/// The type a child is checked against: the one handed down, if any, else
/// the child's own.
pub open spec fn inherit(handed: Option<TyV>, own: Option<TyV>) -> Option<TyV> {
    if handed is Some {
        handed
    } else {
        own
    }
}

/// An expression with the inner part and type that checking it gave.
pub open spec fn checked(e: ExprV, r: (InnerV, TyV)) -> ExprV {
    ExprV { inner: r.0, ty: Some(r.1), span: e.span }
}

/// The types of checked expressions.
pub open spec fn tys_of(s: Seq<ExprV>) -> Seq<TypeV> {
    s.map_values(|e: ExprV| e.ty->0.ty)
}

/// The last step of checking an expression: its type as the target
/// represents it, at the expression's span, unified with the type the
/// expression had before (if any); an error if they can't agree.
pub open spec fn settle(sca: bool, ety: Option<TyV>, t: TyV, span: SpanV) -> Result<TyV, TypeErrV> {
    match convert(sca, t.ty) {
        None => Err(TypeErrV::Unsupported { span }),
        Some(c) => {
            let ty = TyV { ty: c, span: Some(span) };
            match ety {
                None => Ok(ty),
                Some(ex) => match unify(ex.ty, c) {
                    None => Err(TypeErrV::UnexpectedType { expected: ex, actual: ty, span }),
                    Some(u) => Ok(TyV { ty: u, span: Some(span) }),
                },
            }
        },
    }
}

/// Joins the checks of the two operands of an operator: the first error, or
/// both operands with their types unified (the operator's type is then that
/// of the left operand); an error if the operand types can't agree.
pub open spec fn both(
    op: Operator,
    span: SpanV,
    l: ExprV,
    r: ExprV,
    lr: Result<(InnerV, TyV), TypeErrV>,
    rr: Result<(InnerV, TyV), TypeErrV>,
) -> Result<(Box<ExprV>, Box<ExprV>, TyV), TypeErrV> {
    match lr {
        Err(e) => Err(e),
        Ok(a) => match rr {
            Err(e) => Err(e),
            Ok(b) => match unify(a.1.ty, b.1.ty) {
                None => Err(TypeErrV::OperandsDiffer { op, left: a.1, right: b.1, span }),
                Some(u) => {
                    let lt = TyV { ty: u, span: a.1.span };
                    let rt = TyV { ty: u, span: b.1.span };
                    Ok(
                        (
                            Box::new(ExprV { inner: a.0, ty: Some(lt), span: l.span }),
                            Box::new(ExprV { inner: b.0, ty: Some(rt), span: r.span }),
                            lt,
                        ),
                    )
                },
            },
        },
    }
}

/// The type a number literal has on its own: negative numbers are signed,
/// numbers above the largest `i32` are unsigned, others are unresolved.
pub open spec fn number_type(v: i128) -> TypeV {
    if v < 0 {
        TypeV::I32
    } else if v > i32::MAX {
        TypeV::U32
    } else {
        TypeV::UnknownNumber
    }
}

/// The element type handed down to the first element of an array literal
/// from the type handed down to the array.
pub open spec fn element_of(ety: Option<TyV>, own: Option<TyV>) -> Option<TyV> {
    match ety {
        Some(t) => match t.ty {
            TypeV::Array(i) => Some(TyV { ty: *i, span: t.span }),
            TypeV::ArrayFixed(i, _) => Some(TyV { ty: *i, span: t.span }),
            _ => own,
        },
        None => own,
    }
}

/// Checks an expression given by its parts, where `ety` is the type it
/// carries (written or handed down): the checked inner part and the
/// expression's type, or the first error.
pub open spec fn check_expr(env: CheckEnv, inner: InnerV, span: SpanV, ety: Option<TyV>) -> Result<
    (InnerV, TyV),
    TypeErrV,
>
    decreases inner, 2nat,
{
    match check_node(env, inner, span, ety) {
        Err(e) => Err(e),
        Ok(r) => match settle(env.sca, ety, r.1, span) {
            Err(e) => Err(e),
            Ok(t) => Ok((r.0, t)),
        },
    }
}

/// The type rule of each kind of expression, before [`settle`]. Arithmetic
/// hands the expression's type down to its operands; comparisons and logic
/// don't, and are booleans; conditions are handed `bool`; a reference or
/// dereference hands down the type without or with one more reference; an
/// array hands its element type to its first element and the first
/// element's type to the others; an index is checked before the indexed
/// array, which is handed an unsized array of the expression's type.
pub open spec fn check_node(env: CheckEnv, inner: InnerV, span: SpanV, ety: Option<TyV>) -> Result<
    (InnerV, TyV),
    TypeErrV,
>
    decreases inner, 1nat,
{
    match inner {
        InnerV::Add(l, r) => match both(
            Operator::Addition,
            span,
            *l,
            *r,
            check_expr(env, l.inner, l.span, inherit(ety, l.ty)),
            check_expr(env, r.inner, r.span, inherit(ety, r.ty)),
        ) {
            Err(e) => Err(e),
            Ok(p) => Ok((InnerV::Add(p.0, p.1), p.2)),
        },
        InnerV::Sub(l, r) => match both(
            Operator::Subtraction,
            span,
            *l,
            *r,
            check_expr(env, l.inner, l.span, inherit(ety, l.ty)),
            check_expr(env, r.inner, r.span, inherit(ety, r.ty)),
        ) {
            Err(e) => Err(e),
            Ok(p) => Ok((InnerV::Sub(p.0, p.1), p.2)),
        },
        InnerV::Mul(l, r) => match both(
            Operator::Multiplication,
            span,
            *l,
            *r,
            check_expr(env, l.inner, l.span, inherit(ety, l.ty)),
            check_expr(env, r.inner, r.span, inherit(ety, r.ty)),
        ) {
            Err(e) => Err(e),
            Ok(p) => Ok((InnerV::Mul(p.0, p.1), p.2)),
        },
        InnerV::Div(l, r) => match both(
            Operator::Division,
            span,
            *l,
            *r,
            check_expr(env, l.inner, l.span, inherit(ety, l.ty)),
            check_expr(env, r.inner, r.span, inherit(ety, r.ty)),
        ) {
            Err(e) => Err(e),
            Ok(p) => Ok((InnerV::Div(p.0, p.1), p.2)),
        },
        InnerV::Equal(l, r) => match both(
            Operator::Equals,
            span,
            *l,
            *r,
            check_expr(env, l.inner, l.span, l.ty),
            check_expr(env, r.inner, r.span, r.ty),
        ) {
            Err(e) => Err(e),
            Ok(p) => Ok((InnerV::Equal(p.0, p.1), plain(TypeV::Bool))),
        },
        InnerV::NotEqual(l, r) => match both(
            Operator::NotEquals,
            span,
            *l,
            *r,
            check_expr(env, l.inner, l.span, l.ty),
            check_expr(env, r.inner, r.span, r.ty),
        ) {
            Err(e) => Err(e),
            Ok(p) => Ok((InnerV::NotEqual(p.0, p.1), plain(TypeV::Bool))),
        },
        InnerV::Less(l, r) => match both(
            Operator::LessThan,
            span,
            *l,
            *r,
            check_expr(env, l.inner, l.span, l.ty),
            check_expr(env, r.inner, r.span, r.ty),
        ) {
            Err(e) => Err(e),
            Ok(p) => Ok((InnerV::Less(p.0, p.1), plain(TypeV::Bool))),
        },
        InnerV::Greater(l, r) => match both(
            Operator::GreaterThan,
            span,
            *l,
            *r,
            check_expr(env, l.inner, l.span, l.ty),
            check_expr(env, r.inner, r.span, r.ty),
        ) {
            Err(e) => Err(e),
            Ok(p) => Ok((InnerV::Greater(p.0, p.1), plain(TypeV::Bool))),
        },
        InnerV::LessEq(l, r) => match both(
            Operator::LessThanOrEquals,
            span,
            *l,
            *r,
            check_expr(env, l.inner, l.span, l.ty),
            check_expr(env, r.inner, r.span, r.ty),
        ) {
            Err(e) => Err(e),
            Ok(p) => Ok((InnerV::LessEq(p.0, p.1), plain(TypeV::Bool))),
        },
        InnerV::GreaterEq(l, r) => match both(
            Operator::GreaterThanOrEquals,
            span,
            *l,
            *r,
            check_expr(env, l.inner, l.span, l.ty),
            check_expr(env, r.inner, r.span, r.ty),
        ) {
            Err(e) => Err(e),
            Ok(p) => Ok((InnerV::GreaterEq(p.0, p.1), plain(TypeV::Bool))),
        },
        InnerV::BoolAnd(l, r) => match both(
            Operator::BinaryAnd,
            span,
            *l,
            *r,
            check_expr(env, l.inner, l.span, l.ty),
            check_expr(env, r.inner, r.span, r.ty),
        ) {
            Err(e) => Err(e),
            Ok(p) => Ok((InnerV::BoolAnd(p.0, p.1), plain(TypeV::Bool))),
        },
        InnerV::BoolOr(l, r) => match both(
            Operator::BinaryOr,
            span,
            *l,
            *r,
            check_expr(env, l.inner, l.span, l.ty),
            check_expr(env, r.inner, r.span, r.ty),
        ) {
            Err(e) => Err(e),
            Ok(p) => Ok((InnerV::BoolOr(p.0, p.1), plain(TypeV::Bool))),
        },
        InnerV::Variable(name, _) => match name_type(env, name) {
            Some(t) => Ok((inner, t)),
            None => match overloads_of(env, name) {
                Some(ov) => if ov.len() > 0 {
                    Err(TypeErrV::FunctionAsValue { span })
                } else {
                    Err(TypeErrV::UnknownVariable { name, span })
                },
                None => Err(TypeErrV::UnknownVariable { name, span }),
            },
        },
        InnerV::FunctionCall(c) => match check_call(env, *c) {
            Err(e) => Err(e),
            Ok(c2) => Ok((InnerV::FunctionCall(Box::new(c2)), c2.ret_ty->0)),
        },
        InnerV::Number(v) => Ok((inner, plain(number_type(v)))),
        InnerV::String(_) => Ok((inner, plain(TypeV::String))),
        InnerV::Bool(_) => Ok((inner, plain(TypeV::Bool))),
        InnerV::Char(_) => Ok((inner, plain(TypeV::Char))),
        InnerV::Unit => Ok((inner, plain(TypeV::Unit))),
        InnerV::Quine => Ok((inner, plain(TypeV::Array(Box::new(TypeV::String))))),
        InnerV::QuineLen => Ok((inner, plain(TypeV::UnknownNumber))),
        InnerV::QuineSpace => Ok((inner, plain(TypeV::Char))),
        InnerV::QuineLine => Ok((inner, plain(TypeV::Char))),
        InnerV::Member(_, _) => Err(TypeErrV::Unsupported { span }),
        InnerV::Ref(x) => if !(x.inner is Variable || x.inner is Index || x.inner is Member) {
            Err(TypeErrV::RefToNonPlace { span: x.span })
        } else {
            let handed = match ety {
                Some(t) => match t.ty {
                    TypeV::Ref(i) => Some(TyV { ty: *i, span: t.span }),
                    _ => x.ty,
                },
                None => x.ty,
            };
            match check_expr(env, x.inner, x.span, handed) {
                Err(e) => Err(e),
                Ok(a) => Ok(
                    (
                        InnerV::Ref(Box::new(checked(*x, a))),
                        TyV { ty: TypeV::Ref(Box::new(a.1.ty)), span: a.1.span },
                    ),
                ),
            }
        },
        InnerV::Deref(x) => {
            let handed = match ety {
                Some(t) => Some(TyV { ty: TypeV::Ref(Box::new(t.ty)), span: t.span }),
                None => x.ty,
            };
            match check_expr(env, x.inner, x.span, handed) {
                Err(e) => Err(e),
                Ok(a) => match a.1.ty {
                    TypeV::Ref(v) => Ok(
                        (InnerV::Deref(Box::new(checked(*x, a))), TyV { ty: *v, span: a.1.span }),
                    ),
                    _ => Err(TypeErrV::DerefNonRef { span: x.span }),
                },
            }
        },
        InnerV::Neg(x) => match check_expr(env, x.inner, x.span, inherit(ety, x.ty)) {
            Err(e) => Err(e),
            Ok(a) => Ok((InnerV::Neg(Box::new(checked(*x, a))), a.1)),
        },
        InnerV::Not(x) => match check_expr(
            env,
            x.inner,
            x.span,
            Some(TyV { ty: TypeV::Bool, span: Some(span) }),
        ) {
            Err(e) => Err(e),
            Ok(a) => Ok((InnerV::Not(Box::new(checked(*x, a))), plain(TypeV::Bool))),
        },
        InnerV::Binding(lm, x, rm) => match check_expr(env, x.inner, x.span, inherit(ety, x.ty)) {
            Err(e) => Err(e),
            Ok(a) => Ok((InnerV::Binding(lm, Box::new(checked(*x, a)), rm), a.1)),
        },
        InnerV::Ternary(c, t, f) => match check_expr(
            env,
            c.inner,
            c.span,
            Some(TyV { ty: TypeV::Bool, span: Some(span) }),
        ) {
            Err(e) => Err(e),
            Ok(a) => match both(
                Operator::Conditional,
                span,
                *t,
                *f,
                check_expr(env, t.inner, t.span, inherit(ety, t.ty)),
                check_expr(env, f.inner, f.span, inherit(ety, f.ty)),
            ) {
                Err(e) => Err(e),
                Ok(p) => Ok((InnerV::Ternary(Box::new(checked(*c, a)), p.0, p.1), p.2)),
            },
        },
        InnerV::Index(b, i) => match check_expr(env, i.inner, i.span, i.ty) {
            Err(e) => Err(e),
            Ok(ia) => {
                let it = if ia.1.ty is UnknownNumber {
                    TyV { ty: TypeV::U32, span: ia.1.span }
                } else {
                    ia.1
                };
                let handed = match ety {
                    Some(t) => Some(TyV { ty: TypeV::Array(Box::new(t.ty)), span: t.span }),
                    None => b.ty,
                };
                match check_expr(env, b.inner, b.span, handed) {
                    Err(e) => Err(e),
                    Ok(ba) => match ba.1.ty {
                        TypeV::Array(x) => Ok(
                            (
                                InnerV::Index(
                                    Box::new(checked(*b, ba)),
                                    Box::new(checked(*i, (ia.0, it))),
                                ),
                                TyV { ty: *x, span: ba.1.span },
                            ),
                        ),
                        _ => Err(TypeErrV::IndexNonArray { span: b.span }),
                    },
                }
            },
        },
        InnerV::Array(s) => array_rule(env, s, ety),
    }
}

/// The rule of an array literal: an empty array is a fixed-size array of
/// nothing; otherwise the first element is handed the element type of the
/// array's type, the others the first element's type, and the array has a
/// fixed size with the first element's type.
pub open spec fn array_rule(env: CheckEnv, s: Seq<ExprV>, ety: Option<TyV>) -> Result<
    (InnerV, TyV),
    TypeErrV,
>
    decreases s, 1nat,
{
    if s.len() == 0 {
        Ok((InnerV::Array(s), plain(TypeV::ArrayFixed(Box::new(TypeV::NotConstructed), 0))))
    } else {
        proof {
            assert(decreases_to!(s => s.subrange(1, s.len() as int)));
        }
        match check_expr(env, s[0].inner, s[0].span, element_of(ety, s[0].ty)) {
            Err(e) => Err(e),
            Ok(a) => match check_seq(env, s.subrange(1, s.len() as int), Some(a.1)) {
                Err(e) => Err(e),
                Ok(rest) => Ok(
                    (
                        InnerV::Array(seq![checked(s[0], a)] + rest),
                        plain(TypeV::ArrayFixed(Box::new(a.1.ty), s.len() as usize)),
                    ),
                ),
            },
        }
    }
}

/// Checks a list of expressions in order, each against `set` if that is
/// given, else against its own type: the checked list, or the first error.
pub open spec fn check_seq(env: CheckEnv, s: Seq<ExprV>, set: Option<TyV>) -> Result<
    Seq<ExprV>,
    TypeErrV,
>
    decreases s, 0nat,
{
    if s.len() == 0 {
        Ok(Seq::empty())
    } else {
        proof {
            axiom_seq_len_decreases(s, s.drop_last());
        }
        match check_seq(env, s.drop_last(), set) {
            Err(e) => Err(e),
            Ok(p) => match check_expr(env, s.last().inner, s.last().span, inherit(set, s.last().ty)) {
                Err(e) => Err(e),
                Ok(a) => Ok(p.push(checked(s.last(), a))),
            },
        }
    }
}

/// Unifies the types of the first `k` checked arguments with the expected
/// argument types, in order: the arguments with those types, or an error at
/// the first argument whose type can't agree.
pub open spec fn fit_prefix(
    args: Seq<ExprV>,
    expected: Seq<TypeV>,
    exp_span: Option<SpanV>,
    span: SpanV,
    k: int,
) -> Result<Seq<ExprV>, TypeErrV>
    decreases k,
{
    if k <= 0 {
        Ok(args)
    } else {
        match fit_prefix(args, expected, exp_span, span, k - 1) {
            Err(e) => Err(e),
            Ok(p) => {
                let at = args[k - 1].ty->0;
                match unify(at.ty, expected[k - 1]) {
                    None => Err(
                        TypeErrV::UnexpectedType {
                            expected: TyV { ty: expected[k - 1], span: exp_span },
                            actual: at,
                            span: match at.span {
                                Some(s) => s,
                                None => span,
                            },
                        },
                    ),
                    Some(u) => Ok(
                        p.update(
                            k - 1,
                            ExprV { ty: Some(TyV { ty: u, span: at.span }), ..args[k - 1] },
                        ),
                    ),
                }
            },
        }
    }
}

/// The function type a call expects: for a call by name, that of the only
/// overload that accepts the argument types (errors when the name has no
/// function, or none or several overloads accept them); for a call through
/// a value, the value's type once checked.
pub open spec fn callee_type(env: CheckEnv, source: SourceV, tys: Seq<TypeV>) -> Result<
    (SourceV, TyV),
    TypeErrV,
>
    decreases source, 0nat,
{
    match source {
        SourceV::Direct(name, nspan) => match overloads_of(env, name) {
            None => Err(TypeErrV::NoFunction { name, span: nspan }),
            Some(ov) => {
                let n = count_compatible_v(ov, tys);
                if n == 1 {
                    let key = first_compatible_v(ov, tys)->0;
                    Ok((source, env.fn_types[key.0 as int]))
                } else if n == 0 {
                    Err(TypeErrV::NoCompatibleFunction { name, span: nspan })
                } else {
                    Err(TypeErrV::AmbiguousFunction { name, span: nspan })
                }
            },
        },
        SourceV::Indirect(e) => match check_expr(env, e.inner, e.span, e.ty) {
            Err(err) => Err(err),
            Ok(a) => Ok((SourceV::Indirect(checked(e, a)), a.1)),
        },
    }
}

/// Checks a call: the arguments first, then the callee (see [`fit_call`]).
pub open spec fn check_call(env: CheckEnv, c: CallV) -> Result<CallV, TypeErrV>
    decreases c, 0nat,
{
    match check_seq(env, c.args, None) {
        Err(e) => Err(e),
        Ok(args) => match callee_type(env, c.source, tys_of(args)) {
            Err(e) => Err(e),
            Ok(ce) => fit_call(args, ce.0, ce.1, c.span),
        },
    }
}

/// Fits checked arguments to the type of the callee: it must be a function
/// whose argument count fits the call (at least its fixed arguments if it is
/// variadic) and whose fixed argument types agree with the arguments'. The
/// call then records its argument types and return type.
pub open spec fn fit_call(args: Seq<ExprV>, source: SourceV, exp: TyV, span: SpanV) -> Result<
    CallV,
    TypeErrV,
> {
    let tys = tys_of(args);
    match exp.ty {
        TypeV::FunctionPtr(ea, er) => {
            let actual = TyV {
                ty: TypeV::FunctionPtr(ArgsV { args: tys, variadic: false }, er),
                span: None,
            };
            let fixed = ea.args.len();
            if (ea.variadic && args.len() < fixed) || (!ea.variadic && args.len() != fixed) {
                Err(TypeErrV::UnexpectedType { expected: exp, actual, span })
            } else {
                match fit_prefix(args, ea.args, exp.span, span, fixed as int) {
                    Err(e) => Err(e),
                    Ok(args2) => Ok(
                        CallV {
                            source,
                            args: args2,
                            args_ty: Some(ArgsV { args: tys_of(args2), variadic: false }),
                            ret_ty: Some(TyV { ty: *er, span: exp.span }),
                            span,
                        },
                    ),
                }
            }
        },
        _ => Err(
            TypeErrV::UnexpectedType {
                expected: exp,
                actual: TyV {
                    ty: TypeV::FunctionPtr(
                        ArgsV { args: tys, variadic: false },
                        Box::new(TypeV::Unit),
                    ),
                    span: None,
                },
                span,
            },
        ),
    }
}

// ---------------------------------------------------------------------------
// Facts about the rules
// ---------------------------------------------------------------------------

/// Checking a list keeps its length and spans, and types every element.
pub proof fn lemma_check_seq_shape(env: CheckEnv, s: Seq<ExprV>, set: Option<TyV>)
    ensures
        check_seq(env, s, set) matches Ok(p) ==> {
            &&& p.len() == s.len()
            &&& forall|i: int|
                0 <= i < s.len() ==> (#[trigger] p[i]).ty is Some && p[i].span == s[i].span
        },
    decreases s.len(),
{
    if s.len() > 0 {
        lemma_check_seq_shape(env, s.drop_last(), set);
    }
}

/// Once fitting the arguments failed, fitting more of them fails the same way.
proof fn lemma_fit_prefix_err(
    args: Seq<ExprV>,
    es: Seq<TypeV>,
    xs: Option<SpanV>,
    span: SpanV,
    k: int,
    m: int,
)
    requires
        k <= m,
        fit_prefix(args, es, xs, span, k) is Err,
    ensures
        fit_prefix(args, es, xs, span, m) == fit_prefix(args, es, xs, span, k),
    decreases m - k,
{
    if k < m {
        lemma_fit_prefix_err(args, es, xs, span, k, m - 1);
    }
}

/// Some overload is compatible if any is counted.
proof fn lemma_counted_exists(s: Seq<(MIRFunctionArgs, MIRFunctionKey)>, call: Seq<TypeV>)
    requires
        count_compatible_v(s, call) > 0,
    ensures
        exists|j: int| 0 <= j < s.len() && args_compatible_v(#[trigger] s[j].0, call),
    decreases s.len(),
{
    if !args_compatible_v(s.last().0, call) {
        lemma_counted_exists(s.drop_last(), call);
        let j = choose|j: int| 0 <= j < s.drop_last().len() && args_compatible_v(#[trigger] s.drop_last()[j].0, call);
        assert(s[j] == s.drop_last()[j]);
    } else {
        assert(args_compatible_v(s[s.len() - 1].0, call));
    }
}

/// If some overload is compatible, the first compatible one is one of the overloads.
proof fn lemma_first_found(s: Seq<(MIRFunctionArgs, MIRFunctionKey)>, call: Seq<TypeV>, j: int)
    requires
        0 <= j < s.len(),
        args_compatible_v(s[j].0, call),
    ensures
        first_compatible_v(s, call) matches Some(k) && exists|i: int| 0 <= i < s.len() && #[trigger] s[i].1 == k,
    decreases j,
{
    if !args_compatible_v(s[0].0, call) {
        lemma_first_found(s.drop_first(), call, j - 1);
        let k = first_compatible_v(s.drop_first(), call)->0;
        let i = choose|i: int| 0 <= i < s.drop_first().len() && #[trigger] s.drop_first()[i].1 == k;
        assert(s[i + 1] == s.drop_first()[i]);
    } else {
        assert(s[0].1 == first_compatible_v(s, call)->0);
    }
}

/// Viewing part of a list of expressions takes that part of the view.
pub proof fn lemma_exprs_view_subrange(s: Seq<MIRExpression>, i: int, j: int)
    requires
        0 <= i <= j <= s.len(),
    ensures
        exprs_view(s.subrange(i, j)) == exprs_view(s).subrange(i, j),
{
    lemma_exprs_view_index(s);
    lemma_exprs_view_index(s.subrange(i, j));
    assert(exprs_view(s.subrange(i, j)) =~= exprs_view(s).subrange(i, j));
}

/// Viewing a concatenation concatenates the views.
pub proof fn lemma_exprs_view_add(a: Seq<MIRExpression>, b: Seq<MIRExpression>)
    ensures
        exprs_view(a + b) == exprs_view(a) + exprs_view(b),
{
    lemma_exprs_view_index(a);
    lemma_exprs_view_index(b);
    lemma_exprs_view_index(a + b);
    assert(exprs_view(a + b) =~= exprs_view(a) + exprs_view(b));
}

/// The size of a list is that of its first element plus that of the rest.
proof fn lemma_exprs_size_first(s: Seq<MIRExpression>)
    requires
        s.len() > 0,
    ensures
        exprs_size(s) == expr_size(s[0]) + exprs_size(s.drop_first()),
    decreases s.len(),
{
    if s.len() == 1 {
        assert(s.drop_last() =~= Seq::<MIRExpression>::empty());
        assert(s.drop_first() =~= Seq::<MIRExpression>::empty());
    } else {
        lemma_exprs_size_first(s.drop_last());
        assert(s.drop_first().drop_last() =~= s.drop_last().drop_first());
        assert(s.drop_first().last() == s.last());
    }
}

// ---------------------------------------------------------------------------
// Checking, executably
// ---------------------------------------------------------------------------

/// An executable result agrees with the result of a rule.
pub open spec fn agrees<T: View>(r: Result<T, TypeError>, s: Result<T::V, TypeErrV>) -> bool {
    match (r, s) {
        (Ok(x), Ok(y)) => x@ == y,
        (Err(x), Err(y)) => x@ == y,
        _ => false,
    }
}

/// Model of an optional span.
pub open spec fn opt_span_view(s: Option<Span>) -> Option<SpanV> {
    match s {
        Some(x) => Some(x@),
        None => None,
    }
}

/// A copy of an optional span.
fn copy_span_opt(s: &Option<Span>) -> (res: Option<Span>)
    ensures
        res == *s,
{
    match s {
        Some(x) => Some(x.clone()),
        None => None,
    }
}

/// A copy of an optional type.
fn copy_opt_ty(t: &Option<MIRType>) -> (res: Option<MIRType>)
    ensures
        opt_ty_view(res) == opt_ty_view(*t),
{
    match t {
        Some(x) => Some(copy_ty(x)),
        None => None,
    }
}

/// A copy of a list of types.
fn copy_types(v: &Vec<MIRTypeInner>) -> (res: Vec<MIRTypeInner>)
    ensures
        types_view(res@) == types_view(v@),
{
    let mut out: Vec<MIRTypeInner> = Vec::new();
    let mut i: usize = 0;
    while i < v.len()
        invariant
            i <= v@.len(),
            out@.len() == i,
            forall|j: int| 0 <= j < i ==> (#[trigger] out@[j])@ == v@[j]@,
        decreases v@.len() - i,
    {
        out.push(copy_type(&v[i]));
        i = i + 1;
    }
    proof {
        lemma_types_view_index(out@);
        lemma_types_view_index(v@);
        assert(types_view(out@) =~= types_view(v@));
    }
    out
}

/// The types of typed expressions.
fn types_of(v: &Vec<MIRExpression>) -> (res: Vec<MIRTypeInner>)
    requires
        forall|i: int| 0 <= i < v@.len() ==> (#[trigger] v@[i]).ty is Some,
    ensures
        types_view(res@) == tys_of(exprs_view(v@)),
{
    let mut out: Vec<MIRTypeInner> = Vec::new();
    let mut i: usize = 0;
    while i < v.len()
        invariant
            i <= v@.len(),
            out@.len() == i,
            forall|j: int| 0 <= j < v@.len() ==> (#[trigger] v@[j]).ty is Some,
            forall|j: int| 0 <= j < i ==> (#[trigger] out@[j])@ == v@[j].ty->0.ty@,
        decreases v@.len() - i,
    {
        out.push(copy_type(&v[i].ty.as_ref().unwrap().ty));
        i = i + 1;
    }
    proof {
        lemma_types_view_index(out@);
        lemma_exprs_view_index(v@);
        assert(types_view(out@) =~= tys_of(exprs_view(v@)));
    }
    out
}

/// Gives an expression the type handed down to it, if one is.
fn handed(x: MIRExpression, t: Option<MIRType>) -> (res: MIRExpression)
    ensures
        res@ == (ExprV { ty: inherit(opt_ty_view(t), x@.ty), ..x@ }),
        res.inner == x.inner,
{
    match t {
        Some(t) => {
            let MIRExpression { inner, ty: _, span } = x;
            MIRExpression { inner, ty: Some(t), span }
        },
        None => x,
    }
}

/// The index of the innermost variable of that name.
pub(crate) fn find_var(vars: &Vec<MIRVariable>, name: &String) -> (res: Option<usize>)
    ensures
        match (res, last_index_of(names_of(typed_vars(vars@)), name@)) {
            (Some(i), Some(j)) => i == j && i < vars@.len(),
            (None, None) => true,
            _ => false,
        },
{
    let ghost names = names_of(typed_vars(vars@));
    assert(names.len() == vars@.len());
    let mut i = vars.len();
    while i > 0
        invariant
            i <= vars@.len(),
            names == names_of(typed_vars(vars@)),
            names.len() == vars@.len(),
            forall|j: int| i <= j < names.len() ==> names[j] != name@,
        decreases i,
    {
        i = i - 1;
        assert(names[i as int] == vars@[i as int].name@);
        if vars[i].name.eq(name) {
            proof {
                lemma_last_index_at(names, name@, i as int);
            }
            return Some(i);
        }
    }
    proof {
        lemma_last_index_none(names, name@);
    }
    None
}

/// The index of the constant of that name.
pub(crate) fn find_const(cs: &Vec<MIRConstant>, name: &String) -> (res: Option<usize>)
    ensures
        match (res, first_index_of(names_of(typed_consts(cs@)), name@)) {
            (Some(i), Some(j)) => i == j && i < cs@.len(),
            (None, None) => true,
            _ => false,
        },
{
    let ghost names = names_of(typed_consts(cs@));
    assert(names.len() == cs@.len());
    let mut i: usize = 0;
    while i < cs.len()
        invariant
            i <= cs@.len(),
            names == names_of(typed_consts(cs@)),
            names.len() == cs@.len(),
            forall|j: int| 0 <= j < i ==> names[j] != name@,
        decreases cs@.len() - i,
    {
        assert(names[i as int] == cs@[i as int].name@);
        if cs[i].name.eq(name) {
            proof {
                lemma_first_index_at(names, name@, i as int);
            }
            return Some(i);
        }
        i = i + 1;
    }
    proof {
        lemma_first_index_none(names, name@);
    }
    None
}

/// The index of the static of that name.
pub(crate) fn find_static(cs: &Vec<MIRStatic>, name: &String) -> (res: Option<usize>)
    ensures
        match (res, first_index_of(names_of(typed_statics(cs@)), name@)) {
            (Some(i), Some(j)) => i == j && i < cs@.len(),
            (None, None) => true,
            _ => false,
        },
{
    let ghost names = names_of(typed_statics(cs@));
    assert(names.len() == cs@.len());
    let mut i: usize = 0;
    while i < cs.len()
        invariant
            i <= cs@.len(),
            names == names_of(typed_statics(cs@)),
            names.len() == cs@.len(),
            forall|j: int| 0 <= j < i ==> names[j] != name@,
        decreases cs@.len() - i,
    {
        assert(names[i as int] == cs@[i as int].name@);
        if cs[i].name.eq(name) {
            proof {
                lemma_first_index_at(names, name@, i as int);
            }
            return Some(i);
        }
        i = i + 1;
    }
    proof {
        lemma_first_index_none(names, name@);
    }
    None
}

/// The index of the overload list of that name.
pub(crate) fn find_overloads(fs: &Vec<(String, FunctionOverloads)>, name: &String) -> (res: Option<usize>)
    ensures
        match (res, first_index_of(overload_lists_names(overload_lists(fs@)), name@)) {
            (Some(i), Some(j)) => i == j && i < fs@.len(),
            (None, None) => true,
            _ => false,
        },
{
    let ghost names = overload_lists_names(overload_lists(fs@));
    assert(names.len() == fs@.len());
    let mut i: usize = 0;
    while i < fs.len()
        invariant
            i <= fs@.len(),
            names == overload_lists_names(overload_lists(fs@)),
            names.len() == fs@.len(),
            forall|j: int| 0 <= j < i ==> names[j] != name@,
        decreases fs@.len() - i,
    {
        assert(names[i as int] == fs@[i as int].0@);
        if fs[i].0.eq(name) {
            proof {
                lemma_first_index_at(names, name@, i as int);
            }
            return Some(i);
        }
        i = i + 1;
    }
    proof {
        lemma_first_index_none(names, name@);
    }
    None
}

/// The type a name has as a value (see [`name_type`]).
fn lookup_name(p: &MIRProgram, sca: bool, vars: &Vec<MIRVariable>, name: &String) -> (res: Option<
    MIRType,
>)
    ensures
        match (res, name_type(env_of(*p, sca, vars@), name@)) {
            (Some(t), Some(u)) => t@ == u,
            (None, None) => true,
            _ => false,
        },
{
    match find_var(vars, name) {
        Some(i) => Some(copy_ty(&vars[i].ty)),
        None => match find_const(&p.constants, name) {
            Some(i) => Some(copy_ty(&p.constants[i].ty)),
            None => match find_static(&p.statics, name) {
                Some(i) => Some(copy_ty(&p.statics[i].ty)),
                None => None,
            },
        },
    }
}

/// Computes [`settle`].
fn settle_exec(sca: bool, ety: Option<MIRType>, t: MIRType, span: &Span) -> (res: Result<
    MIRType,
    TypeError,
>)
    ensures
        agrees(res, settle(sca, opt_ty_view(ety), t@, span@)),
{
    match converted(sca, &t.ty) {
        None => Err(TypeError::Unsupported { span: span.clone() }),
        Some(c) => {
            let ty = MIRType { ty: c, span: Some(span.clone()) };
            match ety {
                None => Ok(ty),
                Some(ex) => match unified(&ex.ty, &ty.ty) {
                    None => Err(
                        TypeError::UnexpectedType { expected: ex, actual: ty, span: span.clone() },
                    ),
                    Some(u) => Ok(MIRType { ty: u, span: Some(span.clone()) }),
                },
            }
        },
    }
}

/// Computes [`check_expr`] of an expression, consuming it.
fn check_owned(p: &MIRProgram, sca: bool, vars: &Vec<MIRVariable>, e: MIRExpression) -> (res: Result<
    MIRExpression,
    TypeError,
>)
    requires
        p.wf(),
    ensures
        match (res, check_expr(env_of(*p, sca, vars@), e@.inner, e@.span, e@.ty)) {
            (Ok(x), Ok(r)) => x@ == checked(e@, r),
            (Err(x), Err(y)) => x@ == y,
            _ => false,
        },
    decreases expr_size(e), 2nat,
{
    let MIRExpression { inner, ty, span } = e;
    match check_node_exec(p, sca, vars, inner, &span, &ty) {
        Err(err) => Err(err),
        Ok((inner2, t)) => match settle_exec(sca, ty, t, &span) {
            Err(err) => Err(err),
            Ok(t2) => Ok(MIRExpression { inner: inner2, ty: Some(t2), span }),
        },
    }
}

/// Computes [`both`] for two operands, each handed `h` if that is given.
fn both_exec(
    p: &MIRProgram,
    sca: bool,
    vars: &Vec<MIRVariable>,
    op: Operator,
    span: &Span,
    l: Box<MIRExpression>,
    r: Box<MIRExpression>,
    h: &Option<MIRType>,
) -> (res: Result<(Box<MIRExpression>, Box<MIRExpression>, MIRType), TypeError>)
    requires
        p.wf(),
    ensures
        match (
            res,
            both(
                op,
                span@,
                (*l)@,
                (*r)@,
                check_expr(env_of(*p, sca, vars@), l.inner@, l.span@, inherit(opt_ty_view(*h), (*l)@.ty)),
                check_expr(env_of(*p, sca, vars@), r.inner@, r.span@, inherit(opt_ty_view(*h), (*r)@.ty)),
            ),
        ) {
            (Ok(x), Ok(y)) => (*x.0)@ == *y.0 && (*x.1)@ == *y.1 && x.2@ == y.2,
            (Err(x), Err(y)) => x@ == y,
            _ => false,
        },
    decreases expr_size(*l) + expr_size(*r), 0nat,
{
    let lx = handed(*l, copy_opt_ty(h));
    let lc = match check_owned(p, sca, vars, lx) {
        Err(e) => return Err(e),
        Ok(v) => v,
    };
    let rx = handed(*r, copy_opt_ty(h));
    let rc = match check_owned(p, sca, vars, rx) {
        Err(e) => return Err(e),
        Ok(v) => v,
    };
    let MIRExpression { inner: li, ty: lty, span: lspan } = lc;
    let MIRExpression { inner: ri, ty: rty, span: rspan } = rc;
    let lt = lty.unwrap();
    let rt = rty.unwrap();
    match unified(&lt.ty, &rt.ty) {
        None => Err(TypeError::OperandsDiffer { op, left: lt, right: rt, span: span.clone() }),
        Some(u) => {
            let u2 = copy_type(&u);
            let lt2 = MIRType { ty: u, span: lt.span };
            let rt2 = MIRType { ty: u2, span: rt.span };
            let res_ty = copy_ty(&lt2);
            Ok(
                (
                    Box::new(MIRExpression { inner: li, ty: Some(lt2), span: lspan }),
                    Box::new(MIRExpression { inner: ri, ty: Some(rt2), span: rspan }),
                    res_ty,
                ),
            )
        },
    }
}

/// Computes [`check_seq`] of a list, consuming it.
fn check_vec(
    p: &MIRProgram,
    sca: bool,
    vars: &Vec<MIRVariable>,
    v: Vec<MIRExpression>,
    set: &Option<MIRType>,
) -> (res: Result<Vec<MIRExpression>, TypeError>)
    requires
        p.wf(),
    ensures
        match (res, check_seq(env_of(*p, sca, vars@), exprs_view(v@), opt_ty_view(*set))) {
            (Ok(x), Ok(y)) => exprs_view(x@) == y,
            (Err(x), Err(y)) => x@ == y,
            _ => false,
        },
    decreases exprs_size(v@), 0nat,
{
    let ghost orig = v@;
    let ghost env = env_of(*p, sca, vars@);
    let ghost sv = opt_ty_view(*set);
    proof {
        lemma_exprs_size_elems(orig);
        assert(orig.take(0) =~= Seq::<MIRExpression>::empty());
    }
    let n = v.len();
    let mut rest = v;
    let mut out: Vec<MIRExpression> = Vec::new();
    let mut err: Option<TypeError> = None;
    let mut k: usize = 0;
    while k < n
        invariant
            n == orig.len(),
            k <= n,
            p.wf(),
            env == env_of(*p, sca, vars@),
            sv == opt_ty_view(*set),
            rest@ =~= orig.subrange(k as int, n as int),
            match err {
                None => check_seq(env, exprs_view(orig.take(k as int)), sv) == Ok::<
                    Seq<ExprV>,
                    TypeErrV,
                >(exprs_view(out@)),
                Some(e) => check_seq(env, exprs_view(orig.take(k as int)), sv) == Err::<
                    Seq<ExprV>,
                    TypeErrV,
                >(e@),
            },
            forall|i: int| 0 <= i < orig.len() ==> expr_size(#[trigger] orig[i]) < exprs_size(orig),
            exprs_size(orig) == exprs_size(v@),
        decreases n - k,
    {
        let x = rest.remove(0);
        assert(x == orig[k as int]);
        assert(expr_size(x) < exprs_size(v@));
        proof {
            assert(orig.take(k as int + 1) =~= orig.take(k as int).push(x));
            lemma_exprs_view_push(orig.take(k as int), x);
            assert(exprs_view(orig.take(k as int + 1)).drop_last() =~= exprs_view(orig.take(k as int)));
        }
        if err.is_none() {
            let xx = handed(x, copy_opt_ty(set));
            match check_owned(p, sca, vars, xx) {
                Ok(c) => {
                    proof {
                        lemma_exprs_view_push(out@, c);
                    }
                    out.push(c);
                },
                Err(e) => {
                    err = Some(e);
                },
            }
        }
        k = k + 1;
    }
    assert(orig.take(n as int) =~= orig);
    match err {
        None => Ok(out),
        Some(e) => Err(e),
    }
}

/// The size of the callee expression of a call through a value.
spec fn source_size(s: MIRFnSource) -> nat {
    match s {
        MIRFnSource::Indirect(e) => expr_size(e),
        MIRFnSource::Direct(_, _) => 0,
    }
}

/// Computes [`callee_type`].
#[verifier::spinoff_prover]
fn callee_exec(
    p: &MIRProgram,
    sca: bool,
    vars: &Vec<MIRVariable>,
    source: MIRFnSource,
    tys: &Vec<MIRTypeInner>,
) -> (res: Result<(MIRFnSource, MIRType), TypeError>)
    requires
        p.wf(),
    ensures
        match (res, callee_type(env_of(*p, sca, vars@), source@, types_view(tys@))) {
            (Ok(x), Ok(y)) => x.0@ == y.0 && x.1@ == y.1,
            (Err(x), Err(y)) => x@ == y,
            _ => false,
        },
    decreases source_size(source), 3nat,
{
    let ghost env = env_of(*p, sca, vars@);
    match source {
        MIRFnSource::Direct(name, nspan) => match find_overloads(&p.function_names, &name) {
            None => Err(TypeError::NoFunction { name, span: nspan }),
            Some(i) => {
                let ov = &p.function_names[i].1;
                let n = ov.count_compatible(tys.as_slice());
                proof {
                    lemma_compatible_view(ov@, tys@, types_view(tys@));
                    assert(env.overloads[i as int].1 == ov@);
                }
                if n == 1 {
                    proof {
                        lemma_counted_exists(ov@, types_view(tys@));
                        let j = choose|j: int|
                            0 <= j < ov@.len() && args_compatible_v(
                                #[trigger] ov@[j].0,
                                types_view(tys@),
                            );
                        lemma_first_found(ov@, types_view(tys@), j);
                    }
                    let key = ov.find_compatible(tys.as_slice()).unwrap();
                    proof {
                        let j = choose|j: int| 0 <= j < ov@.len() && #[trigger] ov@[j].1 == key;
                        assert(p.function_names@[i as int].1@[j] == ov@[j]);
                    }
                    let t = get_fn_type(&p.functions[key.0]);
                    Ok((MIRFnSource::Direct(name, nspan), t))
                } else if n == 0 {
                    Err(TypeError::NoCompatibleFunction { name, span: nspan })
                } else {
                    Err(TypeError::AmbiguousFunction { name, span: nspan })
                }
            },
        },
        MIRFnSource::Indirect(e) => match check_owned(p, sca, vars, e) {
            Err(x) => Err(x),
            Ok(ec) => {
                let t = copy_ty(ec.ty.as_ref().unwrap());
                Ok((MIRFnSource::Indirect(ec), t))
            },
        },
    }
}

/// Computes [`fit_prefix`] over all the expected arguments, consuming the
/// arguments.
fn fit_exec(args: Vec<MIRExpression>, es: &Vec<MIRTypeInner>, exp_span: &Option<Span>, span: &Span) -> (res:
    Result<Vec<MIRExpression>, TypeError>)
    requires
        args@.len() >= es@.len(),
        forall|i: int| 0 <= i < args@.len() ==> (#[trigger] args@[i]).ty is Some,
    ensures
        match (
            res,
            fit_prefix(
                exprs_view(args@),
                types_view(es@),
                opt_span_view(*exp_span),
                span@,
                es@.len() as int,
            ),
        ) {
            (Ok(x), Ok(y)) => exprs_view(x@) == y,
            (Err(x), Err(y)) => x@ == y,
            _ => false,
        },
        res matches Ok(x) ==> forall|i: int| 0 <= i < x@.len() ==> (#[trigger] x@[i]).ty is Some,
{
    let ghost orig = args@;
    let ghost a = exprs_view(args@);
    let ghost e = types_view(es@);
    let ghost xs = opt_span_view(*exp_span);
    proof {
        lemma_exprs_view_index(orig);
        lemma_types_view_index(es@);
        assert(orig.subrange(0, orig.len() as int) =~= orig);
        assert(a.subrange(0, a.len() as int) =~= a);
        assert(exprs_view(Seq::<MIRExpression>::empty()) =~= Seq::<ExprV>::empty());
        assert(a =~= Seq::<ExprV>::empty() + a.subrange(0, a.len() as int));
    }
    let n = args.len();
    let fixed = es.len();
    let mut rest = args;
    let mut out: Vec<MIRExpression> = Vec::new();
    let mut k: usize = 0;
    while k < fixed
        invariant
            n == orig.len(),
            fixed == es@.len(),
            fixed <= n,
            k <= fixed,
            a == exprs_view(orig),
            a == exprs_view(args@),
            e == types_view(es@),
            a.len() == n,
            e.len() == fixed,
            forall|j: int| 0 <= j < n ==> #[trigger] a[j] == orig[j]@,
            forall|j: int| 0 <= j < fixed ==> #[trigger] e[j] == es@[j]@,
            forall|j: int| 0 <= j < n ==> (#[trigger] orig[j]).ty is Some,
            xs == opt_span_view(*exp_span),
            rest@ =~= orig.subrange(k as int, n as int),
            out@.len() == k,
            forall|j: int| 0 <= j < k ==> (#[trigger] out@[j]).ty is Some,
            fit_prefix(a, e, xs, span@, k as int) == Ok::<Seq<ExprV>, TypeErrV>(
                exprs_view(out@) + a.subrange(k as int, n as int),
            ),
        decreases fixed - k,
    {
        let x = rest.remove(0);
        assert(x == orig[k as int]);
        let MIRExpression { inner, ty, span: xspan } = x;
        let at = ty.unwrap();
        match unified(&at.ty, &es[k]) {
            None => {
                let err_span = match &at.span {
                    Some(s) => s.clone(),
                    None => span.clone(),
                };
                let err = TypeError::UnexpectedType {
                    expected: MIRType { ty: copy_type(&es[k]), span: copy_span_opt(exp_span) },
                    actual: at,
                    span: err_span,
                };
                proof {
                    assert(a[k as int].ty == Some(at@));
                    assert(fit_prefix(a, e, xs, span@, k as int + 1) == Err::<Seq<ExprV>, TypeErrV>(
                        err@,
                    ));
                    lemma_fit_prefix_err(a, e, xs, span@, k as int + 1, fixed as int);
                    assert(fit_prefix(a, e, xs, span@, fixed as int) == Err::<Seq<ExprV>, TypeErrV>(
                        err@,
                    ));
                    assert(a == exprs_view(args@));
                }
                return Err(err);
            },
            Some(u) => {
                let y = MIRExpression { inner, ty: Some(MIRType { ty: u, span: at.span }), span: xspan };
                proof {
                    lemma_exprs_view_push(out@, y);
                    lemma_exprs_view_index(out@);
                    assert(a[k as int].ty == Some(at@));
                    let prev = exprs_view(out@) + a.subrange(k as int, n as int);
                    assert(prev.update(k as int, y@) =~= exprs_view(out@).push(y@) + a.subrange(
                        k as int + 1,
                        n as int,
                    ));
                }
                out.push(y);
            },
        }
        k = k + 1;
    }
    proof {
        lemma_exprs_view_subrange(orig, fixed as int, n as int);
        lemma_exprs_view_add(out@, rest@);
    }
    let mut res = out;
    let mut tail = rest;
    res.append(&mut tail);
    Ok(res)
}

/// Checks a function call (see [`check_call`]), consuming it: the arguments
/// are checked first, then the callee; the call then records its argument
/// types and return type.
#[verifier::spinoff_prover]
fn check_fn_call(p: &MIRProgram, sca: bool, vars: &Vec<MIRVariable>, c: MIRFnCall) -> (res: Result<
    MIRFnCall,
    TypeError,
>)
    requires
        p.wf(),
    ensures
        agrees(res, check_call(env_of(*p, sca, vars@), c@)),
    decreases call_size(c), 2nat,
{
    let ghost env = env_of(*p, sca, vars@);
    let MIRFnCall { source, args, args_ty: _, ret_ty: _, span } = c;
    let ghost av = exprs_view(args@);
    let args2 = match check_vec(p, sca, vars, args, &None) {
        Err(e) => return Err(e),
        Ok(a) => a,
    };
    proof {
        lemma_check_seq_shape(env, av, None);
        lemma_exprs_view_index(args2@);
        assert forall|i: int| 0 <= i < args2@.len() implies (#[trigger] args2@[i]).ty is Some by {
            assert(exprs_view(args2@)[i] == args2@[i]@);
        }
    }
    let tys = types_of(&args2);
    let (src, expected) = match callee_exec(p, sca, vars, source, &tys) {
        Err(e) => return Err(e),
        Ok(r) => r,
    };
    assert(check_seq(env, av, None) == Ok::<Seq<ExprV>, TypeErrV>(exprs_view(args2@)));
    fit_call_exec(args2, tys, src, expected, span)
}

/// Computes [`fit_call`], consuming the checked arguments.
#[verifier::spinoff_prover]
fn fit_call_exec(
    args2: Vec<MIRExpression>,
    tys: Vec<MIRTypeInner>,
    src: MIRFnSource,
    expected: MIRType,
    span: Span,
) -> (res: Result<MIRFnCall, TypeError>)
    requires
        forall|i: int| 0 <= i < args2@.len() ==> (#[trigger] args2@[i]).ty is Some,
        types_view(tys@) == tys_of(exprs_view(args2@)),
    ensures
        agrees(res, fit_call(exprs_view(args2@), src@, expected@, span@)),
{
    proof {
        lemma_exprs_view_index(args2@);
    }
    let MIRType { ty: exp_ty, span: exp_span } = expected;
    match exp_ty {
        MIRTypeInner::FunctionPtr(ea, er) => {
            proof {
                lemma_types_view_index(ea.args@);
            }
            let actual = MIRType {
                ty: MIRTypeInner::FunctionPtr(
                    MIRFunctionArgs { args: copy_types(&tys), variadic: false },
                    Box::new(copy_type(&er)),
                ),
                span: None,
            };
            let fixed = ea.args.len();
            if (ea.variadic && args2.len() < fixed) || (!ea.variadic && args2.len() != fixed) {
                return Err(
                    TypeError::UnexpectedType {
                        expected: MIRType { ty: MIRTypeInner::FunctionPtr(ea, er), span: exp_span },
                        actual,
                        span,
                    },
                );
            }
            let args3 = match fit_exec(args2, &ea.args, &exp_span, &span) {
                Err(e) => return Err(e),
                Ok(a) => a,
            };
            let at = types_of(&args3);
            Ok(
                MIRFnCall {
                    source: src,
                    args: args3,
                    args_ty: Some(MIRFunctionArgs { args: at, variadic: false }),
                    ret_ty: Some(MIRType { ty: *er, span: exp_span }),
                    span,
                },
            )
        },
        other => {
            let unit = MIRTypeInner::Unit;
            assert(unit@ == TypeV::Unit);
            Err(
                TypeError::UnexpectedType {
                    expected: MIRType { ty: other, span: exp_span },
                    actual: MIRType {
                        ty: MIRTypeInner::FunctionPtr(
                            MIRFunctionArgs { args: tys, variadic: false },
                            Box::new(unit),
                        ),
                        span: None,
                    },
                    span,
                },
            )
        },
    }
}

/// A type written nowhere.
fn plain_ty(t: MIRTypeInner) -> (res: MIRType)
    ensures
        res@ == plain(t@),
{
    MIRType { ty: t, span: None }
}

/// An executable result of a node rule agrees with the rule's result.
pub open spec fn node_agrees(
    r: Result<(MIRExpressionInner, MIRType), TypeError>,
    s: Result<(InnerV, TyV), TypeErrV>,
) -> bool {
    match (r, s) {
        (Ok(x), Ok(y)) => x.0@ == y.0 && x.1@ == y.1,
        (Err(x), Err(y)) => x@ == y,
        _ => false,
    }
}

/// The operators with two operands of the same type.
pub open spec fn is_binary(i: MIRExpressionInner) -> bool {
    ||| i is Add
    ||| i is Sub
    ||| i is Mul
    ||| i is Div
    ||| i is Equal
    ||| i is NotEqual
    ||| i is Less
    ||| i is Greater
    ||| i is LessEq
    ||| i is GreaterEq
    ||| i is BoolAnd
    ||| i is BoolOr
}

/// The rules of arithmetic, which hands its type down to its operands.
#[verifier::spinoff_prover]
fn check_arith(
    p: &MIRProgram,
    sca: bool,
    vars: &Vec<MIRVariable>,
    inner: MIRExpressionInner,
    span: &Span,
    ety: &Option<MIRType>,
) -> (res: Result<(MIRExpressionInner, MIRType), TypeError>)
    requires
        p.wf(),
        inner is Add || inner is Sub || inner is Mul || inner is Div,
    ensures
        node_agrees(res, check_node(env_of(*p, sca, vars@), inner@, span@, opt_ty_view(*ety))),
    decreases inner_size(inner), 0nat,
{
    let ghost env = env_of(*p, sca, vars@);
    match inner {
        MIRExpressionInner::Add(l, r) => match both_exec(p, sca, vars, Operator::Addition, span, l, r, ety) {
            Err(e) => Err(e),
            Ok((l2, r2, t)) => Ok((MIRExpressionInner::Add(l2, r2), t)),
        },
        MIRExpressionInner::Sub(l, r) => match both_exec(p, sca, vars, Operator::Subtraction, span, l, r, ety) {
            Err(e) => Err(e),
            Ok((l2, r2, t)) => Ok((MIRExpressionInner::Sub(l2, r2), t)),
        },
        MIRExpressionInner::Mul(l, r) => match both_exec(p, sca, vars, Operator::Multiplication, span, l, r, ety) {
            Err(e) => Err(e),
            Ok((l2, r2, t)) => Ok((MIRExpressionInner::Mul(l2, r2), t)),
        },
        MIRExpressionInner::Div(l, r) => match both_exec(p, sca, vars, Operator::Division, span, l, r, ety) {
            Err(e) => Err(e),
            Ok((l2, r2, t)) => Ok((MIRExpressionInner::Div(l2, r2), t)),
        },
        _ => {
            proof {
                assert(false);
            }
            Err(TypeError::Unsupported { span: span.clone() })
        },
    }
}

/// The rules of comparisons and logic, which are booleans.
#[verifier::spinoff_prover]
fn check_compare(
    p: &MIRProgram,
    sca: bool,
    vars: &Vec<MIRVariable>,
    inner: MIRExpressionInner,
    span: &Span,
    ety: &Option<MIRType>,
) -> (res: Result<(MIRExpressionInner, MIRType), TypeError>)
    requires
        p.wf(),
        inner is Equal || inner is NotEqual || inner is Less || inner is Greater,
    ensures
        node_agrees(res, check_node(env_of(*p, sca, vars@), inner@, span@, opt_ty_view(*ety))),
    decreases inner_size(inner), 0nat,
{
    let ghost env = env_of(*p, sca, vars@);
    match inner {
        MIRExpressionInner::Equal(l, r) => match both_exec(p, sca, vars, Operator::Equals, span, l, r, &None) {
            Err(e) => Err(e),
            Ok((l2, r2, _)) => Ok((MIRExpressionInner::Equal(l2, r2), MIRType { ty: MIRTypeInner::Bool, span: None })),
        },
        MIRExpressionInner::NotEqual(l, r) => match both_exec(p, sca, vars, Operator::NotEquals, span, l, r, &None) {
            Err(e) => Err(e),
            Ok((l2, r2, _)) => Ok((MIRExpressionInner::NotEqual(l2, r2), MIRType { ty: MIRTypeInner::Bool, span: None })),
        },
        MIRExpressionInner::Less(l, r) => match both_exec(p, sca, vars, Operator::LessThan, span, l, r, &None) {
            Err(e) => Err(e),
            Ok((l2, r2, _)) => Ok((MIRExpressionInner::Less(l2, r2), MIRType { ty: MIRTypeInner::Bool, span: None })),
        },
        MIRExpressionInner::Greater(l, r) => match both_exec(p, sca, vars, Operator::GreaterThan, span, l, r, &None) {
            Err(e) => Err(e),
            Ok((l2, r2, _)) => Ok((MIRExpressionInner::Greater(l2, r2), MIRType { ty: MIRTypeInner::Bool, span: None })),
        },
        _ => {
            proof {
                assert(false);
            }
            Err(TypeError::Unsupported { span: span.clone() })
        },
    }
}

/// The rules of the other comparisons and of logic, which are booleans.
#[verifier::spinoff_prover]
fn check_logic(
    p: &MIRProgram,
    sca: bool,
    vars: &Vec<MIRVariable>,
    inner: MIRExpressionInner,
    span: &Span,
    ety: &Option<MIRType>,
) -> (res: Result<(MIRExpressionInner, MIRType), TypeError>)
    requires
        p.wf(),
        inner is LessEq || inner is GreaterEq || inner is BoolAnd || inner is BoolOr,
    ensures
        node_agrees(res, check_node(env_of(*p, sca, vars@), inner@, span@, opt_ty_view(*ety))),
    decreases inner_size(inner), 0nat,
{
    let ghost env = env_of(*p, sca, vars@);
    match inner {
        MIRExpressionInner::LessEq(l, r) => match both_exec(p, sca, vars, Operator::LessThanOrEquals, span, l, r, &None) {
            Err(e) => Err(e),
            Ok((l2, r2, _)) => Ok((MIRExpressionInner::LessEq(l2, r2), MIRType { ty: MIRTypeInner::Bool, span: None })),
        },
        MIRExpressionInner::GreaterEq(l, r) => match both_exec(p, sca, vars, Operator::GreaterThanOrEquals, span, l, r, &None) {
            Err(e) => Err(e),
            Ok((l2, r2, _)) => Ok((MIRExpressionInner::GreaterEq(l2, r2), MIRType { ty: MIRTypeInner::Bool, span: None })),
        },
        MIRExpressionInner::BoolAnd(l, r) => match both_exec(p, sca, vars, Operator::BinaryAnd, span, l, r, &None) {
            Err(e) => Err(e),
            Ok((l2, r2, _)) => Ok((MIRExpressionInner::BoolAnd(l2, r2), MIRType { ty: MIRTypeInner::Bool, span: None })),
        },
        MIRExpressionInner::BoolOr(l, r) => match both_exec(p, sca, vars, Operator::BinaryOr, span, l, r, &None) {
            Err(e) => Err(e),
            Ok((l2, r2, _)) => Ok((MIRExpressionInner::BoolOr(l2, r2), MIRType { ty: MIRTypeInner::Bool, span: None })),
        },
        _ => {
            proof {
                assert(false);
            }
            Err(TypeError::Unsupported { span: span.clone() })
        },
    }
}

/// The rule of a name used as a value.
fn check_name(
    p: &MIRProgram,
    sca: bool,
    vars: &Vec<MIRVariable>,
    inner: MIRExpressionInner,
    span: &Span,
    ety: &Option<MIRType>,
) -> (res: Result<(MIRExpressionInner, MIRType), TypeError>)
    requires
        p.wf(),
        inner is Variable,
    ensures
        node_agrees(res, check_node(env_of(*p, sca, vars@), inner@, span@, opt_ty_view(*ety))),
    decreases inner_size(inner), 0nat,
{
    let ghost env = env_of(*p, sca, vars@);
    match inner {
        MIRExpressionInner::Variable(name, idx) => match lookup_name(p, sca, vars, &name) {
            Some(t) => Ok((MIRExpressionInner::Variable(name, idx), t)),
            None => match find_overloads(&p.function_names, &name) {
                Some(i) => {
                    proof {
                        assert(env.overloads[i as int].1 == p.function_names@[i as int].1@);
                    }
                    if p.function_names[i].1.is_empty() {
                        Err(TypeError::UnknownVariable { name, span: span.clone() })
                    } else {
                        Err(TypeError::FunctionAsValue { span: span.clone() })
                    }
                },
                None => Err(TypeError::UnknownVariable { name, span: span.clone() }),
            },
        },
        _ => {
            proof {
                assert(false);
            }
            Err(TypeError::Unsupported { span: span.clone() })
        },
    }
}

/// The rule of a call used as a value.
fn check_call_node(
    p: &MIRProgram,
    sca: bool,
    vars: &Vec<MIRVariable>,
    inner: MIRExpressionInner,
    span: &Span,
    ety: &Option<MIRType>,
) -> (res: Result<(MIRExpressionInner, MIRType), TypeError>)
    requires
        p.wf(),
        inner is FunctionCall,
    ensures
        node_agrees(res, check_node(env_of(*p, sca, vars@), inner@, span@, opt_ty_view(*ety))),
    decreases inner_size(inner), 0nat,
{
    let ghost env = env_of(*p, sca, vars@);
    match inner {
        MIRExpressionInner::FunctionCall(c) => match check_fn_call(p, sca, vars, *c) {
            Err(e) => Err(e),
            Ok(c2) => {
                let t = copy_ty(c2.ret_ty.as_ref().unwrap());
                Ok((MIRExpressionInner::FunctionCall(Box::new(c2)), t))
            },
        },
        _ => {
            proof {
                assert(false);
            }
            Err(TypeError::Unsupported { span: span.clone() })
        },
    }
}

/// The rules of literals and quine values.
fn check_leaf(
    p: &MIRProgram,
    sca: bool,
    vars: &Vec<MIRVariable>,
    inner: MIRExpressionInner,
    span: &Span,
    ety: &Option<MIRType>,
) -> (res: Result<(MIRExpressionInner, MIRType), TypeError>)
    requires
        p.wf(),
        !is_binary(inner) && !(inner is Variable || inner is FunctionCall || inner is Ref || inner is Deref || inner is Neg || inner is Not || inner is Binding || inner is Ternary || inner is Index || inner is Array),
    ensures
        node_agrees(res, check_node(env_of(*p, sca, vars@), inner@, span@, opt_ty_view(*ety))),
    decreases inner_size(inner), 0nat,
{
    let ghost env = env_of(*p, sca, vars@);
    match inner {
        MIRExpressionInner::Number(v) => {
            let t = if v < 0 {
                MIRTypeInner::I32
            } else if v > 2147483647i128 {
                MIRTypeInner::U32
            } else {
                MIRTypeInner::UnknownNumber
            };
            Ok((MIRExpressionInner::Number(v), plain_ty(t)))
        },
        MIRExpressionInner::String(x) => Ok(
            (MIRExpressionInner::String(x), plain_ty(MIRTypeInner::String)),
        ),
        MIRExpressionInner::Bool(x) => Ok((MIRExpressionInner::Bool(x), plain_ty(MIRTypeInner::Bool))),
        MIRExpressionInner::Char(x) => Ok((MIRExpressionInner::Char(x), plain_ty(MIRTypeInner::Char))),
        MIRExpressionInner::Unit => Ok((MIRExpressionInner::Unit, plain_ty(MIRTypeInner::Unit))),
        MIRExpressionInner::Quine => {
            let s = MIRTypeInner::String;
            assert(s@ == TypeV::String);
            Ok((MIRExpressionInner::Quine, plain_ty(MIRTypeInner::Array(Box::new(s)))))
        },
        MIRExpressionInner::QuineLen => Ok(
            (MIRExpressionInner::QuineLen, plain_ty(MIRTypeInner::UnknownNumber)),
        ),
        MIRExpressionInner::QuineSpace => Ok(
            (MIRExpressionInner::QuineSpace, plain_ty(MIRTypeInner::Char)),
        ),
        MIRExpressionInner::QuineLine => Ok(
            (MIRExpressionInner::QuineLine, plain_ty(MIRTypeInner::Char)),
        ),
        MIRExpressionInner::Member(_, _) => Err(TypeError::Unsupported { span: span.clone() }),
        _ => {
            proof {
                assert(false);
            }
            Err(TypeError::Unsupported { span: span.clone() })
        },
    }
}

/// The rule of a reference.
fn check_ref(
    p: &MIRProgram,
    sca: bool,
    vars: &Vec<MIRVariable>,
    inner: MIRExpressionInner,
    span: &Span,
    ety: &Option<MIRType>,
) -> (res: Result<(MIRExpressionInner, MIRType), TypeError>)
    requires
        p.wf(),
        inner is Ref,
    ensures
        node_agrees(res, check_node(env_of(*p, sca, vars@), inner@, span@, opt_ty_view(*ety))),
    decreases inner_size(inner), 0nat,
{
    let ghost env = env_of(*p, sca, vars@);
    match inner {
        MIRExpressionInner::Ref(x) => {
            if !matches!(
                x.inner,
                MIRExpressionInner::Variable(..) | MIRExpressionInner::Index(..)
                    | MIRExpressionInner::Member(..)
            ) {
                return Err(TypeError::RefToNonPlace { span: x.span.clone() });
            }
            let h = match ety {
                Some(t) => match &t.ty {
                    MIRTypeInner::Ref(i) => Some(
                        MIRType { ty: copy_type(i), span: copy_span_opt(&t.span) },
                    ),
                    _ => None,
                },
                None => None,
            };
            match check_owned(p, sca, vars, handed(*x, h)) {
                Err(e) => Err(e),
                Ok(xc) => {
                    let t = xc.ty.as_ref().unwrap();
                    let rt = MIRType {
                        ty: MIRTypeInner::Ref(Box::new(copy_type(&t.ty))),
                        span: copy_span_opt(&t.span),
                    };
                    Ok((MIRExpressionInner::Ref(Box::new(xc)), rt))
                },
            }
        },
        _ => {
            proof {
                assert(false);
            }
            Err(TypeError::Unsupported { span: span.clone() })
        },
    }
}

/// The rule of a dereference.
fn check_deref(
    p: &MIRProgram,
    sca: bool,
    vars: &Vec<MIRVariable>,
    inner: MIRExpressionInner,
    span: &Span,
    ety: &Option<MIRType>,
) -> (res: Result<(MIRExpressionInner, MIRType), TypeError>)
    requires
        p.wf(),
        inner is Deref,
    ensures
        node_agrees(res, check_node(env_of(*p, sca, vars@), inner@, span@, opt_ty_view(*ety))),
    decreases inner_size(inner), 0nat,
{
    let ghost env = env_of(*p, sca, vars@);
    match inner {
        MIRExpressionInner::Deref(x) => {
            let h = match ety {
                Some(t) => Some(
                    MIRType {
                        ty: MIRTypeInner::Ref(Box::new(copy_type(&t.ty))),
                        span: copy_span_opt(&t.span),
                    },
                ),
                None => None,
            };
            match check_owned(p, sca, vars, handed(*x, h)) {
                Err(e) => Err(e),
                Ok(xc) => {
                    let t = xc.ty.as_ref().unwrap();
                    match &t.ty {
                        MIRTypeInner::Ref(v) => {
                            let rt = MIRType { ty: copy_type(v), span: copy_span_opt(&t.span) };
                            Ok((MIRExpressionInner::Deref(Box::new(xc)), rt))
                        },
                        _ => Err(TypeError::DerefNonRef { span: xc.span.clone() }),
                    }
                },
            }
        },
        _ => {
            proof {
                assert(false);
            }
            Err(TypeError::Unsupported { span: span.clone() })
        },
    }
}

/// The rules of negations and bindings.
fn check_unary(
    p: &MIRProgram,
    sca: bool,
    vars: &Vec<MIRVariable>,
    inner: MIRExpressionInner,
    span: &Span,
    ety: &Option<MIRType>,
) -> (res: Result<(MIRExpressionInner, MIRType), TypeError>)
    requires
        p.wf(),
        inner is Neg || inner is Not || inner is Binding,
    ensures
        node_agrees(res, check_node(env_of(*p, sca, vars@), inner@, span@, opt_ty_view(*ety))),
    decreases inner_size(inner), 0nat,
{
    let ghost env = env_of(*p, sca, vars@);
    match inner {
        MIRExpressionInner::Neg(x) => match check_owned(p, sca, vars, handed(*x, copy_opt_ty(ety))) {
            Err(e) => Err(e),
            Ok(xc) => {
                let t = copy_ty(xc.ty.as_ref().unwrap());
                Ok((MIRExpressionInner::Neg(Box::new(xc)), t))
            },
        },
        MIRExpressionInner::Not(x) => {
            let b = MIRType { ty: MIRTypeInner::Bool, span: Some(span.clone()) };
            match check_owned(p, sca, vars, handed(*x, Some(b))) {
                Err(e) => Err(e),
                Ok(xc) => Ok((MIRExpressionInner::Not(Box::new(xc)), plain_ty(MIRTypeInner::Bool))),
            }
        },
        MIRExpressionInner::Binding(lm, x, rm) => match check_owned(
            p,
            sca,
            vars,
            handed(*x, copy_opt_ty(ety)),
        ) {
            Err(e) => Err(e),
            Ok(xc) => {
                let t = copy_ty(xc.ty.as_ref().unwrap());
                Ok((MIRExpressionInner::Binding(lm, Box::new(xc), rm), t))
            },
        },
        _ => {
            proof {
                assert(false);
            }
            Err(TypeError::Unsupported { span: span.clone() })
        },
    }
}

/// The rule of a conditional expression.
fn check_ternary(
    p: &MIRProgram,
    sca: bool,
    vars: &Vec<MIRVariable>,
    inner: MIRExpressionInner,
    span: &Span,
    ety: &Option<MIRType>,
) -> (res: Result<(MIRExpressionInner, MIRType), TypeError>)
    requires
        p.wf(),
        inner is Ternary,
    ensures
        node_agrees(res, check_node(env_of(*p, sca, vars@), inner@, span@, opt_ty_view(*ety))),
    decreases inner_size(inner), 0nat,
{
    let ghost env = env_of(*p, sca, vars@);
    match inner {
        MIRExpressionInner::Ternary(c, t, f) => {
            let b = MIRType { ty: MIRTypeInner::Bool, span: Some(span.clone()) };
            match check_owned(p, sca, vars, handed(*c, Some(b))) {
                Err(e) => Err(e),
                Ok(cc) => match both_exec(p, sca, vars, Operator::Conditional, span, t, f, ety) {
                    Err(e) => Err(e),
                    Ok((t2, f2, ty)) => Ok((MIRExpressionInner::Ternary(Box::new(cc), t2, f2), ty)),
                },
            }
        },
        _ => {
            proof {
                assert(false);
            }
            Err(TypeError::Unsupported { span: span.clone() })
        },
    }
}

/// The rule of an index.
fn check_index(
    p: &MIRProgram,
    sca: bool,
    vars: &Vec<MIRVariable>,
    inner: MIRExpressionInner,
    span: &Span,
    ety: &Option<MIRType>,
) -> (res: Result<(MIRExpressionInner, MIRType), TypeError>)
    requires
        p.wf(),
        inner is Index,
    ensures
        node_agrees(res, check_node(env_of(*p, sca, vars@), inner@, span@, opt_ty_view(*ety))),
    decreases inner_size(inner), 0nat,
{
    let ghost env = env_of(*p, sca, vars@);
    match inner {
        MIRExpressionInner::Index(b, i) => {
            let ic = match check_owned(p, sca, vars, *i) {
                Err(e) => return Err(e),
                Ok(v) => v,
            };
            let MIRExpression { inner: ii, ty: ity, span: ispan } = ic;
            let it0 = ity.unwrap();
            let it = if matches!(it0.ty, MIRTypeInner::UnknownNumber) {
                MIRType { ty: MIRTypeInner::U32, span: it0.span }
            } else {
                it0
            };
            let ic2 = MIRExpression { inner: ii, ty: Some(it), span: ispan };
            let h = match ety {
                Some(t) => Some(
                    MIRType {
                        ty: MIRTypeInner::Array(Box::new(copy_type(&t.ty))),
                        span: copy_span_opt(&t.span),
                    },
                ),
                None => None,
            };
            match check_owned(p, sca, vars, handed(*b, h)) {
                Err(e) => Err(e),
                Ok(bc) => {
                    let t = bc.ty.as_ref().unwrap();
                    match &t.ty {
                        MIRTypeInner::Array(x) => {
                            let rt = MIRType { ty: copy_type(x), span: copy_span_opt(&t.span) };
                            Ok((MIRExpressionInner::Index(Box::new(bc), Box::new(ic2)), rt))
                        },
                        _ => Err(TypeError::IndexNonArray { span: bc.span.clone() }),
                    }
                },
            }
        },
        _ => {
            proof {
                assert(false);
            }
            Err(TypeError::Unsupported { span: span.clone() })
        },
    }
}

/// Computes [`array_rule`], consuming the elements.
#[verifier::spinoff_prover]
fn check_array(
    p: &MIRProgram,
    sca: bool,
    vars: &Vec<MIRVariable>,
    elems: Vec<MIRExpression>,
    ety: &Option<MIRType>,
) -> (res: Result<(MIRExpressionInner, MIRType), TypeError>)
    requires
        p.wf(),
    ensures
        node_agrees(res, array_rule(env_of(*p, sca, vars@), exprs_view(elems@), opt_ty_view(*ety))),
    decreases exprs_size(elems@), 3nat,
{
    let ghost env = env_of(*p, sca, vars@);
    let ghost ev = exprs_view(elems@);
    proof {
        lemma_exprs_view_index(elems@);
    }
    let len = elems.len();
    if len == 0 {
        let nc = MIRTypeInner::NotConstructed;
        assert(nc@ == TypeV::NotConstructed);
        return Ok(
            (MIRExpressionInner::Array(elems), plain_ty(MIRTypeInner::ArrayFixed(Box::new(nc), 0))),
        );
    }
    proof {
        lemma_exprs_size_first(elems@);
        lemma_exprs_view_subrange(elems@, 1, len as int);
        assert(elems@.drop_first() =~= elems@.subrange(1, len as int));
    }
    let mut rest = elems;
    let first = rest.remove(0);
    assert(first@ == ev[0]);
    let h = match ety {
        Some(t) => match &t.ty {
            MIRTypeInner::Array(i) => Some(MIRType { ty: copy_type(i), span: copy_span_opt(&t.span) }),
            MIRTypeInner::ArrayFixed(i, _) => Some(
                MIRType { ty: copy_type(i), span: copy_span_opt(&t.span) },
            ),
            _ => None,
        },
        None => None,
    };
    let fc = match check_owned(p, sca, vars, handed(first, h)) {
        Err(e) => return Err(e),
        Ok(v) => v,
    };
    let ft = copy_ty(fc.ty.as_ref().unwrap());
    let ft_inner = copy_type(&ft.ty);
    assert(exprs_view(rest@) == ev.subrange(1, len as int));
    let rc = match check_vec(p, sca, vars, rest, &Some(ft)) {
        Err(e) => return Err(e),
        Ok(v) => v,
    };
    let ghost rcv = rc@;
    let mut out = rc;
    out.insert(0, fc);
    proof {
        assert(out@ =~= seq![fc] + rcv);
        lemma_exprs_view_add(seq![fc], rcv);
        lemma_exprs_view_push(Seq::<MIRExpression>::empty(), fc);
        assert(Seq::<MIRExpression>::empty().push(fc) =~= seq![fc]);
        assert(exprs_view(Seq::<MIRExpression>::empty()) =~= Seq::<ExprV>::empty());
        assert(exprs_view(seq![fc]) =~= seq![fc@]);
    }
    Ok(
        (
            MIRExpressionInner::Array(out),
            plain_ty(MIRTypeInner::ArrayFixed(Box::new(ft_inner), len)),
        ),
    )
}

/// Computes [`check_node`], consuming the inner part of an expression.
fn check_node_exec(
    p: &MIRProgram,
    sca: bool,
    vars: &Vec<MIRVariable>,
    inner: MIRExpressionInner,
    span: &Span,
    ety: &Option<MIRType>,
) -> (res: Result<(MIRExpressionInner, MIRType), TypeError>)
    requires
        p.wf(),
    ensures
        node_agrees(res, check_node(env_of(*p, sca, vars@), inner@, span@, opt_ty_view(*ety))),
    decreases inner_size(inner), 1nat,
{
    if is_binary_exec(&inner) {
        if matches!(
            inner,
            MIRExpressionInner::Add(..) | MIRExpressionInner::Sub(..) | MIRExpressionInner::Mul(..)
                | MIRExpressionInner::Div(..)
        ) {
            check_arith(p, sca, vars, inner, span, ety)
        } else if matches!(
            inner,
            MIRExpressionInner::Equal(..) | MIRExpressionInner::NotEqual(..)
                | MIRExpressionInner::Less(..) | MIRExpressionInner::Greater(..)
        ) {
            check_compare(p, sca, vars, inner, span, ety)
        } else {
            check_logic(p, sca, vars, inner, span, ety)
        }
    } else {
        match inner {
            MIRExpressionInner::Variable(..) => check_name(p, sca, vars, inner, span, ety),
            MIRExpressionInner::FunctionCall(..) => check_call_node(p, sca, vars, inner, span, ety),
            MIRExpressionInner::Ref(..) => check_ref(p, sca, vars, inner, span, ety),
            MIRExpressionInner::Deref(..) => check_deref(p, sca, vars, inner, span, ety),
            MIRExpressionInner::Neg(..) | MIRExpressionInner::Not(..) | MIRExpressionInner::Binding(
                ..,
            ) => check_unary(p, sca, vars, inner, span, ety),
            MIRExpressionInner::Ternary(..) => check_ternary(p, sca, vars, inner, span, ety),
            MIRExpressionInner::Index(..) => check_index(p, sca, vars, inner, span, ety),
            MIRExpressionInner::Array(elems) => check_array(p, sca, vars, elems, ety),
            _ => check_leaf(p, sca, vars, inner, span, ety),
        }
    }
}

/// Whether an expression is an operator with two operands.
fn is_binary_exec(i: &MIRExpressionInner) -> (res: bool)
    ensures
        res == is_binary(*i),
{
    matches!(
        i,
        MIRExpressionInner::Add(..) | MIRExpressionInner::Sub(..) | MIRExpressionInner::Mul(..)
            | MIRExpressionInner::Div(..) | MIRExpressionInner::Equal(..)
            | MIRExpressionInner::NotEqual(..) | MIRExpressionInner::Less(..)
            | MIRExpressionInner::Greater(..) | MIRExpressionInner::LessEq(..)
            | MIRExpressionInner::GreaterEq(..) | MIRExpressionInner::BoolAnd(..)
            | MIRExpressionInner::BoolOr(..)
    )
}

/// Checks an expression with `scope`'s variables in scope (innermost last)
/// against the program's constants, statics and functions: every node gets
/// its type, unresolved numbers are resolved against their context, and
/// strings take the target's representation. Consumes the expression and
/// returns it checked, or the first error (see [`check_expr`]).
pub fn check_expression<T: Target>(
    program: &MIRProgram,
    target: &T,
    scope: &Vec<MIRVariable>,
    expr: MIRExpression,
) -> (res: Result<MIRExpression, TypeError>)
    requires
        program.wf(),
    ensures
        match (
            res,
            check_expr(
                env_of(*program, target.spec_str_char_arr(), scope@),
                expr@.inner,
                expr@.span,
                expr@.ty,
            ),
        ) {
            (Ok(x), Ok(r)) => x@ == checked(expr@, r),
            (Err(x), Err(y)) => x@ == y,
            _ => false,
        },
{
    check_owned(program, target.str_char_arr(), scope, expr)
}

// ---------------------------------------------------------------------------
// Statements
// ---------------------------------------------------------------------------

/// The models of variables.
pub open spec fn var_views(s: Seq<MIRVariable>) -> Seq<VarV> {
    s.map_values(|v: MIRVariable| v@)
}

/// What a check of a statement sees with the variables `scope` in scope
/// (innermost last), where `base` gives the program's names and types.
pub open spec fn with_scope(base: CheckEnv, scope: Seq<VarV>) -> CheckEnv {
    CheckEnv { vars: scope.map_values(|v: VarV| (v.name, v.ty)), ..base }
}

/// What a check of a statement of `p` sees with `scope` in scope.
pub open spec fn scope_env(p: MIRProgram, sca: bool, scope: Seq<VarV>) -> CheckEnv {
    with_scope(env_of(p, sca, Seq::empty()), scope)
}

/// The environment of a scope is that of its variables.
pub proof fn lemma_scope_env(p: MIRProgram, sca: bool, vars: Seq<MIRVariable>)
    ensures
        scope_env(p, sca, var_views(vars)) == env_of(p, sca, vars),
{
    assert(var_views(vars).map_values(|v: VarV| (v.name, v.ty)) =~= typed_vars(vars));
}

/// The outer part of a place expression, as [`super::expr::outer_places`]
/// gives it, on models.
pub open spec fn outer_places_v(e: ExprV) -> Seq<ExprV>
    decreases e,
{
    match e.inner {
        InnerV::Ref(x) => outer_places_v(*x) + seq![e],
        InnerV::Deref(x) => outer_places_v(*x) + seq![e],
        InnerV::Member(x, _) => outer_places_v(*x) + seq![e],
        InnerV::Index(x, _) => outer_places_v(*x) + seq![e],
        InnerV::Ternary(_, x, y) => outer_places_v(*x) + outer_places_v(*y) + seq![e],
        InnerV::Variable(_, _) => seq![e],
        _ => Seq::empty(),
    }
}

/// Whether an expression names one of the constants `consts`.
pub open spec fn names_constant(consts: Seq<Typed>, e: ExprV) -> bool {
    match e.inner {
        InnerV::Variable(n, _) => first_index_of(names_of(consts), n) is Some,
        _ => false,
    }
}

/// The span of the first expression of `s` that names one of the constants.
pub open spec fn first_constant(consts: Seq<Typed>, s: Seq<ExprV>) -> Option<SpanV>
    decreases s.len(),
{
    if s.len() == 0 {
        None
    } else if names_constant(consts, s[0]) {
        Some(s[0].span)
    } else {
        first_constant(consts, s.drop_first())
    }
}

/// Whether a place is directly a function argument in scope.
pub open spec fn is_arg_place(env: CheckEnv, scope: Seq<VarV>, place: ExprV) -> bool {
    match place.inner {
        InnerV::Variable(n, _) => match last_index_of(names_of(env.vars), n) {
            Some(i) => scope[i].arg,
            None => false,
        },
        _ => false,
    }
}

/// The checks of a place written to: no constant may be written (the first
/// constant in the place's outer part is an error), a function argument
/// may not be assigned directly, and the place itself is checked.
#[verifier::opaque]
pub open spec fn place_rule(env: CheckEnv, scope: Seq<VarV>, place: ExprV) -> Result<
    (InnerV, TyV),
    TypeErrV,
> {
    match first_constant(env.consts, outer_places_v(place)) {
        Some(sp) => Err(TypeErrV::SetConstant { span: sp }),
        None => if is_arg_place(env, scope, place) {
            Err(TypeErrV::SetArg { span: place.span })
        } else {
            check_expr(env, place.inner, place.span, place.ty)
        },
    }
}

/// An assignment: the place as [`place_rule`] checks it, then the value,
/// handed the place's type.
#[verifier::opaque]
pub open spec fn assign_rule(env: CheckEnv, scope: Seq<VarV>, place: ExprV, value: ExprV) -> Result<
    (ExprV, ExprV),
    TypeErrV,
> {
    match place_rule(env, scope, place) {
        Err(e) => Err(e),
        Ok(a) => match check_expr(env, value.inner, value.span, Some(a.1)) {
            Err(e) => Err(e),
            Ok(b) => Ok((checked(place, a), checked(value, b))),
        },
    }
}

/// Whether a new variable would shadow a variable in scope (unless it is a
/// function argument), a constant or a static.
pub open spec fn shadows(env: CheckEnv, var: VarV) -> bool {
    ||| !var.arg && last_index_of(names_of(env.vars), var.name) is Some
    ||| first_index_of(names_of(env.consts), var.name) is Some
    ||| first_index_of(names_of(env.statics), var.name) is Some
}

/// A new variable, with its type as the target represents it (an error for
/// struct types), unless it shadows.
pub open spec fn new_var_rule(env: CheckEnv, var: VarV, span: SpanV) -> Result<VarV, TypeErrV> {
    match convert(env.sca, var.ty.ty) {
        None => Err(TypeErrV::Unsupported { span }),
        Some(t) => if shadows(env, var) {
            Err(TypeErrV::Shadowing { name: var.name, span })
        } else {
            Ok(VarV { ty: TyV { ty: t, span: var.ty.span }, ..var })
        },
    }
}

/// The creation of a variable (see [`new_var_rule`]), whose value is handed
/// the variable's type.
pub open spec fn create_rule(env: CheckEnv, var: VarV, value: Option<ExprV>, span: SpanV) -> Result<
    (StmtV, Option<VarV>),
    TypeErrV,
> {
    match new_var_rule(env, var, span) {
        Err(e) => Err(e),
        Ok(v2) => match value {
            None => Ok((StmtV::CreateVariable { var: v2, value: None, span }, Some(v2))),
            Some(e) => match check_expr(env, e.inner, e.span, Some(v2.ty)) {
                Err(x) => Err(x),
                Ok(a) => Ok(
                    (StmtV::CreateVariable { var: v2, value: Some(checked(e, a)), span }, Some(v2)),
                ),
            },
        },
    }
}

/// A boolean at a statement's span.
pub open spec fn bool_at(span: SpanV) -> TyV {
    TyV { ty: TypeV::Bool, span: Some(span) }
}

/// Checks a statement of a function returning `ret`, with `scope` in scope:
/// the checked statement and the variable it creates, if any (see the
/// rules of each kind of statement).
pub open spec fn check_stmt(base: CheckEnv, scope: Seq<VarV>, ret: TyV, s: StmtV) -> Result<
    (StmtV, Option<VarV>),
    TypeErrV,
>
    decreases s, 2nat,
{
    let env = with_scope(base, scope);
    match s {
        StmtV::CreateVariable { var, value, span } => create_rule(env, var, value, span),
        StmtV::SetVariable { .. } | StmtV::AddAssign { .. } | StmtV::SubAssign { .. }
        | StmtV::MulAssign { .. } | StmtV::DivAssign { .. } | StmtV::IncrementVariable { .. }
        | StmtV::DecrementVariable { .. } => write_rule(env, scope, s),
        StmtV::FunctionCall(c) => match check_call(env, c) {
            Err(e) => Err(e),
            Ok(c2) => Ok((StmtV::FunctionCall(c2), None)),
        },
        StmtV::GotoNotEqual { .. } | StmtV::Return { .. } => jump_rule(env, ret, s),
        StmtV::IfStatement { .. } => if_rule(base, scope, ret, s),
        StmtV::LoopStatement { .. } => loop_rule(base, scope, ret, s),
        StmtV::ScopeStatement { .. } => scope_rule(base, scope, ret, s),
        _ => Ok((s, None)),
    }
}

/// Writes to places: assignments check the place (see [`assign_rule`]),
/// increments and decrements the place alone (see [`place_rule`]).
pub open spec fn write_rule(env: CheckEnv, scope: Seq<VarV>, s: StmtV) -> Result<
    (StmtV, Option<VarV>),
    TypeErrV,
> {
    match s {
        StmtV::SetVariable { place, value, span } => match assign_rule(env, scope, place, value) {
            Err(e) => Err(e),
            Ok(r) => Ok((StmtV::SetVariable { place: r.0, value: r.1, span }, None)),
        },
        StmtV::AddAssign { place, value, span } => match assign_rule(env, scope, place, value) {
            Err(e) => Err(e),
            Ok(r) => Ok((StmtV::AddAssign { place: r.0, value: r.1, span }, None)),
        },
        StmtV::SubAssign { place, value, span } => match assign_rule(env, scope, place, value) {
            Err(e) => Err(e),
            Ok(r) => Ok((StmtV::SubAssign { place: r.0, value: r.1, span }, None)),
        },
        StmtV::MulAssign { place, value, span } => match assign_rule(env, scope, place, value) {
            Err(e) => Err(e),
            Ok(r) => Ok((StmtV::MulAssign { place: r.0, value: r.1, span }, None)),
        },
        StmtV::DivAssign { place, value, span } => match assign_rule(env, scope, place, value) {
            Err(e) => Err(e),
            Ok(r) => Ok((StmtV::DivAssign { place: r.0, value: r.1, span }, None)),
        },
        StmtV::IncrementVariable { place, span } => match place_rule(env, scope, place) {
            Err(e) => Err(e),
            Ok(a) => Ok((StmtV::IncrementVariable { place: checked(place, a), span }, None)),
        },
        StmtV::DecrementVariable { place, span } => match place_rule(env, scope, place) {
            Err(e) => Err(e),
            Ok(a) => Ok((StmtV::DecrementVariable { place: checked(place, a), span }, None)),
        },
        _ => Ok((s, None)),
    }
}

/// Conditional jumps hand their condition `bool`; returns hand their value
/// the return type, and a bare return needs a unit return type.
pub open spec fn jump_rule(env: CheckEnv, ret: TyV, s: StmtV) -> Result<(StmtV, Option<VarV>), TypeErrV> {
    match s {
        StmtV::GotoNotEqual { name, index, condition, span } => match check_expr(
            env,
            condition.inner,
            condition.span,
            Some(bool_at(span)),
        ) {
            Err(e) => Err(e),
            Ok(a) => Ok(
                (StmtV::GotoNotEqual { name, index, condition: checked(condition, a), span }, None),
            ),
        },
        StmtV::Return { expr, span } => match expr {
            Some(e) => match check_expr(env, e.inner, e.span, Some(ret)) {
                Err(x) => Err(x),
                Ok(a) => Ok((StmtV::Return { expr: Some(checked(e, a)), span }, None)),
            },
            None => if ret.ty == TypeV::Unit {
                Ok((s, None))
            } else {
                Err(
                    TypeErrV::UnexpectedType {
                        expected: ret,
                        actual: TyV { ty: TypeV::Unit, span: Some(span) },
                        span,
                    },
                )
            },
        },
        _ => Ok((s, None)),
    }
}

/// An if statement hands its condition `bool`; each branch is a block of
/// its own.
pub open spec fn if_rule(base: CheckEnv, scope: Seq<VarV>, ret: TyV, s: StmtV) -> Result<
    (StmtV, Option<VarV>),
    TypeErrV,
>
    decreases s, 1nat,
{
    match s {
        StmtV::IfStatement { condition, on_true, on_false, span } => match check_expr(
            with_scope(base, scope),
            condition.inner,
            condition.span,
            Some(bool_at(span)),
        ) {
            Err(e) => Err(e),
            Ok(a) => match check_block(base, scope, ret, on_true) {
                Err(e) => Err(e),
                Ok(t) => match check_block(base, scope, ret, on_false) {
                    Err(e) => Err(e),
                    Ok(f) => Ok(
                        (
                            StmtV::IfStatement {
                                condition: checked(condition, a),
                                on_true: t.0,
                                on_false: f.0,
                                span,
                            },
                            None,
                        ),
                    ),
                },
            },
        },
        _ => Ok((s, None)),
    }
}

/// A loop's body and the statements run after each iteration are blocks of
/// their own; the loop's condition is left as it is.
pub open spec fn loop_rule(base: CheckEnv, scope: Seq<VarV>, ret: TyV, s: StmtV) -> Result<
    (StmtV, Option<VarV>),
    TypeErrV,
>
    decreases s, 1nat,
{
    match s {
        StmtV::LoopStatement { condition, body, iterate, span } => match check_block(
            base,
            scope,
            ret,
            body,
        ) {
            Err(e) => Err(e),
            Ok(b) => match check_block(base, scope, ret, iterate) {
                Err(e) => Err(e),
                Ok(i) => Ok(
                    (StmtV::LoopStatement { condition, body: b.0, iterate: i.0, span }, None),
                ),
            },
        },
        _ => Ok((s, None)),
    }
}

/// A nested scope is a block of its own.
pub open spec fn scope_rule(base: CheckEnv, scope: Seq<VarV>, ret: TyV, s: StmtV) -> Result<
    (StmtV, Option<VarV>),
    TypeErrV,
>
    decreases s, 1nat,
{
    match s {
        StmtV::ScopeStatement { body, span } => match check_block(base, scope, ret, body) {
            Err(e) => Err(e),
            Ok(b) => Ok((StmtV::ScopeStatement { body: b.0, span }, None)),
        },
        _ => Ok((s, None)),
    }
}

/// Checks the statements of a block in order, each with the variables
/// created before it in scope: the checked statements and the scope at the
/// end of the block, or the first error.
pub open spec fn check_block(base: CheckEnv, scope: Seq<VarV>, ret: TyV, b: Seq<StmtV>) -> Result<
    (Seq<StmtV>, Seq<VarV>),
    TypeErrV,
>
    decreases b, 3nat,
{
    if b.len() == 0 {
        Ok((Seq::empty(), scope))
    } else {
        proof {
            axiom_seq_len_decreases(b, b.drop_last());
        }
        match check_block(base, scope, ret, b.drop_last()) {
            Err(e) => Err(e),
            Ok(r) => match check_stmt(base, r.1, ret, b.last()) {
                Err(e) => Err(e),
                Ok(q) => Ok(
                    (
                        r.0.push(q.0),
                        match q.1 {
                            Some(v) => r.1.push(v),
                            None => r.1,
                        },
                    ),
                ),
            },
        }
    }
}

/// The first constant of a concatenation is the first one of its first part,
/// if that has one.
proof fn lemma_first_constant_add(consts: Seq<Typed>, a: Seq<ExprV>, b: Seq<ExprV>)
    ensures
        first_constant(consts, a + b) == match first_constant(consts, a) {
            Some(x) => Some(x),
            None => first_constant(consts, b),
        },
    decreases a.len(),
{
    if a.len() > 0 {
        assert((a + b).drop_first() =~= a.drop_first() + b);
        lemma_first_constant_add(consts, a.drop_first(), b);
    } else {
        assert(a + b =~= b);
    }
}

/// Computes [`first_constant`] of the outer part of a place.
fn find_const_place(cs: &Vec<MIRConstant>, e: &MIRExpression) -> (res: Option<Span>)
    ensures
        opt_span_view(res) == first_constant(typed_consts(cs@), outer_places_v(e@)),
    decreases expr_size(*e),
{
    let ghost consts = typed_consts(cs@);
    match &e.inner {
        MIRExpressionInner::Ref(x) | MIRExpressionInner::Deref(x) | MIRExpressionInner::Member(x, _)
        | MIRExpressionInner::Index(x, _) => {
            proof {
                lemma_first_constant_add(consts, outer_places_v(x@), seq![e@]);
                assert(seq![e@].drop_first() =~= Seq::<ExprV>::empty());
                assert(first_constant(consts, Seq::<ExprV>::empty()) == None::<SpanV>);
                assert(!names_constant(consts, e@));
                assert(first_constant(consts, seq![e@]) == None::<SpanV>);
            }
            match find_const_place(cs, x) {
                Some(sp) => Some(sp),
                None => None,
            }
        },
        MIRExpressionInner::Ternary(_, x, y) => {
            proof {
                lemma_first_constant_add(consts, outer_places_v(x@), outer_places_v(y@) + seq![e@]);
                lemma_first_constant_add(consts, outer_places_v(y@), seq![e@]);
                assert(outer_places_v(x@) + outer_places_v(y@) + seq![e@] =~= outer_places_v(x@) + (
                outer_places_v(y@) + seq![e@]));
                assert(seq![e@].drop_first() =~= Seq::<ExprV>::empty());
                assert(first_constant(consts, Seq::<ExprV>::empty()) == None::<SpanV>);
                assert(!names_constant(consts, e@));
                assert(first_constant(consts, seq![e@]) == None::<SpanV>);
            }
            match find_const_place(cs, x) {
                Some(sp) => Some(sp),
                None => match find_const_place(cs, y) {
                    Some(sp) => Some(sp),
                    None => None,
                },
            }
        },
        MIRExpressionInner::Variable(n, _) => {
            proof {
                assert(seq![e@].drop_first() =~= Seq::<ExprV>::empty());
                assert(seq![e@][0] == e@);
                assert(first_constant(consts, Seq::<ExprV>::empty()) == None::<SpanV>);
            }
            if find_const(cs, n).is_some() {
                Some(e.span.clone())
            } else {
                None
            }
        },
        _ => None,
    }
}

/// A copy of a variable.
pub(crate) fn copy_var(v: &MIRVariable) -> (res: MIRVariable)
    ensures
        res@ == v@,
{
    MIRVariable {
        name: v.name.clone(),
        ty: copy_ty(&v.ty),
        arg: v.arg,
        var_idx: v.var_idx,
        span: v.span.clone(),
    }
}

/// The executable result of a statement check agrees with the rule, and the
/// scope gained the variable the statement creates.
pub open spec fn stmt_agrees(
    r: Result<MIRStatement, TypeError>,
    s: Result<(StmtV, Option<VarV>), TypeErrV>,
    before: Seq<MIRVariable>,
    after: Seq<MIRVariable>,
) -> bool {
    match (r, s) {
        (Ok(x), Ok(q)) => x@ == q.0 && var_views(after) == match q.1 {
            Some(v) => var_views(before).push(v),
            None => var_views(before),
        },
        (Err(x), Err(y)) => x@ == y,
        _ => false,
    }
}

/// Computes [`place_rule`], consuming the place.
fn place_exec(p: &MIRProgram, sca: bool, scope: &Vec<MIRVariable>, place: MIRExpression) -> (res:
    Result<MIRExpression, TypeError>)
    requires
        p.wf(),
    ensures
        match (res, place_rule(scope_env(*p, sca, var_views(scope@)), var_views(scope@), place@)) {
            (Ok(x), Ok(a)) => x@ == checked(place@, a),
            (Err(x), Err(y)) => x@ == y,
            _ => false,
        },
{
    let ghost env = scope_env(*p, sca, var_views(scope@));
    proof {
        lemma_scope_env(*p, sca, scope@);
        reveal(place_rule);
    }
    match find_const_place(&p.constants, &place) {
        Some(sp) => return Err(TypeError::SetConstant { span: sp }),
        None => {},
    }
    let is_arg = match &place.inner {
        MIRExpressionInner::Variable(n, _) => match find_var(scope, n) {
            Some(i) => scope[i].arg,
            None => false,
        },
        _ => false,
    };
    if is_arg {
        return Err(TypeError::SetArg { span: place.span.clone() });
    }
    check_owned(p, sca, scope, place)
}

/// Computes [`assign_rule`], consuming the place and the value.
fn assign_exec(
    p: &MIRProgram,
    sca: bool,
    scope: &Vec<MIRVariable>,
    place: MIRExpression,
    value: MIRExpression,
) -> (res: Result<(MIRExpression, MIRExpression), TypeError>)
    requires
        p.wf(),
    ensures
        match (
            res,
            assign_rule(scope_env(*p, sca, var_views(scope@)), var_views(scope@), place@, value@),
        ) {
            (Ok(x), Ok(y)) => x.0@ == y.0 && x.1@ == y.1,
            (Err(x), Err(y)) => x@ == y,
            _ => false,
        },
{
    proof {
        lemma_scope_env(*p, sca, scope@);
        reveal(assign_rule);
        reveal(place_rule);
    }
    let pl = match place_exec(p, sca, scope, place) {
        Err(e) => return Err(e),
        Ok(x) => x,
    };
    let t = copy_ty(pl.ty.as_ref().unwrap());
    match check_owned(p, sca, scope, handed(value, Some(t))) {
        Err(e) => Err(e),
        Ok(v) => Ok((pl, v)),
    }
}

/// Computes [`new_var_rule`], consuming the variable.
fn new_var_exec(p: &MIRProgram, sca: bool, scope: &Vec<MIRVariable>, var: MIRVariable, span: &Span) -> (res:
    Result<MIRVariable, TypeError>)
    ensures
        agrees(res, new_var_rule(scope_env(*p, sca, var_views(scope@)), var@, span@)),
{
    proof {
        lemma_scope_env(*p, sca, scope@);
    }
    let MIRVariable { name, ty, arg, var_idx, span: vspan } = var;
    let MIRType { ty: vt, span: tspan } = ty;
    let t = match converted(sca, &vt) {
        None => return Err(TypeError::Unsupported { span: span.clone() }),
        Some(t) => t,
    };
    let v2 = MIRVariable { name, ty: MIRType { ty: t, span: tspan }, arg, var_idx, span: vspan };
    let shadowing = (!v2.arg && find_var(scope, &v2.name).is_some()) || find_const(
        &p.constants,
        &v2.name,
    ).is_some() || find_static(&p.statics, &v2.name).is_some();
    if shadowing {
        return Err(TypeError::Shadowing { name: v2.name, span: span.clone() });
    }
    Ok(v2)
}

/// Computes [`create_rule`], adding the variable to the scope.
#[verifier::spinoff_prover]
fn create_exec(
    p: &MIRProgram,
    sca: bool,
    scope: &mut Vec<MIRVariable>,
    var: MIRVariable,
    value: Option<MIRExpression>,
    span: Span,
) -> (res: Result<MIRStatement, TypeError>)
    requires
        p.wf(),
    ensures
        stmt_agrees(
            res,
            create_rule(
                scope_env(*p, sca, var_views(old(scope)@)),
                var@,
                opt_expr_v(value),
                span@,
            ),
            old(scope)@,
            final(scope)@,
        ),
        old(scope)@.len() <= final(scope)@.len(),
        final(scope)@.take(old(scope)@.len() as int) == old(scope)@,
{
    proof {
        lemma_scope_env(*p, sca, scope@);
        assert(scope@.take(scope@.len() as int) =~= scope@);
    }
    let v2 = match new_var_exec(p, sca, scope, var, &span) {
        Err(e) => return Err(e),
        Ok(v) => v,
    };
    let value2 = match value {
        None => None,
        Some(e) => {
            let e2 = handed(e, Some(copy_ty(&v2.ty)));
            match check_owned(p, sca, scope, e2) {
                Err(x) => return Err(x),
                Ok(c) => Some(c),
            }
        },
    };
    let vc = copy_var(&v2);
    let ghost before = scope@;
    scope.push(vc);
    proof {
        assert(var_views(scope@) =~= var_views(before).push(v2@));
        assert(scope@.take(before.len() as int) =~= before);
    }
    Ok(MIRStatement::CreateVariable { var: v2, value: value2, span })
}

/// Model of an optional expression.
pub open spec fn opt_expr_v(e: Option<MIRExpression>) -> Option<ExprV> {
    match e {
        Some(x) => Some(x@),
        None => None,
    }
}

/// A statement check that creates no variable agrees with the rule.
pub open spec fn flat_agrees(r: Result<MIRStatement, TypeError>, s: Result<(StmtV, Option<VarV>), TypeErrV>) -> bool {
    match (r, s) {
        (Ok(x), Ok(q)) => x@ == q.0 && q.1 is None,
        (Err(x), Err(y)) => x@ == y,
        _ => false,
    }
}

/// Computes [`write_rule`] for assignments.
#[verifier::spinoff_prover]
fn assign_stmt_exec(p: &MIRProgram, sca: bool, scope: &Vec<MIRVariable>, s: MIRStatement) -> (res: Result<
    MIRStatement,
    TypeError,
>)
    requires
        p.wf(),
        s is SetVariable || s is AddAssign || s is SubAssign || s is MulAssign || s is DivAssign,
    ensures
        flat_agrees(res, write_rule(scope_env(*p, sca, var_views(scope@)), var_views(scope@), s@)),
{
    match s {
        MIRStatement::SetVariable { place, value, span } => match assign_exec(p, sca, scope, place, value) {
            Err(e) => Err(e),
            Ok((pl, vl)) => Ok(MIRStatement::SetVariable { place: pl, value: vl, span }),
        },
        MIRStatement::AddAssign { place, value, span } => match assign_exec(p, sca, scope, place, value) {
            Err(e) => Err(e),
            Ok((pl, vl)) => Ok(MIRStatement::AddAssign { place: pl, value: vl, span }),
        },
        MIRStatement::SubAssign { place, value, span } => match assign_exec(p, sca, scope, place, value) {
            Err(e) => Err(e),
            Ok((pl, vl)) => Ok(MIRStatement::SubAssign { place: pl, value: vl, span }),
        },
        MIRStatement::MulAssign { place, value, span } => match assign_exec(p, sca, scope, place, value) {
            Err(e) => Err(e),
            Ok((pl, vl)) => Ok(MIRStatement::MulAssign { place: pl, value: vl, span }),
        },
        MIRStatement::DivAssign { place, value, span } => match assign_exec(p, sca, scope, place, value) {
            Err(e) => Err(e),
            Ok((pl, vl)) => Ok(MIRStatement::DivAssign { place: pl, value: vl, span }),
        },
        _ => {
            proof {
                assert(false);
            }
            Err(TypeError::Unsupported { span: Span::empty() })
        },
    }
}

/// Computes [`write_rule`] for increments and decrements.
#[verifier::spinoff_prover]
fn step_stmt_exec(p: &MIRProgram, sca: bool, scope: &Vec<MIRVariable>, s: MIRStatement) -> (res: Result<
    MIRStatement,
    TypeError,
>)
    requires
        p.wf(),
        s is IncrementVariable || s is DecrementVariable,
    ensures
        flat_agrees(res, write_rule(scope_env(*p, sca, var_views(scope@)), var_views(scope@), s@)),
{
    match s {
        MIRStatement::IncrementVariable { place, span } => match place_exec(p, sca, scope, place) {
            Err(e) => Err(e),
            Ok(pl) => Ok(MIRStatement::IncrementVariable { place: pl, span }),
        },
        MIRStatement::DecrementVariable { place, span } => match place_exec(p, sca, scope, place) {
            Err(e) => Err(e),
            Ok(pl) => Ok(MIRStatement::DecrementVariable { place: pl, span }),
        },
        _ => {
            proof {
                assert(false);
            }
            Err(TypeError::Unsupported { span: Span::empty() })
        },
    }
}

/// Computes [`jump_rule`].
#[verifier::spinoff_prover]
fn jump_exec(p: &MIRProgram, sca: bool, scope: &Vec<MIRVariable>, ret: &MIRType, s: MIRStatement) -> (res:
    Result<MIRStatement, TypeError>)
    requires
        p.wf(),
        s is GotoNotEqual || s is Return,
    ensures
        flat_agrees(res, jump_rule(scope_env(*p, sca, var_views(scope@)), ret@, s@)),
{
    proof {
        lemma_scope_env(*p, sca, scope@);
    }
    match s {
        MIRStatement::GotoNotEqual { name, index, condition, span } => {
            let b = MIRType { ty: MIRTypeInner::Bool, span: Some(span.clone()) };
            match check_owned(p, sca, scope, handed(condition, Some(b))) {
                Err(e) => Err(e),
                Ok(c) => Ok(MIRStatement::GotoNotEqual { name, index, condition: c, span }),
            }
        },
        MIRStatement::Return { expr, span } => match expr {
            Some(e) => match check_owned(p, sca, scope, handed(e, Some(copy_ty(ret)))) {
                Err(x) => Err(x),
                Ok(c) => Ok(MIRStatement::Return { expr: Some(c), span }),
            },
            None => {
                let unit = MIRTypeInner::Unit;
                if type_eq(&ret.ty, &unit) {
                    Ok(MIRStatement::Return { expr: None, span })
                } else {
                    Err(
                        TypeError::UnexpectedType {
                            expected: copy_ty(ret),
                            actual: MIRType { ty: unit, span: Some(span.clone()) },
                            span,
                        },
                    )
                }
            },
        },
        other => Ok(other),
    }
}

/// Computes [`if_rule`].
#[verifier::spinoff_prover]
fn if_exec(
    p: &MIRProgram,
    sca: bool,
    scope: &mut Vec<MIRVariable>,
    ret: &MIRType,
    s: MIRStatement,
) -> (res: Result<MIRStatement, TypeError>)
    requires
        p.wf(),
        s is IfStatement,
    ensures
        flat_agrees(res, if_rule(env_of(*p, sca, Seq::empty()), var_views(old(scope)@), ret@, s@)),
        res is Ok ==> final(scope)@ == old(scope)@,
        old(scope)@.len() <= final(scope)@.len(),
        final(scope)@.take(old(scope)@.len() as int) == old(scope)@,
    decreases stmt_size(s), 0nat,
{
    let ghost s0 = scope@;
    proof {
        lemma_scope_env(*p, sca, scope@);
        assert(scope@.take(scope@.len() as int) =~= scope@);
    }
    match s {
        MIRStatement::IfStatement { condition, on_true, on_false, span } => {
            let b = MIRType { ty: MIRTypeInner::Bool, span: Some(span.clone()) };
            let c = match check_owned(p, sca, scope, handed(condition, Some(b))) {
                Err(e) => return Err(e),
                Ok(c) => c,
            };
            let len = scope.len();
            let t = match check_block_exec(p, sca, scope, ret, on_true) {
                Err(e) => return Err(e),
                Ok(t) => t,
            };
            scope.truncate(len);
            assert(scope@ =~= s0);
            let f = match check_block_exec(p, sca, scope, ret, on_false) {
                Err(e) => return Err(e),
                Ok(f) => f,
            };
            scope.truncate(len);
            assert(scope@ =~= s0);
            Ok(MIRStatement::IfStatement { condition: c, on_true: t, on_false: f, span })
        },
        _ => {
            proof {
                assert(false);
            }
            Err(TypeError::Unsupported { span: Span::empty() })
        },
    }
}

/// Computes [`loop_rule`].
#[verifier::spinoff_prover]
fn loop_exec(
    p: &MIRProgram,
    sca: bool,
    scope: &mut Vec<MIRVariable>,
    ret: &MIRType,
    s: MIRStatement,
) -> (res: Result<MIRStatement, TypeError>)
    requires
        p.wf(),
        s is LoopStatement,
    ensures
        flat_agrees(res, loop_rule(env_of(*p, sca, Seq::empty()), var_views(old(scope)@), ret@, s@)),
        res is Ok ==> final(scope)@ == old(scope)@,
        old(scope)@.len() <= final(scope)@.len(),
        final(scope)@.take(old(scope)@.len() as int) == old(scope)@,
    decreases stmt_size(s), 0nat,
{
    let ghost s0 = scope@;
    proof {
        assert(scope@.take(scope@.len() as int) =~= scope@);
    }
    match s {
        MIRStatement::LoopStatement { condition, body, iterate, span } => {
            let len = scope.len();
            let b = match check_block_exec(p, sca, scope, ret, body) {
                Err(e) => return Err(e),
                Ok(b) => b,
            };
            scope.truncate(len);
            assert(scope@ =~= s0);
            let i = match check_block_exec(p, sca, scope, ret, iterate) {
                Err(e) => return Err(e),
                Ok(i) => i,
            };
            scope.truncate(len);
            assert(scope@ =~= s0);
            Ok(MIRStatement::LoopStatement { condition, body: b, iterate: i, span })
        },
        _ => {
            proof {
                assert(false);
            }
            Err(TypeError::Unsupported { span: Span::empty() })
        },
    }
}

/// Computes [`scope_rule`].
#[verifier::spinoff_prover]
fn scope_exec(
    p: &MIRProgram,
    sca: bool,
    scope: &mut Vec<MIRVariable>,
    ret: &MIRType,
    s: MIRStatement,
) -> (res: Result<MIRStatement, TypeError>)
    requires
        p.wf(),
        s is ScopeStatement,
    ensures
        flat_agrees(res, scope_rule(env_of(*p, sca, Seq::empty()), var_views(old(scope)@), ret@, s@)),
        res is Ok ==> final(scope)@ == old(scope)@,
        old(scope)@.len() <= final(scope)@.len(),
        final(scope)@.take(old(scope)@.len() as int) == old(scope)@,
    decreases stmt_size(s), 0nat,
{
    let ghost s0 = scope@;
    proof {
        assert(scope@.take(scope@.len() as int) =~= scope@);
    }
    match s {
        MIRStatement::ScopeStatement { body, span } => {
            let len = scope.len();
            let b = match check_block_exec(p, sca, scope, ret, body) {
                Err(e) => return Err(e),
                Ok(b) => b,
            };
            scope.truncate(len);
            assert(scope@ =~= s0);
            Ok(MIRStatement::ScopeStatement { body: b, span })
        },
        _ => {
            proof {
                assert(false);
            }
            Err(TypeError::Unsupported { span: Span::empty() })
        },
    }
}

/// Checks a statement (see [`check_stmt`]), adding the variable it creates
/// to the scope.
#[verifier::spinoff_prover]
#[verifier::rlimit(60)]
fn check_stmt_exec(
    p: &MIRProgram,
    sca: bool,
    scope: &mut Vec<MIRVariable>,
    ret: &MIRType,
    s: MIRStatement,
) -> (res: Result<MIRStatement, TypeError>)
    requires
        p.wf(),
    ensures
        stmt_agrees(res, check_stmt(env_of(*p, sca, Seq::empty()), var_views(old(scope)@), ret@, s@), old(scope)@, final(scope)@),
        old(scope)@.len() <= final(scope)@.len(),
        final(scope)@.take(old(scope)@.len() as int) == old(scope)@,
    decreases stmt_size(s), 1nat,
{
    let ghost sv = var_views(scope@);
    let ghost base = env_of(*p, sca, Seq::empty());
    let ghost env = scope_env(*p, sca, sv);
    proof {
        lemma_scope_env(*p, sca, scope@);
        assert(scope@.take(scope@.len() as int) =~= scope@);
    }
    match s {
        MIRStatement::IfStatement { .. } => {
            assert(check_stmt(base, sv, ret@, s@) == if_rule(base, sv, ret@, s@));
            if_exec(p, sca, scope, ret, s)
        },
        MIRStatement::LoopStatement { .. } => {
            assert(check_stmt(base, sv, ret@, s@) == loop_rule(base, sv, ret@, s@));
            loop_exec(p, sca, scope, ret, s)
        },
        MIRStatement::ScopeStatement { .. } => {
            assert(check_stmt(base, sv, ret@, s@) == scope_rule(base, sv, ret@, s@));
            scope_exec(p, sca, scope, ret, s)
        },
        MIRStatement::SetVariable { .. } | MIRStatement::AddAssign { .. }
        | MIRStatement::SubAssign { .. } | MIRStatement::MulAssign { .. }
        | MIRStatement::DivAssign { .. } => {
            assert(check_stmt(base, sv, ret@, s@) == write_rule(env, sv, s@));
            assign_stmt_exec(p, sca, scope, s)
        },
        MIRStatement::IncrementVariable { .. } | MIRStatement::DecrementVariable { .. } => {
            assert(check_stmt(base, sv, ret@, s@) == write_rule(env, sv, s@));
            step_stmt_exec(p, sca, scope, s)
        },
        MIRStatement::GotoNotEqual { .. } | MIRStatement::Return { .. } => {
            assert(check_stmt(base, sv, ret@, s@) == jump_rule(env, ret@, s@));
            jump_exec(p, sca, scope, ret, s)
        },
        MIRStatement::CreateVariable { var, value, span } => {
            assert(check_stmt(base, sv, ret@, s@) == create_rule(env, var@, opt_expr_v(value), span@));
            create_exec(p, sca, scope, var, value, span)
        },
        MIRStatement::FunctionCall(c) => match check_fn_call(p, sca, scope, c) {
            Err(e) => Err(e),
            Ok(c2) => Ok(MIRStatement::FunctionCall(c2)),
        },
        other => Ok(other),
    }
}

/// Checks the statements of a block in order (see [`check_block`]), adding
/// the variables they create to the scope.
#[verifier::spinoff_prover]
fn check_block_exec(
    p: &MIRProgram,
    sca: bool,
    scope: &mut Vec<MIRVariable>,
    ret: &MIRType,
    b: Vec<MIRStatement>,
) -> (res: Result<Vec<MIRStatement>, TypeError>)
    requires
        p.wf(),
    ensures
        match (res, check_block(env_of(*p, sca, Seq::empty()), var_views(old(scope)@), ret@, stmts_view(b@))) {
            (Ok(x), Ok(r)) => stmts_view(x@) == r.0 && var_views(final(scope)@) == r.1,
            (Err(x), Err(y)) => x@ == y,
            _ => false,
        },
        old(scope)@.len() <= final(scope)@.len(),
        final(scope)@.take(old(scope)@.len() as int) == old(scope)@,
    decreases stmts_size(b@), 2nat,
{
    let ghost orig = b@;
    let ghost s0 = scope@;
    let ghost bv = stmts_view(b@);
    proof {
        lemma_stmts_size_elems(orig);
        lemma_stmts_view_index(orig);
        assert(bv.take(0) =~= Seq::<StmtV>::empty());
        assert(stmts_view(Seq::<MIRStatement>::empty()) =~= Seq::<StmtV>::empty());
        assert(scope@.take(scope@.len() as int) =~= scope@);
    }
    let n = b.len();
    let mut rest = b;
    let mut out: Vec<MIRStatement> = Vec::new();
    let mut err: Option<TypeError> = None;
    let mut k: usize = 0;
    while k < n
        invariant
            n == orig.len(),
            k <= n,
            p.wf(),
            bv == stmts_view(orig),
            bv.len() == n,
            forall|j: int| 0 <= j < n ==> #[trigger] bv[j] == orig[j]@,
            rest@ =~= orig.subrange(k as int, n as int),
            s0.len() <= scope@.len(),
            scope@.take(s0.len() as int) == s0,
            match err {
                None => check_block(env_of(*p, sca, Seq::empty()), var_views(s0), ret@, bv.take(k as int)) == Ok::<
                    (Seq<StmtV>, Seq<VarV>),
                    TypeErrV,
                >((stmts_view(out@), var_views(scope@))),
                Some(e) => check_block(env_of(*p, sca, Seq::empty()), var_views(s0), ret@, bv.take(k as int)) == Err::<
                    (Seq<StmtV>, Seq<VarV>),
                    TypeErrV,
                >(e@),
            },
            forall|i: int| 0 <= i < orig.len() ==> stmt_size(#[trigger] orig[i]) < stmts_size(orig),
            stmts_size(orig) == stmts_size(b@),
        decreases n - k,
    {
        let x = rest.remove(0);
        assert(x == orig[k as int]);
        assert(stmt_size(x) < stmts_size(b@));
        proof {
            assert(bv.take(k as int + 1).drop_last() =~= bv.take(k as int));
            assert(bv.take(k as int + 1).last() == x@);
        }
        if err.is_none() {
            let ghost sc = scope@;
            match check_stmt_exec(p, sca, scope, ret, x) {
                Ok(y) => {
                    proof {
                        lemma_stmts_view_push(out@, y);
                        assert(scope@.take(s0.len() as int) =~= sc.take(s0.len() as int));
                    }
                    out.push(y);
                },
                Err(e) => {
                    proof {
                        assert(scope@.take(s0.len() as int) =~= sc.take(s0.len() as int));
                    }
                    err = Some(e);
                },
            }
        }
        k = k + 1;
    }
    assert(bv.take(n as int) =~= bv);
    match err {
        None => Ok(out),
        Some(e) => Err(e),
    }
}

// ---------------------------------------------------------------------------
// Constants, statics and functions
// ---------------------------------------------------------------------------

/// Checks a constant of the program: its value is handed the constant's
/// type. Consumes the constant and returns it checked, or the first error.
pub fn check_constant<T: Target>(program: &MIRProgram, target: &T, constant: MIRConstant) -> (res:
    Result<MIRConstant, TypeError>)
    requires
        program.wf(),
    ensures
        match (
            res,
            check_expr(
                env_of(*program, target.spec_str_char_arr(), Seq::empty()),
                constant.value@.inner,
                constant.value@.span,
                Some(constant.ty@),
            ),
        ) {
            (Ok(c), Ok(a)) => c.value@ == checked(constant.value@, a) && c.name == constant.name
                && c.ty == constant.ty && c.span == constant.span,
            (Err(x), Err(y)) => x@ == y,
            _ => false,
        },
{
    let MIRConstant { name, ty, value, span } = constant;
    let scope: Vec<MIRVariable> = Vec::new();
    assert(scope@ =~= Seq::<MIRVariable>::empty());
    let v = handed(value, Some(copy_ty(&ty)));
    match check_owned(program, target.str_char_arr(), &scope, v) {
        Err(e) => Err(e),
        Ok(v2) => Ok(MIRConstant { name, ty, value: v2, span }),
    }
}

/// Checks a static of the program: its value is handed the static's type.
/// Consumes the static and returns it checked, or the first error.
pub fn check_static<T: Target>(program: &MIRProgram, target: &T, static_data: MIRStatic) -> (res:
    Result<MIRStatic, TypeError>)
    requires
        program.wf(),
    ensures
        match (
            res,
            check_expr(
                env_of(*program, target.spec_str_char_arr(), Seq::empty()),
                static_data.value@.inner,
                static_data.value@.span,
                Some(static_data.ty@),
            ),
        ) {
            (Ok(c), Ok(a)) => c.value@ == checked(static_data.value@, a) && c.name
                == static_data.name && c.ty == static_data.ty && c.span == static_data.span,
            (Err(x), Err(y)) => x@ == y,
            _ => false,
        },
{
    let MIRStatic { name, ty, value, span } = static_data;
    let scope: Vec<MIRVariable> = Vec::new();
    assert(scope@ =~= Seq::<MIRVariable>::empty());
    let v = handed(value, Some(copy_ty(&ty)));
    match check_owned(program, target.str_char_arr(), &scope, v) {
        Err(e) => Err(e),
        Ok(v2) => Ok(MIRStatic { name, ty, value: v2, span }),
    }
}

/// Checks the body of a function of the program (see [`check_block`]),
/// starting with nothing in scope: its (phantom) argument variables come
/// into scope through the statements that create them. Consumes the
/// function and returns it checked, or the first error.
pub fn check_function<T: Target>(program: &MIRProgram, target: &T, function: MIRFunction) -> (res:
    Result<MIRFunction, TypeError>)
    requires
        program.wf(),
    ensures
        match (
            res,
            check_block(
                env_of(*program, target.spec_str_char_arr(), Seq::empty()),
                Seq::empty(),
                function.ret_ty@,
                stmts_view(function.body@),
            ),
        ) {
            (Ok(f), Ok(r)) => stmts_view(f.body@) == r.0 && f == (MIRFunction {
                body: f.body,
                ..function
            }),
            (Err(x), Err(y)) => x@ == y,
            _ => false,
        },
{
    let MIRFunction { name, fn_type, ret_ty, args, args_ty, body, span, extern_import } = function;
    let mut scope: Vec<MIRVariable> = Vec::new();
    assert(var_views(scope@) =~= Seq::<VarV>::empty());
    match check_block_exec(program, target.str_char_arr(), &mut scope, &ret_ty, body) {
        Err(e) => Err(e),
        Ok(b) => Ok(MIRFunction { name, fn_type, ret_ty, args, args_ty, body: b, span, extern_import }),
    }
}

// ---------------------------------------------------------------------------
// Whole programs
// ---------------------------------------------------------------------------

/// The checked values of constants (each handed its constant's type), in
/// order, or the first error.
pub open spec fn check_consts(base: CheckEnv, cs: Seq<MIRConstant>) -> Result<Seq<ExprV>, TypeErrV>
    decreases cs.len(),
{
    if cs.len() == 0 {
        Ok(Seq::empty())
    } else {
        match check_consts(base, cs.drop_last()) {
            Err(e) => Err(e),
            Ok(prev) => {
                let c = cs.last();
                match check_expr(base, c.value@.inner, c.value@.span, Some(c.ty@)) {
                    Err(e) => Err(e),
                    Ok(a) => Ok(prev.push(checked(c.value@, a))),
                }
            },
        }
    }
}

/// The checked values of statics (each handed its static's type), in order,
/// or the first error.
pub open spec fn check_statics(base: CheckEnv, ss: Seq<MIRStatic>) -> Result<Seq<ExprV>, TypeErrV>
    decreases ss.len(),
{
    if ss.len() == 0 {
        Ok(Seq::empty())
    } else {
        match check_statics(base, ss.drop_last()) {
            Err(e) => Err(e),
            Ok(prev) => {
                let c = ss.last();
                match check_expr(base, c.value@.inner, c.value@.span, Some(c.ty@)) {
                    Err(e) => Err(e),
                    Ok(a) => Ok(prev.push(checked(c.value@, a))),
                }
            },
        }
    }
}

/// The checked bodies of functions, in order, or the first error.
pub open spec fn check_bodies(base: CheckEnv, fs: Seq<MIRFunction>) -> Result<Seq<Seq<StmtV>>, TypeErrV>
    decreases fs.len(),
{
    if fs.len() == 0 {
        Ok(Seq::empty())
    } else {
        match check_bodies(base, fs.drop_last()) {
            Err(e) => Err(e),
            Ok(prev) => {
                let f = fs.last();
                match check_block(base, Seq::empty(), f.ret_ty@, stmts_view(f.body@)) {
                    Err(e) => Err(e),
                    Ok(r) => Ok(prev.push(r.0)),
                }
            },
        }
    }
}

/// Type checking a program: its constants, then its statics, then its
/// functions, each against the program's names and types; the checked
/// values and bodies, or the first error.
pub open spec fn type_check_rule(p: MIRProgram, sca: bool) -> Result<
    (Seq<ExprV>, Seq<ExprV>, Seq<Seq<StmtV>>),
    TypeErrV,
> {
    let base = env_of(p, sca, Seq::empty());
    match check_consts(base, p.constants@) {
        Err(e) => Err(e),
        Ok(cv) => match check_statics(base, p.statics@) {
            Err(e) => Err(e),
            Ok(sv) => match check_bodies(base, p.functions@) {
                Err(e) => Err(e),
                Ok(fb) => Ok((cv, sv, fb)),
            },
        },
    }
}

/// `q` is `p` with the checked values and bodies `r` and nothing else changed.
pub open spec fn typed_program(
    p: MIRProgram,
    q: MIRProgram,
    r: (Seq<ExprV>, Seq<ExprV>, Seq<Seq<StmtV>>),
) -> bool {
    &&& q.decls == p.decls
    &&& q.markers == p.markers
    &&& q.function_names == p.function_names
    &&& q.required_imports == p.required_imports
    &&& q.constants@.len() == p.constants@.len()
    &&& q.statics@.len() == p.statics@.len()
    &&& q.functions@.len() == p.functions@.len()
    &&& forall|i: int|
        0 <= i < p.constants@.len() ==> #[trigger] q.constants@[i] == (MIRConstant {
            value: q.constants@[i].value,
            ..p.constants@[i]
        }) && q.constants@[i].value@ == r.0[i]
    &&& forall|i: int|
        0 <= i < p.statics@.len() ==> #[trigger] q.statics@[i] == (MIRStatic {
            value: q.statics@[i].value,
            ..p.statics@[i]
        }) && q.statics@[i].value@ == r.1[i]
    &&& forall|i: int|
        0 <= i < p.functions@.len() ==> #[trigger] q.functions@[i] == (MIRFunction {
            body: q.functions@[i].body,
            ..p.functions@[i]
        }) && stmts_view(q.functions@[i].body@) == r.2[i]
}

/// Copies of the names, types and spans of constants, with no values.
fn shell_consts(cs: &Vec<MIRConstant>) -> (res: Vec<MIRConstant>)
    ensures
        typed_consts(res@) == typed_consts(cs@),
{
    let mut out: Vec<MIRConstant> = Vec::new();
    let mut i: usize = 0;
    while i < cs.len()
        invariant
            i <= cs@.len(),
            out@.len() == i,
            forall|j: int|
                0 <= j < i ==> (#[trigger] out@[j]).name@ == cs@[j].name@ && out@[j].ty@ == cs@[j].ty@,
        decreases cs@.len() - i,
    {
        let c = &cs[i];
        out.push(
            MIRConstant {
                name: c.name.clone(),
                ty: copy_ty(&c.ty),
                value: MIRExpression { inner: MIRExpressionInner::Unit, ty: None, span: Span::empty() },
                span: c.span.clone(),
            },
        );
        i = i + 1;
    }
    assert(typed_consts(out@) =~= typed_consts(cs@));
    out
}

/// Copies of the names, types and spans of statics, with no values.
fn shell_statics(cs: &Vec<MIRStatic>) -> (res: Vec<MIRStatic>)
    ensures
        typed_statics(res@) == typed_statics(cs@),
{
    let mut out: Vec<MIRStatic> = Vec::new();
    let mut i: usize = 0;
    while i < cs.len()
        invariant
            i <= cs@.len(),
            out@.len() == i,
            forall|j: int|
                0 <= j < i ==> (#[trigger] out@[j]).name@ == cs@[j].name@ && out@[j].ty@ == cs@[j].ty@,
        decreases cs@.len() - i,
    {
        let c = &cs[i];
        out.push(
            MIRStatic {
                name: c.name.clone(),
                ty: copy_ty(&c.ty),
                value: MIRExpression { inner: MIRExpressionInner::Unit, ty: None, span: Span::empty() },
                span: c.span.clone(),
            },
        );
        i = i + 1;
    }
    assert(typed_statics(out@) =~= typed_statics(cs@));
    out
}

/// Copies of the signatures of functions, with no bodies.
fn shell_functions(fs: &Vec<MIRFunction>) -> (res: Vec<MIRFunction>)
    ensures
        fn_types(res@) == fn_types(fs@),
{
    let mut out: Vec<MIRFunction> = Vec::new();
    let mut i: usize = 0;
    while i < fs.len()
        invariant
            i <= fs@.len(),
            out@.len() == i,
            forall|j: int| 0 <= j < i ==> fn_type(#[trigger] out@[j]) == fn_type(fs@[j]),
        decreases fs@.len() - i,
    {
        let f = &fs[i];
        out.push(
            MIRFunction {
                name: f.name.clone(),
                fn_type: f.fn_type,
                ret_ty: copy_ty(&f.ret_ty),
                args: Vec::new(),
                args_ty: copy_args(&f.args_ty),
                body: Vec::new(),
                span: f.span.clone(),
                extern_import: None,
            },
        );
        i = i + 1;
    }
    assert(fn_types(out@) =~= fn_types(fs@));
    out
}

/// Checks constants in order (see [`check_consts`]).
#[verifier::spinoff_prover]
fn check_all_consts<T: Target>(shell: &MIRProgram, target: &T, xs: Vec<MIRConstant>) -> (res: Result<Vec<MIRConstant>, TypeError>)
    requires
        shell.wf(),
    ensures
        match (res, check_consts(env_of(*shell, target.spec_str_char_arr(), Seq::empty()), xs@)) {
            (Ok(out), Ok(vs)) => out@.len() == xs@.len() && forall|i: int|
                0 <= i < xs@.len() ==> #[trigger] out@[i] == (MIRConstant { value: out@[i].value, ..xs@[i] }) && out@[i].value@ == vs[i],
            (Err(x), Err(y)) => x@ == y,
            _ => false,
        },
{
    let ghost base = env_of(*shell, target.spec_str_char_arr(), Seq::empty());
    let ghost xs0 = xs@;
    let n = xs.len();
    let mut rest = xs;
    let mut out: Vec<MIRConstant> = Vec::new();
    let mut k: usize = 0;
    assert(xs0.take(0) =~= Seq::<MIRConstant>::empty());
    assert(out@.map_values(|c: MIRConstant| c.value@) =~= Seq::<ExprV>::empty());
    while k < n
        invariant
            n == xs0.len(),
            xs0 == xs@,
            k <= n,
            shell.wf(),
            base == env_of(*shell, target.spec_str_char_arr(), Seq::empty()),
            rest@ =~= xs0.subrange(k as int, n as int),
            out@.len() == k,
            forall|i: int| 0 <= i < k ==> #[trigger] out@[i] == (MIRConstant { value: out@[i].value, ..xs0[i] }),
            check_consts(base, xs0.take(k as int)) == Ok::<Seq<_>, TypeErrV>(out@.map_values(|c: MIRConstant| c.value@)),
        decreases n - k,
    {
        let x = rest.remove(0);
        assert(x == xs0[k as int]);
        assert(xs0.take(k as int + 1).drop_last() =~= xs0.take(k as int));
        assert(xs0.take(k as int + 1).last() == x);
        match check_constant(shell, target, x) {
            Err(e) => {
                proof {
                    assert(check_consts(base, xs0.take(k as int + 1)) == Err::<Seq<ExprV>, TypeErrV>(e@));
                    lemma_check_consts_err(base, xs0, k as int + 1);
                }
                return Err(e);
            },
            Ok(x2) => {
                let ghost before = out@;
                out.push(x2);
                assert(out@.map_values(|c: MIRConstant| c.value@) =~= before.map_values(|c: MIRConstant| c.value@).push(x2.value@));
            },
        }
        k = k + 1;
    }
    assert(xs0.take(n as int) =~= xs0);
    Ok(out)
}

/// Checks statics in order (see [`check_statics`]).
#[verifier::spinoff_prover]
fn check_all_statics<T: Target>(shell: &MIRProgram, target: &T, xs: Vec<MIRStatic>) -> (res: Result<Vec<MIRStatic>, TypeError>)
    requires
        shell.wf(),
    ensures
        match (res, check_statics(env_of(*shell, target.spec_str_char_arr(), Seq::empty()), xs@)) {
            (Ok(out), Ok(vs)) => out@.len() == xs@.len() && forall|i: int|
                0 <= i < xs@.len() ==> #[trigger] out@[i] == (MIRStatic { value: out@[i].value, ..xs@[i] }) && out@[i].value@ == vs[i],
            (Err(x), Err(y)) => x@ == y,
            _ => false,
        },
{
    let ghost base = env_of(*shell, target.spec_str_char_arr(), Seq::empty());
    let ghost xs0 = xs@;
    let n = xs.len();
    let mut rest = xs;
    let mut out: Vec<MIRStatic> = Vec::new();
    let mut k: usize = 0;
    assert(xs0.take(0) =~= Seq::<MIRStatic>::empty());
    assert(out@.map_values(|c: MIRStatic| c.value@) =~= Seq::<ExprV>::empty());
    while k < n
        invariant
            n == xs0.len(),
            xs0 == xs@,
            k <= n,
            shell.wf(),
            base == env_of(*shell, target.spec_str_char_arr(), Seq::empty()),
            rest@ =~= xs0.subrange(k as int, n as int),
            out@.len() == k,
            forall|i: int| 0 <= i < k ==> #[trigger] out@[i] == (MIRStatic { value: out@[i].value, ..xs0[i] }),
            check_statics(base, xs0.take(k as int)) == Ok::<Seq<_>, TypeErrV>(out@.map_values(|c: MIRStatic| c.value@)),
        decreases n - k,
    {
        let x = rest.remove(0);
        assert(x == xs0[k as int]);
        assert(xs0.take(k as int + 1).drop_last() =~= xs0.take(k as int));
        assert(xs0.take(k as int + 1).last() == x);
        match check_static(shell, target, x) {
            Err(e) => {
                proof {
                    assert(check_statics(base, xs0.take(k as int + 1)) == Err::<Seq<ExprV>, TypeErrV>(e@));
                    lemma_check_statics_err(base, xs0, k as int + 1);
                }
                return Err(e);
            },
            Ok(x2) => {
                let ghost before = out@;
                out.push(x2);
                assert(out@.map_values(|c: MIRStatic| c.value@) =~= before.map_values(|c: MIRStatic| c.value@).push(x2.value@));
            },
        }
        k = k + 1;
    }
    assert(xs0.take(n as int) =~= xs0);
    Ok(out)
}

/// Checks functions in order (see [`check_bodies`]).
#[verifier::spinoff_prover]
fn check_all_functions<T: Target>(shell: &MIRProgram, target: &T, xs: Vec<MIRFunction>) -> (res: Result<Vec<MIRFunction>, TypeError>)
    requires
        shell.wf(),
    ensures
        match (res, check_bodies(env_of(*shell, target.spec_str_char_arr(), Seq::empty()), xs@)) {
            (Ok(out), Ok(vs)) => out@.len() == xs@.len() && forall|i: int|
                0 <= i < xs@.len() ==> #[trigger] out@[i] == (MIRFunction { body: out@[i].body, ..xs@[i] }) && stmts_view(out@[i].body@) == vs[i],
            (Err(x), Err(y)) => x@ == y,
            _ => false,
        },
{
    let ghost base = env_of(*shell, target.spec_str_char_arr(), Seq::empty());
    let ghost xs0 = xs@;
    let n = xs.len();
    let mut rest = xs;
    let mut out: Vec<MIRFunction> = Vec::new();
    let mut k: usize = 0;
    assert(xs0.take(0) =~= Seq::<MIRFunction>::empty());
    assert(out@.map_values(|f: MIRFunction| stmts_view(f.body@)) =~= Seq::<Seq<StmtV>>::empty());
    while k < n
        invariant
            n == xs0.len(),
            xs0 == xs@,
            k <= n,
            shell.wf(),
            base == env_of(*shell, target.spec_str_char_arr(), Seq::empty()),
            rest@ =~= xs0.subrange(k as int, n as int),
            out@.len() == k,
            forall|i: int| 0 <= i < k ==> #[trigger] out@[i] == (MIRFunction { body: out@[i].body, ..xs0[i] }),
            check_bodies(base, xs0.take(k as int)) == Ok::<Seq<_>, TypeErrV>(out@.map_values(|f: MIRFunction| stmts_view(f.body@))),
        decreases n - k,
    {
        let x = rest.remove(0);
        assert(x == xs0[k as int]);
        assert(xs0.take(k as int + 1).drop_last() =~= xs0.take(k as int));
        assert(xs0.take(k as int + 1).last() == x);
        match check_function(shell, target, x) {
            Err(e) => {
                proof {
                    assert(check_bodies(base, xs0.take(k as int + 1)) == Err::<Seq<Seq<StmtV>>, TypeErrV>(e@));
                    lemma_check_bodies_err(base, xs0, k as int + 1);
                }
                return Err(e);
            },
            Ok(x2) => {
                let ghost before = out@;
                out.push(x2);
                assert(out@.map_values(|f: MIRFunction| stmts_view(f.body@)) =~= before.map_values(|f: MIRFunction| stmts_view(f.body@)).push(stmts_view(x2.body@)));
            },
        }
        k = k + 1;
    }
    assert(xs0.take(n as int) =~= xs0);
    Ok(out)
}

/// Finds and reports type errors of a program: checks its constants, then
/// its statics, then its functions (see [`type_check_rule`]). On success the
/// program gets type information everywhere; on the first error it is left
/// as it was (the same model) and the error is returned.
pub fn type_check<T: Target>(program: &mut MIRProgram, target: &T) -> (res: Result<(), TypeError>)
    requires
        old(program).wf(),
    ensures
        match (res, type_check_rule(*old(program), target.spec_str_char_arr())) {
            (Ok(()), Ok(r)) => typed_program(*old(program), *final(program), r),
            (Err(x), Err(y)) => x@ == y && super::copy::same_program(*final(program), *old(program)),
            _ => false,
        },
{
    let mut owned = super::copy::copy_program(program);
    std::mem::swap(program, &mut owned);
    match type_check_owned(owned, target) {
        Ok(q) => {
            *program = q;
            Ok(())
        },
        Err(e) => Err(e),
    }
}

/// Type checks a program it consumes (see [`type_check`]): the typed
/// program, or the first error.
pub fn type_check_owned<T: Target>(program: MIRProgram, target: &T) -> (res: Result<MIRProgram, TypeError>)
    requires
        program.wf(),
    ensures
        match (res, type_check_rule(program, target.spec_str_char_arr())) {
            (Ok(q), Ok(r)) => typed_program(program, q, r),
            (Err(x), Err(y)) => x@ == y,
            _ => false,
        },
{
    let ghost p0 = program;
    let ghost sca = target.spec_str_char_arr();
    let ghost base = env_of(program, sca, Seq::empty());
    let MIRProgram { decls, constants, statics, functions, markers, function_names, required_imports } =
        program;
    let shell = MIRProgram {
        decls: Vec::new(),
        constants: shell_consts(&constants),
        statics: shell_statics(&statics),
        functions: shell_functions(&functions),
        markers: Vec::new(),
        function_names,
        required_imports: Vec::new(),
    };
    proof {
        assert(env_of(shell, sca, Seq::empty()) == base);
        assert(shell.functions@.len() == p0.functions@.len()) by {
            assert(fn_types(shell.functions@).len() == fn_types(p0.functions@).len());
        }
    }
    let new_cs = match check_all_consts(&shell, target, constants) {
        Err(e) => return Err(e),
        Ok(v) => v,
    };
    let new_ss = match check_all_statics(&shell, target, statics) {
        Err(e) => return Err(e),
        Ok(v) => v,
    };
    let new_fs = match check_all_functions(&shell, target, functions) {
        Err(e) => return Err(e),
        Ok(v) => v,
    };
    let MIRProgram { function_names, .. } = shell;
    Ok(
        MIRProgram {
            decls,
            constants: new_cs,
            statics: new_ss,
            functions: new_fs,
            markers,
            function_names,
            required_imports,
        },
    )
}

/// Once checking a prefix of the constants failed, checking them all fails
/// the same way.
proof fn lemma_check_consts_err(base: CheckEnv, cs: Seq<MIRConstant>, k: int)
    requires
        0 <= k <= cs.len(),
        check_consts(base, cs.take(k)) is Err,
    ensures
        check_consts(base, cs) == check_consts(base, cs.take(k)),
    decreases cs.len() - k,
{
    if k < cs.len() {
        assert(cs.take(k + 1).drop_last() =~= cs.take(k));
        lemma_check_consts_err(base, cs, k + 1);
    } else {
        assert(cs.take(k) =~= cs);
    }
}

/// Once checking a prefix of the statics failed, checking them all fails
/// the same way.
proof fn lemma_check_statics_err(base: CheckEnv, ss: Seq<MIRStatic>, k: int)
    requires
        0 <= k <= ss.len(),
        check_statics(base, ss.take(k)) is Err,
    ensures
        check_statics(base, ss) == check_statics(base, ss.take(k)),
    decreases ss.len() - k,
{
    if k < ss.len() {
        assert(ss.take(k + 1).drop_last() =~= ss.take(k));
        lemma_check_statics_err(base, ss, k + 1);
    } else {
        assert(ss.take(k) =~= ss);
    }
}

/// Once checking a prefix of the functions failed, checking them all fails
/// the same way.
proof fn lemma_check_bodies_err(base: CheckEnv, fs: Seq<MIRFunction>, k: int)
    requires
        0 <= k <= fs.len(),
        check_bodies(base, fs.take(k)) is Err,
    ensures
        check_bodies(base, fs) == check_bodies(base, fs.take(k)),
    decreases fs.len() - k,
{
    if k < fs.len() {
        assert(fs.take(k + 1).drop_last() =~= fs.take(k));
        lemma_check_bodies_err(base, fs, k + 1);
    } else {
        assert(fs.take(k) =~= fs);
    }
}

// ---------------------------------------------------------------------------
// Laws
// ---------------------------------------------------------------------------

/// The type a checked expression gets covers the whole expression: its span
/// is the expression's span.
pub proof fn lemma_checked_type_covers_span(env: CheckEnv, inner: InnerV, span: SpanV, ety: Option<TyV>)
    ensures
        check_expr(env, inner, span, ety) matches Ok(r) ==> r.1.span == Some(span),
{
}

/// A checked expression agrees with the type it was handed: unifying the
/// handed type with the checked type's target form gives the checked type.
pub proof fn lemma_checked_type_agrees(env: CheckEnv, inner: InnerV, span: SpanV, t: TyV)
    ensures
        check_expr(env, inner, span, Some(t)) matches Ok(r) ==> exists|c: TypeV| unify(t.ty, c)
            == Some(r.1.ty),
{
    if check_expr(env, inner, span, Some(t)) is Ok {
        let n = check_node(env, inner, span, Some(t))->Ok_0;
        let c = convert(env.sca, n.1.ty)->0;
        assert(unify(t.ty, c) == Some(check_expr(env, inner, span, Some(t))->Ok_0.1.ty));
    }
}

// ---------------------------------------------------------------------------
// Laws of unification
// ---------------------------------------------------------------------------

/// Whether `c` is a type that a value of type `t` may take on: `t`
/// itself; any type for a value not yet constructed; `i32` or `u32` for a
/// number of unknown type; and, element by element, an array of either
/// kind for an array, where two fixed-size arrays must have one length;
/// a function pointer of the same shape for a function pointer.
pub open spec fn refines(t: TypeV, c: TypeV) -> bool
    decreases t, 0nat,
{
    if t == c || t is NotConstructed || (t is UnknownNumber && (c is I32 || c is U32)) {
        true
    } else {
        match t {
            TypeV::Array(x) => match c {
                TypeV::Array(y) => refines(*x, *y),
                TypeV::ArrayFixed(y, _) => refines(*x, *y),
                _ => false,
            },
            TypeV::ArrayFixed(x, n) => match c {
                TypeV::Array(y) => refines(*x, *y),
                TypeV::ArrayFixed(y, m) => n == m && refines(*x, *y),
                _ => false,
            },
            TypeV::FunctionPtr(xa, xr) => match c {
                TypeV::FunctionPtr(ya, yr) => xa.variadic == ya.variadic && refines(*xr, *yr) && refines_all(
                    xa.args,
                    ya.args,
                ),
                _ => false,
            },
            _ => false,
        }
    }
}

/// [`refines`] element by element, on lists of one length.
pub open spec fn refines_all(xs: Seq<TypeV>, ys: Seq<TypeV>) -> bool
    decreases xs, xs.len(),
{
    if xs.len() == 0 {
        ys.len() == 0
    } else {
        proof {
            axiom_seq_len_decreases(xs, xs.drop_last());
        }
        ys.len() > 0 && refines_all(xs.drop_last(), ys.drop_last()) && refines(xs.last(), ys.last())
    }
}

/// The type that unification agrees on is one that both types may take
/// on; in particular two fixed-size arrays unify only where their lengths
/// are equal, and the result keeps that length.
pub proof fn lemma_unify_refines(a: TypeV, b: TypeV)
    ensures
        unify(a, b) matches Some(c) ==> refines(a, c) && refines(b, c),
    decreases a, 0nat,
{
    if a == b || (a is UnknownNumber && (b is I32 || b is U32)) || ((a is I32 || a is U32) && b is UnknownNumber)
        || a is NotConstructed || b is NotConstructed {
    } else {
        match a {
            TypeV::Array(x) => match b {
                TypeV::ArrayFixed(y, n) => lemma_unify_refines(*x, *y),
                TypeV::Array(y) => lemma_unify_refines(*x, *y),
                _ => {},
            },
            TypeV::ArrayFixed(x, n) => match b {
                TypeV::Array(y) => lemma_unify_refines(*x, *y),
                TypeV::ArrayFixed(y, m) => lemma_unify_refines(*x, *y),
                _ => {},
            },
            TypeV::FunctionPtr(xa, xr) => match b {
                TypeV::FunctionPtr(ya, yr) => {
                    lemma_unify_refines(*xr, *yr);
                    if xa.args.len() == ya.args.len() {
                        lemma_unify_all_refines(xa.args, ya.args);
                    }
                },
                _ => {},
            },
            _ => {},
        }
    }
}

proof fn lemma_unify_all_refines(xs: Seq<TypeV>, ys: Seq<TypeV>)
    requires
        xs.len() == ys.len(),
    ensures
        unify_all(xs, ys) matches Some(s) ==> refines_all(xs, s) && refines_all(ys, s),
    decreases xs, xs.len(),
{
    if xs.len() > 0 {
        axiom_seq_len_decreases(xs, xs.drop_last());
        lemma_unify_all_refines(xs.drop_last(), ys.drop_last());
        lemma_unify_refines(xs.last(), ys.last());
        if let Some(s) = unify_all(xs, ys) {
            let s0 = unify_all(xs.drop_last(), ys.drop_last())->0;
            assert(s == s0.push(unify(xs.last(), ys.last())->0));
            assert(s.drop_last() =~= s0);
        }
    }
}

/// Two fixed-size arrays of different lengths never unify.
pub proof fn lemma_unify_fixed_lengths(x: TypeV, n: usize, y: TypeV, m: usize)
    ensures
        unify(TypeV::ArrayFixed(Box::new(x), n), TypeV::ArrayFixed(Box::new(y), m)) is Some ==> n == m,
        match unify(TypeV::ArrayFixed(Box::new(x), n), TypeV::ArrayFixed(Box::new(y), m)) {
            Some(TypeV::ArrayFixed(_, k)) => k == n,
            Some(_) => false,
            None => true,
        },
{
    lemma_unify_refines(TypeV::ArrayFixed(Box::new(x), n), TypeV::ArrayFixed(Box::new(y), m));
}

/// A type that is complete and not an array, a pointer or a name.
pub open spec fn is_scalar(t: TypeV) -> bool {
    t is I32 || t is U32 || t is Bool || t is Unit || t is String || t is Char
}

/// Two different scalar types never unify, and a type unifies with
/// itself.
pub proof fn lemma_unify_scalars(a: TypeV, b: TypeV)
    ensures
        is_scalar(a) && is_scalar(b) && a != b ==> unify(a, b) is None,
        unify(a, a) == Some(a),
{
}

} // verus!
