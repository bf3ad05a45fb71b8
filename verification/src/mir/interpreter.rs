//! Compile-time evaluation of MIR: constants, statics and calls of flattened
//! functions are run on a store of plain values.
//!
//! Every variable, static and array element lives in a slot of the store; a
//! reference is the number of a slot, an array the number of a list of
//! slots, and a string the number of a text. Evaluation is bounded by fuel:
//! each step of an expression, statement or call takes one unit.

use super::overloads::{count_compatible_in, first_compatible_in, spec_args_compatible, FunctionOverloads};
use super::type_check::{copy_type, lemma_could_match_view};
use super::types::spec_types_could_match;
use super::{
    MIRExpression, MIRExpressionInner, MIRFnCall, MIRFnSource, MIRFunctionArgs, MIRFunctionKey,
    MIRFunctionType, MIRProgram, MIRStatement, MIRType, MIRTypeInner,
};
use crate::util::text::{decimal_text, i128_to_decimal, u128_to_decimal, decimal_digits};
use vstd::prelude::*;
use vstd::string::StrSliceExecFns;
use super::view::{exprs_view, lemma_exprs_view_push, ExprV, InnerV, SpanV};
use crate::parser::span::Span;

verus! {

/// A value during compile-time evaluation.
#[derive(Clone, Copy, Debug, PartialEq, Eq, Structural)]
pub enum InterpValue {
    I32(i32),
    U32(u32),
    /// A number whose type is not settled yet.
    UnknownNumber(i128),
    Bool(bool),
    Unit,
    Char(char),
    /// The text with this number in the store.
    Str(usize),
    /// A reference to the slot with this number.
    Ref(usize),
    /// The array with this number in the store.
    Array(usize),
}

/// Why evaluation stopped.
#[derive(Clone, Copy, Debug, PartialEq, Eq, Structural)]
pub enum EvalError {
    /// A variable was read before it was set.
    UnsetVariable,
    /// A constant or static depends on itself.
    EvalLoop,
    /// An external function cannot run at compile time.
    ExternCall,
    /// An `if`, loop, scope, `break` or `continue` is left: the function
    /// was not flattened.
    NotFlattened,
    /// A construct that compile-time evaluation does not handle (quines,
    /// bindings, members, references into strings).
    Unsupported,
    /// A name, function or overload that does not exist.
    NotFound,
    /// A value of the wrong kind for the operation (the type checker rules
    /// these out), or a jump without a resolved target.
    Mismatch,
    /// An index past the end of an array or string, or a negative one.
    IndexOutOfBounds,
    /// A result that does not fit its type.
    Overflow,
    /// A division by zero.
    DivisionByZero,
    /// The evaluation took more steps than it was given.
    OutOfFuel,
}

/// The values of an evaluation: slots, arrays (lists of slots), texts, the
/// cached values of constants and slots of statics by their index, and the
/// names of the constants and statics being evaluated, innermost last.
pub struct EvalStore {
    pub slots: Vec<Option<InterpValue>>,
    pub arrays: Vec<Vec<usize>>,
    pub strings: Vec<String>,
    pub constants: Vec<(usize, InterpValue)>,
    pub statics: Vec<(usize, usize)>,
    pub evaluating: Vec<String>,
}

/// Model of an [`EvalStore`].
pub struct StoreV {
    pub slots: Seq<Option<InterpValue>>,
    pub arrays: Seq<Seq<usize>>,
    pub strings: Seq<Seq<char>>,
    pub constants: Seq<(usize, InterpValue)>,
    pub statics: Seq<(usize, usize)>,
    pub evaluating: Seq<Seq<char>>,
}

impl View for EvalStore {
    type V = StoreV;

    open spec fn view(&self) -> StoreV {
        StoreV {
            slots: self.slots@,
            arrays: self.arrays@.map_values(|a: Vec<usize>| a@),
            strings: self.strings@.map_values(|s: String| s@),
            constants: self.constants@,
            statics: self.statics@,
            evaluating: self.evaluating@.map_values(|s: String| s@),
        }
    }
}

/// The variables of the running function, by name (the latest binding of a
/// name counts), and where to jump after the current statement.
pub struct InterpreterScope {
    pub variables: Vec<(String, usize)>,
    pub next_idx: Option<usize>,
}

/// Model of an [`InterpreterScope`].
pub struct ScopeV {
    pub variables: Seq<(Seq<char>, usize)>,
    pub next_idx: Option<usize>,
}

impl View for InterpreterScope {
    type V = ScopeV;

    open spec fn view(&self) -> ScopeV {
        ScopeV {
            variables: self.variables@.map_values(|v: (String, usize)| (v.0@, v.1)),
            next_idx: self.next_idx,
        }
    }
}

impl EvalStore {
    /// An empty store.
    pub fn new() -> (res: Self)
        ensures
            res@ == empty_store(),
    {
        let res = EvalStore {
            slots: Vec::new(),
            arrays: Vec::new(),
            strings: Vec::new(),
            constants: Vec::new(),
            statics: Vec::new(),
            evaluating: Vec::new(),
        };
        assert(res@.arrays =~= Seq::<Seq<usize>>::empty());
        assert(res@.strings =~= Seq::<Seq<char>>::empty());
        assert(res@.evaluating =~= Seq::<Seq<char>>::empty());
        res
    }

    /// The text with the given number, if there is one.
    pub fn text(&self, i: usize) -> (res: Option<&String>)
        ensures
            match res {
                Some(s) => i < self@.strings.len() && s@ == self@.strings[i as int],
                None => i >= self@.strings.len(),
            },
    {
        if i < self.strings.len() {
            Some(&self.strings[i])
        } else {
            None
        }
    }
}

impl InterpreterScope {
    /// A scope with no variables.
    pub fn new() -> (res: Self)
        ensures
            res@ == empty_scope(),
    {
        let res = InterpreterScope { variables: Vec::new(), next_idx: None };
        assert(res@.variables =~= Seq::<(Seq<char>, usize)>::empty());
        res
    }
}

pub open spec fn empty_store() -> StoreV {
    StoreV {
        slots: Seq::empty(),
        arrays: Seq::empty(),
        strings: Seq::empty(),
        constants: Seq::empty(),
        statics: Seq::empty(),
        evaluating: Seq::empty(),
    }
}

pub open spec fn empty_scope() -> ScopeV {
    ScopeV { variables: Seq::empty(), next_idx: None }
}

// ---------------------------------------------------------------------------
// Lookups
// ---------------------------------------------------------------------------

/// The slot of the latest variable with this name.
pub open spec fn find_var(vars: Seq<(Seq<char>, usize)>, name: Seq<char>) -> Option<usize>
    decreases vars.len(),
{
    if vars.len() == 0 {
        None
    } else if vars.last().0 == name {
        Some(vars.last().1)
    } else {
        find_var(vars.drop_last(), name)
    }
}

fn lookup_var(sc: &InterpreterScope, name: &String) -> (res: Option<usize>)
    ensures
        res == find_var(sc@.variables, name@),
{
    let mut i = sc.variables.len();
    assert(sc@.variables.take(i as int) =~= sc@.variables);
    while i > 0
        invariant
            i <= sc@.variables.len(),
            sc.variables@.len() == sc@.variables.len(),
            find_var(sc@.variables, name@) == find_var(sc@.variables.take(i as int), name@),
        decreases i,
    {
        let ghost t = sc@.variables.take(i as int);
        assert(t.drop_last() =~= sc@.variables.take(i - 1));
        assert(t.last() == (sc.variables@[i - 1].0@, sc.variables@[i - 1].1));
        if sc.variables[i - 1].0.eq(name) {
            return Some(sc.variables[i - 1].1);
        }
        i = i - 1;
    }
    None
}

/// The first index whose name is `name`.
pub open spec fn first_named(names: Seq<Seq<char>>, name: Seq<char>) -> Option<usize>
    decreases names.len(),
{
    if names.len() == 0 {
        None
    } else {
        match first_named(names.drop_last(), name) {
            Some(i) => Some(i),
            None => if names.last() == name {
                Some((names.len() - 1) as usize)
            } else {
                None
            },
        }
    }
}

/// The constant with this name.
pub open spec fn const_index(p: MIRProgram, name: Seq<char>) -> Option<usize> {
    first_named(p.constants@.map_values(|c: super::MIRConstant| c.name@), name)
}

/// The static with this name.
pub open spec fn static_index(p: MIRProgram, name: Seq<char>) -> Option<usize> {
    first_named(p.statics@.map_values(|s: super::MIRStatic| s.name@), name)
}

/// The overloads with this name.
pub open spec fn overloads_index(p: MIRProgram, name: Seq<char>) -> Option<usize> {
    first_named(p.function_names@.map_values(|e: (String, FunctionOverloads)| e.0@), name)
}

proof fn lemma_first_named_bound(names: Seq<Seq<char>>, name: Seq<char>)
    ensures
        first_named(names, name) matches Some(i) ==> i < names.len(),
    decreases names.len(),
{
    if names.len() > 0 {
        lemma_first_named_bound(names.drop_last(), name);
    }
}

fn find_const(p: &MIRProgram, name: &String) -> (res: Option<usize>)
    ensures
        res == const_index(*p, name@),
        res matches Some(i) ==> i < p.constants@.len(),
{
    let ghost names = p.constants@.map_values(|c: super::MIRConstant| c.name@);
    let mut i: usize = 0;
    while i < p.constants.len()
        invariant
            i <= p.constants@.len(),
            names == p.constants@.map_values(|c: super::MIRConstant| c.name@),
            first_named(names.take(i as int), name@) is None,
        decreases p.constants@.len() - i,
    {
        assert(names.take(i + 1).drop_last() =~= names.take(i as int));
        if p.constants[i].name.eq(name) {
            proof {
                lemma_first_named_prefix(names, name@, i as int + 1);
            }
            return Some(i);
        }
        i = i + 1;
    }
    assert(names.take(i as int) =~= names);
    proof {
        lemma_first_named_bound(names, name@);
    }
    None
}

fn find_static(p: &MIRProgram, name: &String) -> (res: Option<usize>)
    ensures
        res == static_index(*p, name@),
        res matches Some(i) ==> i < p.statics@.len(),
{
    let ghost names = p.statics@.map_values(|c: super::MIRStatic| c.name@);
    let mut i: usize = 0;
    while i < p.statics.len()
        invariant
            i <= p.statics@.len(),
            names == p.statics@.map_values(|c: super::MIRStatic| c.name@),
            first_named(names.take(i as int), name@) is None,
        decreases p.statics@.len() - i,
    {
        assert(names.take(i + 1).drop_last() =~= names.take(i as int));
        if p.statics[i].name.eq(name) {
            proof {
                lemma_first_named_prefix(names, name@, i as int + 1);
            }
            return Some(i);
        }
        i = i + 1;
    }
    assert(names.take(i as int) =~= names);
    None
}

fn find_overloads(p: &MIRProgram, name: &String) -> (res: Option<usize>)
    ensures
        res == overloads_index(*p, name@),
        res matches Some(i) ==> i < p.function_names@.len(),
{
    let ghost names = p.function_names@.map_values(|e: (String, FunctionOverloads)| e.0@);
    let mut i: usize = 0;
    while i < p.function_names.len()
        invariant
            i <= p.function_names@.len(),
            names == p.function_names@.map_values(|e: (String, FunctionOverloads)| e.0@),
            first_named(names.take(i as int), name@) is None,
        decreases p.function_names@.len() - i,
    {
        assert(names.take(i + 1).drop_last() =~= names.take(i as int));
        if p.function_names[i].0.eq(name) {
            proof {
                lemma_first_named_prefix(names, name@, i as int + 1);
            }
            return Some(i);
        }
        i = i + 1;
    }
    assert(names.take(i as int) =~= names);
    None
}

/// Once a prefix holds the name, the first index of the whole is that of
/// the prefix.
proof fn lemma_first_named_prefix(names: Seq<Seq<char>>, name: Seq<char>, k: int)
    requires
        0 <= k <= names.len(),
        first_named(names.take(k), name) is Some,
    ensures
        first_named(names, name) == first_named(names.take(k), name),
    decreases names.len() - k,
{
    if k < names.len() {
        assert(names.take(k + 1).drop_last() =~= names.take(k));
        lemma_first_named_prefix(names, name, k + 1);
    } else {
        assert(names.take(k) =~= names);
    }
}

/// The cached value of the constant with this index.
pub open spec fn find_cached(cs: Seq<(usize, InterpValue)>, k: usize) -> Option<InterpValue>
    decreases cs.len(),
{
    if cs.len() == 0 {
        None
    } else if cs.last().0 == k {
        Some(cs.last().1)
    } else {
        find_cached(cs.drop_last(), k)
    }
}

fn lookup_cached(cs: &Vec<(usize, InterpValue)>, k: usize) -> (res: Option<InterpValue>)
    ensures
        res == find_cached(cs@, k),
{
    let mut i = cs.len();
    assert(cs@.take(i as int) =~= cs@);
    while i > 0
        invariant
            i <= cs@.len(),
            find_cached(cs@, k) == find_cached(cs@.take(i as int), k),
        decreases i,
    {
        assert(cs@.take(i as int).drop_last() =~= cs@.take(i - 1));
        if cs[i - 1].0 == k {
            return Some(cs[i - 1].1);
        }
        i = i - 1;
    }
    None
}

/// The slot of the static with this index, once evaluated.
pub open spec fn find_static_slot(ss: Seq<(usize, usize)>, k: usize) -> Option<usize>
    decreases ss.len(),
{
    if ss.len() == 0 {
        None
    } else if ss.last().0 == k {
        Some(ss.last().1)
    } else {
        find_static_slot(ss.drop_last(), k)
    }
}

fn lookup_static_slot(ss: &Vec<(usize, usize)>, k: usize) -> (res: Option<usize>)
    ensures
        res == find_static_slot(ss@, k),
{
    let mut i = ss.len();
    assert(ss@.take(i as int) =~= ss@);
    while i > 0
        invariant
            i <= ss@.len(),
            find_static_slot(ss@, k) == find_static_slot(ss@.take(i as int), k),
        decreases i,
    {
        assert(ss@.take(i as int).drop_last() =~= ss@.take(i - 1));
        if ss[i - 1].0 == k {
            return Some(ss[i - 1].1);
        }
        i = i - 1;
    }
    None
}

fn is_evaluating(st: &EvalStore, name: &String) -> (res: bool)
    ensures
        res == st@.evaluating.contains(name@),
{
    let mut i: usize = 0;
    while i < st.evaluating.len()
        invariant
            i <= st.evaluating@.len(),
            st@.evaluating.len() == st.evaluating@.len(),
            forall|j: int| 0 <= j < i ==> st@.evaluating[j] != name@,
        decreases st.evaluating@.len() - i,
    {
        if st.evaluating[i].eq(name) {
            assert(st@.evaluating[i as int] == name@);
            return true;
        }
        i = i + 1;
    }
    false
}

// ---------------------------------------------------------------------------
// Values and operators
// ---------------------------------------------------------------------------

/// The kind of a binary operator.
#[derive(Clone, Copy, Debug, PartialEq, Eq, Structural)]
pub enum BinKind {
    Add,
    Sub,
    Mul,
    Div,
    Equal,
    NotEqual,
    Greater,
    Less,
    GreaterEq,
    LessEq,
    And,
    Or,
}

/// The value of a number literal of the given type: truncated to `i32`, or
/// to `u32` through `i32` for negative numbers so that they wrap around.
pub open spec fn num_value(v: i128, ty: Option<MIRType>) -> Result<InterpValue, EvalError> {
    match ty {
        Some(t) => match t.ty {
            MIRTypeInner::I32 => Ok(InterpValue::I32(v as i32)),
            MIRTypeInner::U32 => Ok(InterpValue::U32(
                if v < 0 {
                    (v as i32) as u32
                } else {
                    v as u32
                },
            )),
            MIRTypeInner::UnknownNumber => Ok(InterpValue::UnknownNumber(v)),
            _ => Err(EvalError::Mismatch),
        },
        None => Err(EvalError::Mismatch),
    }
}

fn num_value_exec(v: i128, ty: &Option<MIRType>) -> (res: Result<InterpValue, EvalError>)
    ensures
        res == num_value(v, *ty),
{
    match ty {
        Some(t) => match &t.ty {
            MIRTypeInner::I32 => Ok(InterpValue::I32(v as i32)),
            MIRTypeInner::U32 => Ok(InterpValue::U32(
                if v < 0 {
                    (v as i32) as u32
                } else {
                    v as u32
                },
            )),
            MIRTypeInner::UnknownNumber => Ok(InterpValue::UnknownNumber(v)),
            _ => Err(EvalError::Mismatch),
        },
        None => Err(EvalError::Mismatch),
    }
}

/// Arithmetic on two `i32`s; overflow and division by zero are errors.
pub open spec fn arith_i32(k: BinKind, a: i32, b: i32) -> Result<InterpValue, EvalError> {
    let r = match k {
        BinKind::Add => a.checked_add(b),
        BinKind::Sub => a.checked_sub(b),
        BinKind::Mul => a.checked_mul(b),
        _ => a.checked_div(b),
    };
    if k == BinKind::Div && b == 0 {
        Err(EvalError::DivisionByZero)
    } else {
        match r {
            Some(x) => Ok(InterpValue::I32(x)),
            None => Err(EvalError::Overflow),
        }
    }
}

/// Arithmetic on two `u32`s; overflow and division by zero are errors.
pub open spec fn arith_u32(k: BinKind, a: u32, b: u32) -> Result<InterpValue, EvalError> {
    let r = match k {
        BinKind::Add => a.checked_add(b),
        BinKind::Sub => a.checked_sub(b),
        BinKind::Mul => a.checked_mul(b),
        _ => a.checked_div(b),
    };
    if k == BinKind::Div && b == 0 {
        Err(EvalError::DivisionByZero)
    } else {
        match r {
            Some(x) => Ok(InterpValue::U32(x)),
            None => Err(EvalError::Overflow),
        }
    }
}

/// Whether two values are equal, for the kinds that can be compared:
/// numbers of one type, booleans, units and texts (by content).
pub open spec fn values_equal(l: InterpValue, r: InterpValue, strings: Seq<Seq<char>>) -> Option<bool> {
    match (l, r) {
        (InterpValue::I32(a), InterpValue::I32(b)) => Some(a == b),
        (InterpValue::U32(a), InterpValue::U32(b)) => Some(a == b),
        (InterpValue::Bool(a), InterpValue::Bool(b)) => Some(a == b),
        (InterpValue::Unit, InterpValue::Unit) => Some(true),
        (InterpValue::Str(a), InterpValue::Str(b)) => if a < strings.len() && b < strings.len() {
            Some(strings[a as int] == strings[b as int])
        } else {
            None
        },
        _ => None,
    }
}

/// The order of two numbers or booleans (`false` before `true`) as
/// integers.
pub open spec fn ordered_pair(l: InterpValue, r: InterpValue) -> Option<(int, int)> {
    match (l, r) {
        (InterpValue::I32(a), InterpValue::I32(b)) => Some((a as int, b as int)),
        (InterpValue::U32(a), InterpValue::U32(b)) => Some((a as int, b as int)),
        (InterpValue::Bool(a), InterpValue::Bool(b)) => Some((if a { 1int } else { 0int }, if b { 1int } else { 0int })),
        _ => None,
    }
}

/// The result of a binary operator on two values.
pub open spec fn binop(k: BinKind, l: InterpValue, r: InterpValue, strings: Seq<Seq<char>>) -> Result<InterpValue, EvalError> {
    match k {
        BinKind::Add | BinKind::Sub | BinKind::Mul | BinKind::Div => match (l, r) {
            (InterpValue::I32(a), InterpValue::I32(b)) => arith_i32(k, a, b),
            (InterpValue::U32(a), InterpValue::U32(b)) => arith_u32(k, a, b),
            _ => Err(EvalError::Mismatch),
        },
        BinKind::Equal | BinKind::NotEqual => match values_equal(l, r, strings) {
            Some(e) => Ok(InterpValue::Bool(if k == BinKind::Equal { e } else { !e })),
            None => Err(EvalError::Mismatch),
        },
        BinKind::Greater | BinKind::Less | BinKind::GreaterEq | BinKind::LessEq => match ordered_pair(l, r) {
            Some((a, b)) => Ok(InterpValue::Bool(
                match k {
                    BinKind::Greater => a > b,
                    BinKind::Less => a < b,
                    BinKind::GreaterEq => a >= b,
                    _ => a <= b,
                },
            )),
            None => Err(EvalError::Mismatch),
        },
        _ => match (l, r) {
            (InterpValue::Bool(a), InterpValue::Bool(b)) => Ok(InterpValue::Bool(
                if k == BinKind::And { a && b } else { a || b },
            )),
            _ => Err(EvalError::Mismatch),
        },
    }
}

fn arith_i32_exec(k: BinKind, a: i32, b: i32) -> (res: Result<InterpValue, EvalError>)
    ensures
        res == arith_i32(k, a, b),
{
    if k == BinKind::Div && b == 0 {
        return Err(EvalError::DivisionByZero);
    }
    let r = match k {
        BinKind::Add => a.checked_add(b),
        BinKind::Sub => a.checked_sub(b),
        BinKind::Mul => a.checked_mul(b),
        _ => a.checked_div(b),
    };
    match r {
        Some(x) => Ok(InterpValue::I32(x)),
        None => Err(EvalError::Overflow),
    }
}

fn arith_u32_exec(k: BinKind, a: u32, b: u32) -> (res: Result<InterpValue, EvalError>)
    ensures
        res == arith_u32(k, a, b),
{
    if k == BinKind::Div && b == 0 {
        return Err(EvalError::DivisionByZero);
    }
    let r = match k {
        BinKind::Add => a.checked_add(b),
        BinKind::Sub => a.checked_sub(b),
        BinKind::Mul => a.checked_mul(b),
        _ => a.checked_div(b),
    };
    match r {
        Some(x) => Ok(InterpValue::U32(x)),
        None => Err(EvalError::Overflow),
    }
}

/// Applies a binary operator to two values (see [`binop`]).
pub fn binop_exec(k: BinKind, l: InterpValue, r: InterpValue, st: &EvalStore) -> (res: Result<InterpValue, EvalError>)
    ensures
        res == binop(k, l, r, st@.strings),
{
    match k {
        BinKind::Add | BinKind::Sub | BinKind::Mul | BinKind::Div => match (l, r) {
            (InterpValue::I32(a), InterpValue::I32(b)) => arith_i32_exec(k, a, b),
            (InterpValue::U32(a), InterpValue::U32(b)) => arith_u32_exec(k, a, b),
            _ => Err(EvalError::Mismatch),
        },
        BinKind::Equal | BinKind::NotEqual => {
            let e = match (l, r) {
                (InterpValue::I32(a), InterpValue::I32(b)) => a == b,
                (InterpValue::U32(a), InterpValue::U32(b)) => a == b,
                (InterpValue::Bool(a), InterpValue::Bool(b)) => a == b,
                (InterpValue::Unit, InterpValue::Unit) => true,
                (InterpValue::Str(a), InterpValue::Str(b)) => {
                    if a < st.strings.len() && b < st.strings.len() {
                        st.strings[a].eq(&st.strings[b])
                    } else {
                        return Err(EvalError::Mismatch);
                    }
                },
                _ => {
                    return Err(EvalError::Mismatch);
                },
            };
            Ok(InterpValue::Bool(if k == BinKind::Equal { e } else { !e }))
        },
        BinKind::Greater | BinKind::Less | BinKind::GreaterEq | BinKind::LessEq => {
            let (a, b): (i64, i64) = match (l, r) {
                (InterpValue::I32(a), InterpValue::I32(b)) => (a as i64, b as i64),
                (InterpValue::U32(a), InterpValue::U32(b)) => (a as i64, b as i64),
                (InterpValue::Bool(a), InterpValue::Bool(b)) => (if a { 1 } else { 0 }, if b { 1 } else { 0 }),
                _ => {
                    return Err(EvalError::Mismatch);
                },
            };
            Ok(InterpValue::Bool(
                match k {
                    BinKind::Greater => a > b,
                    BinKind::Less => a < b,
                    BinKind::GreaterEq => a >= b,
                    _ => a <= b,
                },
            ))
        },
        _ => match (l, r) {
            (InterpValue::Bool(a), InterpValue::Bool(b)) => Ok(InterpValue::Bool(
                if k == BinKind::And { a && b } else { a || b },
            )),
            _ => Err(EvalError::Mismatch),
        },
    }
}

/// An `i128` as a `usize`, where it fits.
pub open spec fn i128_to_usize(v: i128) -> Option<usize> {
    if 0 <= v <= usize::MAX {
        Some(v as usize)
    } else {
        None
    }
}

fn i128_to_usize_exec(v: i128) -> (res: Option<usize>)
    ensures
        res == i128_to_usize(v),
{
    if v >= 0 && v <= usize::MAX as i128 {
        Some(v as usize)
    } else {
        None
    }
}

/// A value used as an index: a non-negative number that fits a `usize`.
pub open spec fn index_of(v: InterpValue) -> Result<usize, EvalError> {
    match v {
        InterpValue::U32(x) => Ok(x as usize),
        InterpValue::I32(x) => if x < 0 {
            Err(EvalError::IndexOutOfBounds)
        } else {
            Ok(x as usize)
        },
        InterpValue::UnknownNumber(x) => match i128_to_usize(x) {
            Some(u) => Ok(u),
            None => Err(EvalError::IndexOutOfBounds),
        },
        _ => Err(EvalError::Mismatch),
    }
}

fn index_of_exec(v: InterpValue) -> (res: Result<usize, EvalError>)
    ensures
        res == index_of(v),
{
    match v {
        InterpValue::U32(x) => Ok(x as usize),
        InterpValue::I32(x) => if x < 0 {
            Err(EvalError::IndexOutOfBounds)
        } else {
            Ok(x as usize)
        },
        InterpValue::UnknownNumber(x) => match i128_to_usize_exec(x) {
            Some(u) => Ok(u),
            None => Err(EvalError::IndexOutOfBounds),
        },
        _ => Err(EvalError::Mismatch),
    }
}

/// The text that the native `string` function makes of a value.
pub open spec fn string_text(v: InterpValue, strings: Seq<Seq<char>>) -> Result<Seq<char>, EvalError> {
    match v {
        InterpValue::U32(x) => Ok(decimal_text(x as int)),
        InterpValue::I32(x) => Ok(decimal_text(x as int)),
        InterpValue::Bool(b) => Ok(if b { "true"@ } else { "false"@ }),
        InterpValue::Str(i) => if i < strings.len() {
            Ok(strings[i as int])
        } else {
            Err(EvalError::Mismatch)
        },
        _ => Err(EvalError::Mismatch),
    }
}

fn string_text_exec(v: InterpValue, st: &EvalStore) -> (res: Result<String, EvalError>)
    ensures
        match res {
            Ok(s) => string_text(v, st@.strings) == Ok::<Seq<char>, EvalError>(s@),
            Err(e) => string_text(v, st@.strings) == Err::<Seq<char>, EvalError>(e),
        },
{
    match v {
        InterpValue::U32(x) => Ok(i128_to_decimal(x as i128)),
        InterpValue::I32(x) => Ok(i128_to_decimal(x as i128)),
        InterpValue::Bool(b) => {
            proof {
                reveal_strlit("true");
                reveal_strlit("false");
            }
            Ok(if b { "true".to_owned() } else { "false".to_owned() })
        },
        InterpValue::Str(i) => if i < st.strings.len() {
            Ok(st.strings[i].clone())
        } else {
            Err(EvalError::Mismatch)
        },
        _ => Err(EvalError::Mismatch),
    }
}

// ---------------------------------------------------------------------------
// Overloads
// ---------------------------------------------------------------------------

/// The types of call arguments, as the type checker recorded them.
pub open spec fn arg_types(es: Seq<MIRExpression>) -> Seq<MIRTypeInner> {
    es.map_values(|e: MIRExpression| e.ty->0.ty)
}

/// The function a direct call by this name with arguments of these types
/// resolves to: the only overload that accepts them.
pub open spec fn call_target(p: MIRProgram, name: Seq<char>, tys: Seq<MIRTypeInner>) -> Option<MIRFunctionKey> {
    match overloads_index(p, name) {
        Some(i) => {
            let ov = p.function_names@[i as int].1@;
            if count_compatible_in(ov, tys) == 1 {
                first_compatible_in(ov, tys)
            } else {
                None
            }
        },
        None => None,
    }
}

/// Argument types with equal models are accepted by the same overloads.
proof fn lemma_compatible_views(
    s: Seq<(MIRFunctionArgs, MIRFunctionKey)>,
    a: Seq<MIRTypeInner>,
    b: Seq<MIRTypeInner>,
)
    requires
        a.len() == b.len(),
        forall|i: int| 0 <= i < a.len() ==> (#[trigger] a[i])@ == b[i]@,
    ensures
        count_compatible_in(s, a) == count_compatible_in(s, b),
        first_compatible_in(s, a) == first_compatible_in(s, b),
    decreases s.len(),
{
    assert forall|fa: MIRFunctionArgs| spec_args_compatible(fa, a) == spec_args_compatible(fa, b) by {
        assert forall|i: int| 0 <= i < fa.args@.len() && i < a.len() implies spec_types_could_match(
            #[trigger] fa.args@[i],
            a[i],
        ) == spec_types_could_match(fa.args@[i], b[i]) by {
            lemma_could_match_view(fa.args@[i], a[i]);
            lemma_could_match_view(fa.args@[i], b[i]);
        }
    }
    if s.len() > 0 {
        lemma_compatible_views(s.drop_last(), a, b);
        lemma_compatible_views(s.drop_first(), a, b);
    }
}

fn copy_arg_types(es: &Vec<MIRExpression>) -> (res: Option<Vec<MIRTypeInner>>)
    ensures
        match res {
            Some(v) => (forall|i: int| 0 <= i < es@.len() ==> (#[trigger] es@[i]).ty is Some) && v@.len()
                == es@.len() && forall|i: int| 0 <= i < es@.len() ==> (#[trigger] v@[i])@ == arg_types(es@)[i]@,
            None => !(forall|i: int| 0 <= i < es@.len() ==> (#[trigger] es@[i]).ty is Some),
        },
{
    let mut out: Vec<MIRTypeInner> = Vec::new();
    let mut i: usize = 0;
    while i < es.len()
        invariant
            i <= es@.len(),
            out@.len() == i,
            forall|j: int| 0 <= j < i ==> (#[trigger] es@[j]).ty is Some,
            forall|j: int| 0 <= j < i ==> (#[trigger] out@[j])@ == arg_types(es@)[j]@,
        decreases es@.len() - i,
    {
        match &es[i].ty {
            Some(t) => {
                out.push(copy_type(&t.ty));
            },
            None => {
                return None;
            },
        }
        i = i + 1;
    }
    Some(out)
}

fn find_target(p: &MIRProgram, name: &String, args: &Vec<MIRExpression>) -> (res: Option<MIRFunctionKey>)
    requires
        forall|i: int| 0 <= i < args@.len() ==> (#[trigger] args@[i]).ty is Some,
    ensures
        res == call_target(*p, name@, arg_types(args@)),
{
    let tys = match copy_arg_types(args) {
        Some(v) => v,
        None => {
            return None;
        },
    };
    match find_overloads(p, name) {
        Some(i) => {
            let ov = &p.function_names[i].1;
            proof {
                lemma_compatible_views(ov@, tys@, arg_types(args@));
            }
            ov.find_compatible(tys.as_slice())
        },
        None => None,
    }
}


// ---------------------------------------------------------------------------
// Store operations
// ---------------------------------------------------------------------------

pub open spec fn with_slot(st: StoreV, v: Option<InterpValue>) -> StoreV {
    StoreV { slots: st.slots.push(v), ..st }
}

pub open spec fn with_string(st: StoreV, s: Seq<char>) -> StoreV {
    StoreV { strings: st.strings.push(s), ..st }
}

pub open spec fn with_array(st: StoreV, a: Seq<usize>) -> StoreV {
    StoreV { arrays: st.arrays.push(a), ..st }
}

pub open spec fn set_slot(st: StoreV, i: usize, v: InterpValue) -> StoreV {
    StoreV { slots: st.slots.update(i as int, Some(v)), ..st }
}

fn push_slot(st: &mut EvalStore, v: Option<InterpValue>) -> (res: usize)
    ensures
        res == old(st)@.slots.len(),
        final(st)@ == with_slot(old(st)@, v),
{
    let n = st.slots.len();
    st.slots.push(v);
    assert(final(st)@.arrays =~= old(st)@.arrays);
    n
}

fn push_string(st: &mut EvalStore, s: String) -> (res: usize)
    ensures
        res == old(st)@.strings.len(),
        final(st)@ == with_string(old(st)@, s@),
{
    let n = st.strings.len();
    st.strings.push(s);
    assert(final(st)@.strings =~= old(st)@.strings.push(s@));
    n
}

fn push_array(st: &mut EvalStore, a: Vec<usize>) -> (res: usize)
    ensures
        res == old(st)@.arrays.len(),
        final(st)@ == with_array(old(st)@, a@),
{
    let n = st.arrays.len();
    let ghost av = a@;
    st.arrays.push(a);
    assert(final(st)@.arrays =~= old(st)@.arrays.push(av));
    n
}

fn write_slot(st: &mut EvalStore, i: usize, v: InterpValue)
    requires
        i < old(st)@.slots.len(),
    ensures
        final(st)@ == set_slot(old(st)@, i, v),
{
    st.slots.set(i, Some(v));
    assert(final(st)@.slots =~= old(st)@.slots.update(i as int, Some(v)));
}

fn start_eval(st: &mut EvalStore, name: &String)
    ensures
        final(st)@ == (StoreV { evaluating: old(st)@.evaluating.push(name@), ..old(st)@ }),
{
    st.evaluating.push(name.clone());
    assert(final(st)@.evaluating =~= old(st)@.evaluating.push(name@));
}

fn finish_const(st: &mut EvalStore, i: usize, v: InterpValue, depth: usize)
    ensures
        final(st)@ == (StoreV {
            constants: old(st)@.constants.push((i, v)),
            evaluating: old(st)@.evaluating.take(if depth <= old(st)@.evaluating.len() { depth as int } else { old(st)@.evaluating.len() as int }),
            ..old(st)@
        }),
{
    st.constants.push((i, v));
    st.evaluating.truncate(depth);
    assert(final(st)@.evaluating =~= old(st)@.evaluating.take(if depth <= old(st)@.evaluating.len() { depth as int } else { old(st)@.evaluating.len() as int }));
}

fn finish_static(st: &mut EvalStore, i: usize, slot: usize, depth: usize)
    ensures
        final(st)@ == (StoreV {
            statics: old(st)@.statics.push((i, slot)),
            evaluating: old(st)@.evaluating.take(if depth <= old(st)@.evaluating.len() { depth as int } else { old(st)@.evaluating.len() as int }),
            ..old(st)@
        }),
{
    st.statics.push((i, slot));
    st.evaluating.truncate(depth);
    assert(final(st)@.evaluating =~= old(st)@.evaluating.take(if depth <= old(st)@.evaluating.len() { depth as int } else { old(st)@.evaluating.len() as int }));
}

/// The value in a slot: a slot out of range is a mismatch, an empty one an
/// unset variable.
pub open spec fn read_slot(st: StoreV, i: usize) -> Result<InterpValue, EvalError> {
    if i >= st.slots.len() {
        Err(EvalError::Mismatch)
    } else {
        match st.slots[i as int] {
            Some(v) => Ok(v),
            None => Err(EvalError::UnsetVariable),
        }
    }
}

fn read_slot_exec(st: &EvalStore, i: usize) -> (res: Result<InterpValue, EvalError>)
    ensures
        res == read_slot(st@, i),
{
    if i >= st.slots.len() {
        Err(EvalError::Mismatch)
    } else {
        match st.slots[i] {
            Some(v) => Ok(v),
            None => Err(EvalError::UnsetVariable),
        }
    }
}

/// A slot read where an empty slot is a mismatch (an uninitialized static,
/// array element or referenced variable).
pub open spec fn read_filled(st: StoreV, i: usize) -> Result<InterpValue, EvalError> {
    match read_slot(st, i) {
        Err(_) => Err(EvalError::Mismatch),
        Ok(v) => Ok(v),
    }
}

fn read_filled_exec(st: &EvalStore, i: usize) -> (res: Result<InterpValue, EvalError>)
    ensures
        res == read_filled(st@, i),
{
    match read_slot_exec(st, i) {
        Err(_) => Err(EvalError::Mismatch),
        Ok(v) => Ok(v),
    }
}

/// Arguments bound to fresh slots, in order, each under its name.
pub open spec fn bind_args(st: StoreV, sc: ScopeV, names: Seq<Seq<char>>, vs: Seq<InterpValue>) -> (StoreV, ScopeV)
    decreases vs.len(),
{
    if vs.len() == 0 || names.len() == 0 {
        (st, sc)
    } else {
        let (s1, c1) = bind_args(st, sc, names.drop_last(), vs.drop_last());
        (
            with_slot(s1, Some(vs.last())),
            ScopeV { variables: c1.variables.push((names.last(), s1.slots.len() as usize)), ..c1 },
        )
    }
}

/// Slots allocated for values, in order; their numbers.
pub open spec fn alloc_all(st: StoreV, vs: Seq<InterpValue>) -> (Seq<usize>, StoreV)
    decreases vs.len(),
{
    if vs.len() == 0 {
        (Seq::empty(), st)
    } else {
        let (ix, s1) = alloc_all(st, vs.drop_last());
        (ix.push(s1.slots.len() as usize), with_slot(s1, Some(vs.last())))
    }
}

fn alloc_all_exec(st: &mut EvalStore, vs: &Vec<InterpValue>) -> (res: Vec<usize>)
    ensures
        (res@, final(st)@) == alloc_all(old(st)@, vs@),
{
    let mut out: Vec<usize> = Vec::new();
    let mut i: usize = 0;
    assert(vs@.take(0) =~= Seq::<InterpValue>::empty());
    while i < vs.len()
        invariant
            i <= vs@.len(),
            (out@, st@) == alloc_all(old(st)@, vs@.take(i as int)),
        decreases vs@.len() - i,
    {
        assert(vs@.take(i + 1).drop_last() =~= vs@.take(i as int));
        let n = push_slot(st, Some(vs[i]));
        out.push(n);
        i = i + 1;
    }
    assert(vs@.take(i as int) =~= vs@);
    out
}

/// The native `string`: a new text for its first argument.
pub open spec fn native_string(st: StoreV, vs: Seq<InterpValue>) -> (Result<InterpValue, EvalError>, StoreV) {
    if vs.len() < 1 {
        (Err(EvalError::Mismatch), st)
    } else {
        match string_text(vs[0], st.strings) {
            Ok(t) => (Ok(InterpValue::Str(st.strings.len() as usize)), with_string(st, t)),
            Err(e) => (Err(e), st),
        }
    }
}

/// The native `stringInto`: the text of its first argument, stored where
/// its second argument refers to.
pub open spec fn native_string_into(st: StoreV, vs: Seq<InterpValue>) -> (Result<InterpValue, EvalError>, StoreV) {
    let (r, s1) = native_string(st, vs);
    match r {
        Err(e) => (Err(e), s1),
        Ok(v) => if vs.len() < 2 {
            (Err(EvalError::Mismatch), s1)
        } else {
            match vs[1] {
                InterpValue::Ref(slot) => if slot < s1.slots.len() {
                    (Ok(InterpValue::Unit), set_slot(s1, slot, v))
                } else {
                    (Err(EvalError::Mismatch), s1)
                },
                _ => (Err(EvalError::Mismatch), s1),
            }
        },
    }
}

fn native_string_exec(st: &mut EvalStore, vs: &Vec<InterpValue>) -> (res: Result<InterpValue, EvalError>)
    ensures
        (res, final(st)@) == native_string(old(st)@, vs@),
{
    if vs.len() < 1 {
        return Err(EvalError::Mismatch);
    }
    match string_text_exec(vs[0], st) {
        Ok(t) => {
            let n = push_string(st, t);
            Ok(InterpValue::Str(n))
        },
        Err(e) => Err(e),
    }
}

fn native_string_into_exec(st: &mut EvalStore, vs: &Vec<InterpValue>) -> (res: Result<InterpValue, EvalError>)
    ensures
        (res, final(st)@) == native_string_into(old(st)@, vs@),
{
    let v = match native_string_exec(st, vs) {
        Err(e) => {
            return Err(e);
        },
        Ok(v) => v,
    };
    if vs.len() < 2 {
        return Err(EvalError::Mismatch);
    }
    match vs[1] {
        InterpValue::Ref(slot) => if slot < st.slots.len() {
            write_slot(st, slot, v);
            Ok(InterpValue::Unit)
        } else {
            Err(EvalError::Mismatch)
        },
        _ => Err(EvalError::Mismatch),
    }
}


// ---------------------------------------------------------------------------
// Evaluation: the rules
// ---------------------------------------------------------------------------

/// The stack of names being evaluated, cut back to `depth`.
pub open spec fn cut(stack: Seq<Seq<char>>, depth: nat) -> Seq<Seq<char>> {
    stack.take(if depth <= stack.len() { depth as int } else { stack.len() as int })
}

/// Evaluates an expression: in place mode a variable gives a reference to
/// its slot rather than its value. Each expression takes one unit of fuel.
pub open spec fn eval_spec(
    p: MIRProgram,
    st: StoreV,
    sc: ScopeV,
    e: MIRExpression,
    place: bool,
    fuel: nat,
) -> (Result<InterpValue, EvalError>, StoreV)
    decreases fuel, 1nat,
{
    if fuel == 0 {
        (Err(EvalError::OutOfFuel), st)
    } else {
        eval_step(p, st, sc, e, place, fuel)
    }
}

/// One step of [`eval_spec`], with fuel left.
pub open spec fn eval_step(
    p: MIRProgram,
    st: StoreV,
    sc: ScopeV,
    e: MIRExpression,
    place: bool,
    fuel: nat,
) -> (Result<InterpValue, EvalError>, StoreV)
    decreases fuel, 0nat,
{
    if fuel == 0 {
        (Err(EvalError::OutOfFuel), st)
    } else {
        let f = (fuel - 1) as nat;
        match e.inner {
            MIRExpressionInner::Add(l, r) => eval_bin(p, st, sc, BinKind::Add, *l, *r, place, f),
            MIRExpressionInner::Sub(l, r) => eval_bin(p, st, sc, BinKind::Sub, *l, *r, place, f),
            MIRExpressionInner::Mul(l, r) => eval_bin(p, st, sc, BinKind::Mul, *l, *r, place, f),
            MIRExpressionInner::Div(l, r) => eval_bin(p, st, sc, BinKind::Div, *l, *r, place, f),
            MIRExpressionInner::Equal(l, r) => eval_bin(p, st, sc, BinKind::Equal, *l, *r, place, f),
            MIRExpressionInner::NotEqual(l, r) => eval_bin(p, st, sc, BinKind::NotEqual, *l, *r, place, f),
            MIRExpressionInner::Greater(l, r) => eval_bin(p, st, sc, BinKind::Greater, *l, *r, place, f),
            MIRExpressionInner::Less(l, r) => eval_bin(p, st, sc, BinKind::Less, *l, *r, place, f),
            MIRExpressionInner::GreaterEq(l, r) => eval_bin(p, st, sc, BinKind::GreaterEq, *l, *r, place, f),
            MIRExpressionInner::LessEq(l, r) => eval_bin(p, st, sc, BinKind::LessEq, *l, *r, place, f),
            MIRExpressionInner::BoolAnd(l, r) => eval_bin(p, st, sc, BinKind::And, *l, *r, place, f),
            MIRExpressionInner::BoolOr(l, r) => eval_bin(p, st, sc, BinKind::Or, *l, *r, place, f),
            MIRExpressionInner::Number(v) => (num_value(v, e.ty), st),
            MIRExpressionInner::String(t) => (Ok(InterpValue::Str(st.strings.len() as usize)), with_string(st, t@)),
            MIRExpressionInner::Bool(b) => (Ok(InterpValue::Bool(b)), st),
            MIRExpressionInner::Unit => (Ok(InterpValue::Unit), st),
            MIRExpressionInner::Char(c) => (Ok(InterpValue::Char(c)), st),
            MIRExpressionInner::Variable(name, _) => eval_var(p, st, sc, name@, place, f),
            MIRExpressionInner::FunctionCall(c) => fncall_spec(p, st, sc, *c, place, f),
            MIRExpressionInner::Ref(x) => {
                let (r, s1) = eval_spec(p, st, sc, *x, true, f);
                match r {
                    Err(err) => (Err(err), s1),
                    Ok(InterpValue::Ref(slot)) => if place {
                        (Err(EvalError::Mismatch), s1)
                    } else {
                        (Ok(InterpValue::Ref(slot)), s1)
                    },
                    Ok(_) => (Err(EvalError::Mismatch), s1),
                }
            },
            MIRExpressionInner::Deref(x) => {
                let (r, s1) = eval_spec(p, st, sc, *x, place, f);
                match r {
                    Err(err) => (Err(err), s1),
                    Ok(InterpValue::Ref(slot)) => (read_filled(s1, slot), s1),
                    Ok(_) => (Err(EvalError::Mismatch), s1),
                }
            },
            MIRExpressionInner::Index(b, x) => {
                let (rb, s1) = eval_spec(p, st, sc, *b, false, f);
                match rb {
                    Err(err) => (Err(err), s1),
                    Ok(base) => {
                        let (rx, s2) = eval_spec(p, s1, sc, *x, false, f);
                        match rx {
                            Err(err) => (Err(err), s2),
                            Ok(iv) => (index_value(s2, base, iv, place), s2),
                        }
                    },
                }
            },
            MIRExpressionInner::Array(es) => {
                let (r, s1) = vals_spec(p, st, sc, es@, false, false, f);
                match r {
                    Err(err) => (Err(err), s1),
                    Ok(vs) => {
                        let (ix, s2) = alloc_all(s1, vs);
                        (Ok(InterpValue::Array(s2.arrays.len() as usize)), with_array(s2, ix))
                    },
                }
            },
            MIRExpressionInner::Neg(x) => {
                let (r, s1) = eval_spec(p, st, sc, *x, place, f);
                match r {
                    Err(err) => (Err(err), s1),
                    Ok(InterpValue::I32(v)) => match 0i32.checked_sub(v) {
                        Some(n) => (Ok(InterpValue::I32(n)), s1),
                        None => (Err(EvalError::Overflow), s1),
                    },
                    Ok(InterpValue::UnknownNumber(v)) => match 0i128.checked_sub(v) {
                        Some(n) => (Ok(InterpValue::UnknownNumber(n)), s1),
                        None => (Err(EvalError::Overflow), s1),
                    },
                    Ok(_) => (Err(EvalError::Mismatch), s1),
                }
            },
            MIRExpressionInner::Not(x) => {
                let (r, s1) = eval_spec(p, st, sc, *x, place, f);
                match r {
                    Err(err) => (Err(err), s1),
                    Ok(InterpValue::Bool(b)) => (Ok(InterpValue::Bool(!b)), s1),
                    Ok(_) => (Err(EvalError::Mismatch), s1),
                }
            },
            _ => (Err(EvalError::Unsupported), st),
        }
    }
}

/// An element of an array or a character of a text; in place mode, a
/// reference to an array element's slot.
pub open spec fn index_value(st: StoreV, base: InterpValue, iv: InterpValue, place: bool) -> Result<InterpValue, EvalError> {
    match index_of(iv) {
        Err(err) => Err(err),
        Ok(i) => match base {
            InterpValue::Array(a) => if a >= st.arrays.len() {
                Err(EvalError::Mismatch)
            } else if i >= st.arrays[a as int].len() {
                Err(EvalError::IndexOutOfBounds)
            } else if place {
                Ok(InterpValue::Ref(st.arrays[a as int][i as int]))
            } else {
                read_filled(st, st.arrays[a as int][i as int])
            },
            InterpValue::Str(t) => if t >= st.strings.len() {
                Err(EvalError::Mismatch)
            } else if i >= st.strings[t as int].len() {
                Err(EvalError::IndexOutOfBounds)
            } else if place {
                Err(EvalError::Unsupported)
            } else {
                Ok(InterpValue::Char(st.strings[t as int][i as int]))
            },
            _ => Err(EvalError::Mismatch),
        },
    }
}

/// Both operands, left first, then the operator.
pub open spec fn eval_bin(
    p: MIRProgram,
    st: StoreV,
    sc: ScopeV,
    k: BinKind,
    l: MIRExpression,
    r: MIRExpression,
    place: bool,
    fuel: nat,
) -> (Result<InterpValue, EvalError>, StoreV)
    decreases fuel, 2nat,
{
    let (rl, s1) = eval_spec(p, st, sc, l, place, fuel);
    match rl {
        Err(err) => (Err(err), s1),
        Ok(a) => {
            let (rr, s2) = eval_spec(p, s1, sc, r, place, fuel);
            match rr {
                Err(err) => (Err(err), s2),
                Ok(b) => (binop(k, a, b, s2.strings), s2),
            }
        },
    }
}

/// A name: a local variable, then a constant, then a static; in place mode
/// a local variable or static gives a reference to its slot.
pub open spec fn eval_var(
    p: MIRProgram,
    st: StoreV,
    sc: ScopeV,
    name: Seq<char>,
    place: bool,
    fuel: nat,
) -> (Result<InterpValue, EvalError>, StoreV)
    decreases fuel, 1nat,
{
    match find_var(sc.variables, name) {
        Some(slot) => if place {
            (Ok(InterpValue::Ref(slot)), st)
        } else {
            (read_slot(st, slot), st)
        },
        None => if place {
            match static_index(p, name) {
                Some(i) => {
                    let (r, s1) = static_slot_spec(p, st, i, fuel);
                    match r {
                        Err(err) => (Err(err), s1),
                        Ok(slot) => (Ok(InterpValue::Ref(slot)), s1),
                    }
                },
                None => if const_index(p, name) is Some {
                    (Err(EvalError::Mismatch), st)
                } else {
                    (Err(EvalError::NotFound), st)
                },
            }
        } else {
            match const_index(p, name) {
                Some(i) => const_spec(p, st, i, fuel),
                None => match static_index(p, name) {
                    Some(i) => {
                        let (r, s1) = static_slot_spec(p, st, i, fuel);
                        match r {
                            Err(err) => (Err(err), s1),
                            Ok(slot) => (read_filled(s1, slot), s1),
                        }
                    },
                    None => (Err(EvalError::NotFound), st),
                },
            }
        },
    }
}

/// Expressions evaluated left to right; with `typed`, each must carry its
/// type once evaluated.
pub open spec fn vals_spec(
    p: MIRProgram,
    st: StoreV,
    sc: ScopeV,
    es: Seq<MIRExpression>,
    place: bool,
    typed: bool,
    fuel: nat,
) -> (Result<Seq<InterpValue>, EvalError>, StoreV)
    decreases fuel, es.len() + 1,
{
    if es.len() == 0 {
        (Ok(Seq::empty()), st)
    } else {
        let (r, s1) = vals_spec(p, st, sc, es.drop_last(), place, typed, fuel);
        match r {
            Err(err) => (Err(err), s1),
            Ok(vs) => {
                let (r2, s2) = eval_spec(p, s1, sc, es.last(), place, fuel);
                match r2 {
                    Err(err) => (Err(err), s2),
                    Ok(v) => if typed && es.last().ty is None {
                        (Err(EvalError::Mismatch), s2)
                    } else {
                        (Ok(vs.push(v)), s2)
                    },
                }
            },
        }
    }
}

/// A call: its arguments left to right, then the function that the name
/// and the argument types resolve to. A call through a pointer evaluates
/// the pointer, which never holds a function here.
pub open spec fn fncall_spec(
    p: MIRProgram,
    st: StoreV,
    sc: ScopeV,
    c: MIRFnCall,
    place: bool,
    fuel: nat,
) -> (Result<InterpValue, EvalError>, StoreV)
    decreases fuel, 0nat,
{
    if fuel == 0 {
        (Err(EvalError::OutOfFuel), st)
    } else {
        let f = (fuel - 1) as nat;
        match c.source {
            MIRFnSource::Direct(name, _) => {
                let (r, s1) = vals_spec(p, st, sc, c.args@, place, true, f);
                match r {
                    Err(err) => (Err(err), s1),
                    Ok(vs) => match call_target(p, name@, arg_types(c.args@)) {
                        None => (Err(EvalError::NotFound), s1),
                        Some(k) => call_key_spec(p, s1, k, vs, f),
                    },
                }
            },
            MIRFnSource::Indirect(x) => {
                let (r, s1) = eval_spec(p, st, sc, x, place, f);
                match r {
                    Err(err) => (Err(err), s1),
                    Ok(_) => (Err(EvalError::Mismatch), s1),
                }
            },
        }
    }
}

/// Runs a function on argument values: the natives `string` and
/// `stringInto` directly, other external functions not at all, and any
/// other function by binding its arguments and running its body.
pub open spec fn call_key_spec(
    p: MIRProgram,
    st: StoreV,
    k: MIRFunctionKey,
    vs: Seq<InterpValue>,
    fuel: nat,
) -> (Result<InterpValue, EvalError>, StoreV)
    decreases fuel, 0nat,
{
    if fuel == 0 {
        (Err(EvalError::OutOfFuel), st)
    } else if k.0 >= p.functions@.len() {
        (Err(EvalError::NotFound), st)
    } else {
        let func = p.functions@[k.0 as int];
        if func.fn_type == MIRFunctionType::Extern {
            if func.name@ == "string"@ {
                native_string(st, vs)
            } else if func.name@ == "stringInto"@ {
                native_string_into(st, vs)
            } else {
                (Err(EvalError::ExternCall), st)
            }
        } else if func.args@.len() != vs.len() {
            (Err(EvalError::Mismatch), st)
        } else {
            let names = func.args@.map_values(|a: super::MIRVariable| a.name@);
            let (s1, sc1) = bind_args(st, empty_scope(), names, vs);
            body_spec(p, s1, sc1, func.body@, 0, (fuel - 1) as nat)
        }
    }
}

/// Runs a flattened body from statement `idx`: a `return` ends it with its
/// value, a jump continues at its target, and running off the end gives
/// the unit value. Each statement takes one unit of fuel.
pub open spec fn body_spec(
    p: MIRProgram,
    st: StoreV,
    sc: ScopeV,
    body: Seq<MIRStatement>,
    idx: nat,
    fuel: nat,
) -> (Result<InterpValue, EvalError>, StoreV)
    decreases fuel, 0nat,
{
    if fuel == 0 {
        (Err(EvalError::OutOfFuel), st)
    } else if idx >= body.len() {
        (Ok(InterpValue::Unit), st)
    } else {
        let f = (fuel - 1) as nat;
        let (r, s1, sc1) = stmt_spec(p, st, sc, body[idx as int], f);
        match r {
            Err(err) => (Err(err), s1),
            Ok(Some(v)) => (Ok(v), s1),
            Ok(None) => match sc1.next_idx {
                Some(n) => body_spec(p, s1, ScopeV { next_idx: None, ..sc1 }, body, n as nat, f),
                None => body_spec(p, s1, sc1, body, idx + 1, f),
            },
        }
    }
}

/// Stores a value where a place expression refers to.
pub open spec fn assign_spec(
    p: MIRProgram,
    st: StoreV,
    sc: ScopeV,
    place: MIRExpression,
    v: InterpValue,
    fuel: nat,
) -> (Result<Option<InterpValue>, EvalError>, StoreV, ScopeV)
    decreases fuel, 2nat,
{
    let (r, s1) = eval_spec(p, st, sc, place, true, fuel);
    match r {
        Err(err) => (Err(err), s1, sc),
        Ok(InterpValue::Ref(slot)) => if slot < s1.slots.len() {
            (Ok(None), set_slot(s1, slot, v), sc)
        } else {
            (Err(EvalError::Mismatch), s1, sc)
        },
        Ok(_) => (Err(EvalError::Mismatch), s1, sc),
    }
}

/// A compound assignment: the place's value and the operand, combined,
/// stored back into the place.
pub open spec fn compound_spec(
    p: MIRProgram,
    st: StoreV,
    sc: ScopeV,
    k: BinKind,
    place: MIRExpression,
    operand: Option<MIRExpression>,
    fuel: nat,
) -> (Result<Option<InterpValue>, EvalError>, StoreV, ScopeV)
    decreases fuel, 3nat,
{
    let (ra, s1) = eval_spec(p, st, sc, place, false, fuel);
    match ra {
        Err(err) => (Err(err), s1, sc),
        Ok(a) => {
            let (rb, s2) = match operand {
                Some(x) => eval_spec(p, s1, sc, x, false, fuel),
                None => (num_value(1, place.ty), s1),
            };
            match rb {
                Err(err) => (Err(err), s2, sc),
                Ok(b) => match binop(k, a, b, s2.strings) {
                    Err(err) => (Err(err), s2, sc),
                    Ok(v) => assign_spec(p, s2, sc, place, v, fuel),
                },
            }
        },
    }
}

/// Runs a statement of a flattened body: the result is a returned value,
/// if any; a jump sets where the body continues.
pub open spec fn stmt_spec(
    p: MIRProgram,
    st: StoreV,
    sc: ScopeV,
    s: MIRStatement,
    fuel: nat,
) -> (Result<Option<InterpValue>, EvalError>, StoreV, ScopeV)
    decreases fuel, 0nat,
{
    if fuel == 0 {
        (Err(EvalError::OutOfFuel), st, sc)
    } else {
        let f = (fuel - 1) as nat;
        match s {
            MIRStatement::CreateVariable { var, value, .. } => if var.arg {
                (Ok(None), st, sc)
            } else {
                let (r, s1) = match value {
                    Some(x) => {
                        let (r, s1) = eval_spec(p, st, sc, x, false, f);
                        match r {
                            Err(err) => (Err(err), s1),
                            Ok(v) => (Ok(Some(v)), s1),
                        }
                    },
                    None => (Ok(None), st),
                };
                match r {
                    Err(err) => (Err(err), s1, sc),
                    Ok(v) => (
                        Ok(None),
                        with_slot(s1, v),
                        ScopeV { variables: sc.variables.push((var.name@, s1.slots.len() as usize)), ..sc },
                    ),
                }
            },
            MIRStatement::SetVariable { place, value, .. } => {
                let (r, s1) = eval_spec(p, st, sc, value, false, f);
                match r {
                    Err(err) => (Err(err), s1, sc),
                    Ok(v) => assign_spec(p, s1, sc, place, v, f),
                }
            },
            MIRStatement::AddAssign { place, value, .. } => compound_spec(p, st, sc, BinKind::Add, place, Some(value), f),
            MIRStatement::SubAssign { place, value, .. } => compound_spec(p, st, sc, BinKind::Sub, place, Some(value), f),
            MIRStatement::MulAssign { place, value, .. } => compound_spec(p, st, sc, BinKind::Mul, place, Some(value), f),
            MIRStatement::DivAssign { place, value, .. } => compound_spec(p, st, sc, BinKind::Div, place, Some(value), f),
            MIRStatement::IncrementVariable { place, .. } => compound_spec(p, st, sc, BinKind::Add, place, None, f),
            MIRStatement::DecrementVariable { place, .. } => compound_spec(p, st, sc, BinKind::Sub, place, None, f),
            MIRStatement::FunctionCall(c) => {
                let (r, s1) = fncall_spec(p, st, sc, c, false, f);
                match r {
                    Err(err) => (Err(err), s1, sc),
                    Ok(_) => (Ok(None), s1, sc),
                }
            },
            MIRStatement::Return { expr, .. } => match expr {
                None => (Ok(Some(InterpValue::Unit)), st, sc),
                Some(x) => {
                    let (r, s1) = eval_spec(p, st, sc, x, false, f);
                    match r {
                        Err(err) => (Err(err), s1, sc),
                        Ok(v) => (Ok(Some(v)), s1, sc),
                    }
                },
            },
            MIRStatement::Goto { index, .. } => match index {
                Some(i) => (Ok(None), st, ScopeV { next_idx: Some(i), ..sc }),
                None => (Err(EvalError::Mismatch), st, sc),
            },
            MIRStatement::GotoNotEqual { index, condition, .. } => {
                let (r, s1) = eval_spec(p, st, sc, condition, false, f);
                match r {
                    Err(err) => (Err(err), s1, sc),
                    Ok(InterpValue::Bool(b)) => if b {
                        (Ok(None), s1, sc)
                    } else {
                        match index {
                            Some(i) => (Ok(None), s1, ScopeV { next_idx: Some(i), ..sc }),
                            None => (Err(EvalError::Mismatch), s1, sc),
                        }
                    },
                    Ok(_) => (Err(EvalError::Mismatch), s1, sc),
                }
            },
            MIRStatement::IfStatement { .. } | MIRStatement::LoopStatement { .. }
            | MIRStatement::ScopeStatement { .. } | MIRStatement::ContinueStatement { .. }
            | MIRStatement::BreakStatement { .. } => (Err(EvalError::NotFlattened), st, sc),
            _ => (Ok(None), st, sc),
        }
    }
}

/// The value of the constant with index `i`: cached once computed; a
/// constant whose value needs itself is an evaluation loop.
pub open spec fn const_spec(p: MIRProgram, st: StoreV, i: usize, fuel: nat) -> (Result<InterpValue, EvalError>, StoreV)
    decreases fuel, 0nat,
{
    if fuel == 0 {
        (Err(EvalError::OutOfFuel), st)
    } else {
        match find_cached(st.constants, i) {
            Some(v) => (Ok(v), st),
            None => if i >= p.constants@.len() {
                (Err(EvalError::NotFound), st)
            } else {
                let c = p.constants@[i as int];
                if st.evaluating.contains(c.name@) {
                    (Err(EvalError::EvalLoop), st)
                } else {
                    let s0 = StoreV { evaluating: st.evaluating.push(c.name@), ..st };
                    let (r, s1) = eval_spec(p, s0, empty_scope(), c.value, false, (fuel - 1) as nat);
                    match r {
                        Err(err) => (Err(err), s1),
                        Ok(v) => (
                            Ok(v),
                            StoreV {
                                constants: s1.constants.push((i, v)),
                                evaluating: cut(s1.evaluating, st.evaluating.len()),
                                ..s1
                            },
                        ),
                    }
                }
            },
        }
    }
}

/// The slot of the static with index `i`: made and filled the first time
/// it is needed; a static whose value needs itself is an evaluation loop.
pub open spec fn static_slot_spec(p: MIRProgram, st: StoreV, i: usize, fuel: nat) -> (Result<usize, EvalError>, StoreV)
    decreases fuel, 0nat,
{
    if fuel == 0 {
        (Err(EvalError::OutOfFuel), st)
    } else {
        match find_static_slot(st.statics, i) {
            Some(slot) => (Ok(slot), st),
            None => if i >= p.statics@.len() {
                (Err(EvalError::NotFound), st)
            } else {
                let c = p.statics@[i as int];
                if st.evaluating.contains(c.name@) {
                    (Err(EvalError::EvalLoop), st)
                } else {
                    let s0 = StoreV { evaluating: st.evaluating.push(c.name@), ..st };
                    let (r, s1) = eval_spec(p, s0, empty_scope(), c.value, false, (fuel - 1) as nat);
                    match r {
                        Err(err) => (Err(err), s1),
                        Ok(v) => {
                            let s2 = with_slot(s1, Some(v));
                            (
                                Ok(s1.slots.len() as usize),
                                StoreV {
                                    statics: s2.statics.push((i, s1.slots.len() as usize)),
                                    evaluating: cut(s2.evaluating, st.evaluating.len()),
                                    ..s2
                                },
                            )
                        },
                    }
                }
            },
        }
    }
}


// ---------------------------------------------------------------------------
// Evaluation: the code
// ---------------------------------------------------------------------------

/// Evaluates an expression (see [`eval_spec`]).
#[verifier::spinoff_prover]
pub fn eval_expr(
    p: &MIRProgram,
    st: &mut EvalStore,
    sc: &InterpreterScope,
    e: &MIRExpression,
    place: bool,
    fuel: usize,
) -> (res: Result<InterpValue, EvalError>)
    ensures
        (res, final(st)@) == eval_spec(*p, old(st)@, sc@, *e, place, fuel as nat),
    decreases fuel, 1nat,
{
    proof {
        reveal_with_fuel(eval_spec, 2);
    }
    if fuel == 0 {
        return Err(EvalError::OutOfFuel);
    }
    let f = fuel - 1;
    match &e.inner {
            MIRExpressionInner::Add(l, r) => eval_bin_exec(p, st, sc, BinKind::Add, l, r, place, f),
            MIRExpressionInner::Sub(l, r) => eval_bin_exec(p, st, sc, BinKind::Sub, l, r, place, f),
            MIRExpressionInner::Mul(l, r) => eval_bin_exec(p, st, sc, BinKind::Mul, l, r, place, f),
            MIRExpressionInner::Div(l, r) => eval_bin_exec(p, st, sc, BinKind::Div, l, r, place, f),
            MIRExpressionInner::Equal(l, r) => eval_bin_exec(p, st, sc, BinKind::Equal, l, r, place, f),
            MIRExpressionInner::NotEqual(l, r) => eval_bin_exec(p, st, sc, BinKind::NotEqual, l, r, place, f),
            MIRExpressionInner::Greater(l, r) => eval_bin_exec(p, st, sc, BinKind::Greater, l, r, place, f),
            MIRExpressionInner::Less(l, r) => eval_bin_exec(p, st, sc, BinKind::Less, l, r, place, f),
            MIRExpressionInner::GreaterEq(l, r) => eval_bin_exec(p, st, sc, BinKind::GreaterEq, l, r, place, f),
            MIRExpressionInner::LessEq(l, r) => eval_bin_exec(p, st, sc, BinKind::LessEq, l, r, place, f),
            MIRExpressionInner::BoolAnd(l, r) => eval_bin_exec(p, st, sc, BinKind::And, l, r, place, f),
            MIRExpressionInner::BoolOr(l, r) => eval_bin_exec(p, st, sc, BinKind::Or, l, r, place, f),
            MIRExpressionInner::Number(v) => num_value_exec(*v, &e.ty),
            MIRExpressionInner::String(t) => {
                let n = push_string(st, t.clone());
                Ok(InterpValue::Str(n))
            },
            MIRExpressionInner::Bool(b) => Ok(InterpValue::Bool(*b)),
            MIRExpressionInner::Unit => Ok(InterpValue::Unit),
            MIRExpressionInner::Char(c) => Ok(InterpValue::Char(*c)),
            MIRExpressionInner::Variable(name, _) => eval_var_exec(p, st, sc, name, place, f),
            MIRExpressionInner::FunctionCall(c) => fncall_exec(p, st, sc, c, place, f),
            MIRExpressionInner::Ref(x) => match eval_expr(p, st, sc, x, true, f) {
                Err(err) => Err(err),
                Ok(InterpValue::Ref(slot)) => if place {
                    Err(EvalError::Mismatch)
                } else {
                    Ok(InterpValue::Ref(slot))
                },
                Ok(_) => Err(EvalError::Mismatch),
            },
            MIRExpressionInner::Deref(x) => match eval_expr(p, st, sc, x, place, f) {
                Err(err) => Err(err),
                Ok(InterpValue::Ref(slot)) => read_filled_exec(st, slot),
                Ok(_) => Err(EvalError::Mismatch),
            },
            MIRExpressionInner::Index(b, x) => {
                let base = match eval_expr(p, st, sc, b, false, f) {
                    Err(err) => {
                        return Err(err);
                    },
                    Ok(v) => v,
                };
                match eval_expr(p, st, sc, x, false, f) {
                    Err(err) => Err(err),
                    Ok(iv) => index_value_exec(st, base, iv, place),
                }
            },
            MIRExpressionInner::Array(es) => match eval_vals(p, st, sc, es, false, false, f) {
                Err(err) => Err(err),
                Ok(vs) => {
                    let ix = alloc_all_exec(st, &vs);
                    let n = push_array(st, ix);
                    Ok(InterpValue::Array(n))
                },
            },
            MIRExpressionInner::Neg(x) => match eval_expr(p, st, sc, x, place, f) {
                Err(err) => Err(err),
                Ok(InterpValue::I32(v)) => match 0i32.checked_sub(v) {
                    Some(n) => Ok(InterpValue::I32(n)),
                    None => Err(EvalError::Overflow),
                },
                Ok(InterpValue::UnknownNumber(v)) => match 0i128.checked_sub(v) {
                    Some(n) => Ok(InterpValue::UnknownNumber(n)),
                    None => Err(EvalError::Overflow),
                },
                Ok(_) => Err(EvalError::Mismatch),
            },
            MIRExpressionInner::Not(x) => match eval_expr(p, st, sc, x, place, f) {
                Err(err) => Err(err),
                Ok(InterpValue::Bool(b)) => Ok(InterpValue::Bool(!b)),
                Ok(_) => Err(EvalError::Mismatch),
            },
            _ => Err(EvalError::Unsupported),
    }
}

fn index_value_exec(st: &EvalStore, base: InterpValue, iv: InterpValue, place: bool) -> (res: Result<InterpValue, EvalError>)
    ensures
        res == index_value(st@, base, iv, place),
{
    let i = match index_of_exec(iv) {
        Err(err) => {
            return Err(err);
        },
        Ok(i) => i,
    };
    match base {
        InterpValue::Array(a) => if a >= st.arrays.len() {
            Err(EvalError::Mismatch)
        } else if i >= st.arrays[a].len() {
            Err(EvalError::IndexOutOfBounds)
        } else if place {
            Ok(InterpValue::Ref(st.arrays[a][i]))
        } else {
            read_filled_exec(st, st.arrays[a][i])
        },
        InterpValue::Str(t) => if t >= st.strings.len() {
            Err(EvalError::Mismatch)
        } else if i >= st.strings[t].as_str().unicode_len() {
            Err(EvalError::IndexOutOfBounds)
        } else if place {
            Err(EvalError::Unsupported)
        } else {
            Ok(InterpValue::Char(st.strings[t].as_str().get_char(i)))
        },
        _ => Err(EvalError::Mismatch),
    }
}

fn eval_bin_exec(
    p: &MIRProgram,
    st: &mut EvalStore,
    sc: &InterpreterScope,
    k: BinKind,
    l: &MIRExpression,
    r: &MIRExpression,
    place: bool,
    fuel: usize,
) -> (res: Result<InterpValue, EvalError>)
    ensures
        (res, final(st)@) == eval_bin(*p, old(st)@, sc@, k, *l, *r, place, fuel as nat),
    decreases fuel, 2nat,
{
    let a = match eval_expr(p, st, sc, l, place, fuel) {
        Err(err) => {
            return Err(err);
        },
        Ok(a) => a,
    };
    match eval_expr(p, st, sc, r, place, fuel) {
        Err(err) => Err(err),
        Ok(b) => binop_exec(k, a, b, st),
    }
}

fn eval_var_exec(
    p: &MIRProgram,
    st: &mut EvalStore,
    sc: &InterpreterScope,
    name: &String,
    place: bool,
    fuel: usize,
) -> (res: Result<InterpValue, EvalError>)
    ensures
        (res, final(st)@) == eval_var(*p, old(st)@, sc@, name@, place, fuel as nat),
    decreases fuel, 1nat,
{
    match lookup_var(sc, name) {
        Some(slot) => if place {
            Ok(InterpValue::Ref(slot))
        } else {
            read_slot_exec(st, slot)
        },
        None => if place {
            match find_static(p, name) {
                Some(i) => match static_slot_exec(p, st, i, fuel) {
                    Err(err) => Err(err),
                    Ok(slot) => Ok(InterpValue::Ref(slot)),
                },
                None => if find_const(p, name).is_some() {
                    Err(EvalError::Mismatch)
                } else {
                    Err(EvalError::NotFound)
                },
            }
        } else {
            match find_const(p, name) {
                Some(i) => eval_const(p, st, i, fuel),
                None => match find_static(p, name) {
                    Some(i) => match static_slot_exec(p, st, i, fuel) {
                        Err(err) => Err(err),
                        Ok(slot) => read_filled_exec(st, slot),
                    },
                    None => Err(EvalError::NotFound),
                },
            }
        },
    }
}

/// The view of a result holding a vector.
pub open spec fn seq_result(r: Result<Vec<InterpValue>, EvalError>) -> Result<Seq<InterpValue>, EvalError> {
    match r {
        Ok(v) => Ok(v@),
        Err(e) => Err(e),
    }
}

fn eval_vals(
    p: &MIRProgram,
    st: &mut EvalStore,
    sc: &InterpreterScope,
    es: &Vec<MIRExpression>,
    place: bool,
    typed: bool,
    fuel: usize,
) -> (res: Result<Vec<InterpValue>, EvalError>)
    ensures
        (seq_result(res), final(st)@) == vals_spec(*p, old(st)@, sc@, es@, place, typed, fuel as nat),
    decreases fuel, es@.len() + 1,
{
    let mut out: Vec<InterpValue> = Vec::new();
    let mut i: usize = 0;
    assert(es@.take(0) =~= Seq::<MIRExpression>::empty());
    while i < es.len()
        invariant
            i <= es@.len(),
            (Ok::<Seq<InterpValue>, EvalError>(out@), st@) == vals_spec(*p, old(st)@, sc@, es@.take(i as int), place, typed, fuel as nat),
        decreases es@.len() - i,
    {
        let ghost pre = es@.take(i as int + 1);
        assert(pre.drop_last() =~= es@.take(i as int));
        assert(pre.last() == es@[i as int]);
        proof {
            assert(decreases_to!(es@ => es@[i as int]));
        }
        match eval_expr(p, st, sc, &es[i], place, fuel) {
            Err(err) => {
                proof {
                    lemma_vals_err(*p, old(st)@, sc@, es@, place, typed, fuel as nat, i as int + 1);
                }
                return Err(err);
            },
            Ok(v) => {
                if typed && es[i].ty.is_none() {
                    proof {
                        lemma_vals_err(*p, old(st)@, sc@, es@, place, typed, fuel as nat, i as int + 1);
                    }
                    return Err(EvalError::Mismatch);
                }
                out.push(v);
            },
        }
        i = i + 1;
    }
    assert(es@.take(i as int) =~= es@);
    Ok(out)
}

proof fn lemma_vals_err(
    p: MIRProgram,
    st: StoreV,
    sc: ScopeV,
    es: Seq<MIRExpression>,
    place: bool,
    typed: bool,
    fuel: nat,
    k: int,
)
    requires
        0 <= k <= es.len(),
        vals_spec(p, st, sc, es.take(k), place, typed, fuel).0 is Err,
    ensures
        vals_spec(p, st, sc, es, place, typed, fuel) == vals_spec(p, st, sc, es.take(k), place, typed, fuel),
    decreases es.len() - k,
{
    if k < es.len() {
        assert(es.take(k + 1).drop_last() =~= es.take(k));
        lemma_vals_err(p, st, sc, es, place, typed, fuel, k + 1);
    } else {
        assert(es.take(k) =~= es);
    }
}

fn fncall_exec(
    p: &MIRProgram,
    st: &mut EvalStore,
    sc: &InterpreterScope,
    c: &MIRFnCall,
    place: bool,
    fuel: usize,
) -> (res: Result<InterpValue, EvalError>)
    ensures
        (res, final(st)@) == fncall_spec(*p, old(st)@, sc@, *c, place, fuel as nat),
    decreases fuel, 0nat,
{
    if fuel == 0 {
        return Err(EvalError::OutOfFuel);
    }
    let f = fuel - 1;
    match &c.source {
        MIRFnSource::Direct(name, _) => {
            let vs = match eval_vals(p, st, sc, &c.args, place, true, f) {
                Err(err) => {
                    return Err(err);
                },
                Ok(vs) => vs,
            };
            proof {
                lemma_vals_typed(*p, old(st)@, sc@, c.args@, place, f as nat);
            }
            match find_target(p, name, &c.args) {
                None => Err(EvalError::NotFound),
                Some(k) => call_function(p, st, k, &vs, f),
            }
        },
        MIRFnSource::Indirect(x) => match eval_expr(p, st, sc, x, place, f) {
            Err(err) => Err(err),
            Ok(_) => Err(EvalError::Mismatch),
        },
    }
}

/// When typed evaluation of arguments succeeds, every argument has a type.
proof fn lemma_vals_typed(p: MIRProgram, st: StoreV, sc: ScopeV, es: Seq<MIRExpression>, place: bool, fuel: nat)
    ensures
        vals_spec(p, st, sc, es, place, true, fuel).0 is Ok ==> forall|i: int| 0 <= i < es.len() ==> (#[trigger] es[i]).ty is Some,
    decreases es.len(),
{
    if es.len() > 0 {
        lemma_vals_typed(p, st, sc, es.drop_last(), place, fuel);
        if vals_spec(p, st, sc, es, place, true, fuel).0 is Ok {
            assert forall|i: int| 0 <= i < es.len() implies (#[trigger] es[i]).ty is Some by {
                if i < es.len() - 1 {
                    assert(es.drop_last()[i] == es[i]);
                }
            }
        }
    }
}

/// Runs a function on argument values (see [`call_key_spec`]).
pub fn call_function(
    p: &MIRProgram,
    st: &mut EvalStore,
    k: MIRFunctionKey,
    vs: &Vec<InterpValue>,
    fuel: usize,
) -> (res: Result<InterpValue, EvalError>)
    ensures
        (res, final(st)@) == call_key_spec(*p, old(st)@, k, vs@, fuel as nat),
    decreases fuel, 0nat,
{
    if fuel == 0 {
        return Err(EvalError::OutOfFuel);
    }
    if k.0 >= p.functions.len() {
        return Err(EvalError::NotFound);
    }
    let func = &p.functions[k.0];
    proof {
        reveal_strlit("string");
        reveal_strlit("stringInto");
    }
    if func.fn_type == MIRFunctionType::Extern {
        if func.name.eq(&"string".to_owned()) {
            return native_string_exec(st, vs);
        } else if func.name.eq(&"stringInto".to_owned()) {
            return native_string_into_exec(st, vs);
        } else {
            return Err(EvalError::ExternCall);
        }
    }
    if func.args.len() != vs.len() {
        return Err(EvalError::Mismatch);
    }
    let mut sc = InterpreterScope::new();
    let ghost names = func.args@.map_values(|a: super::MIRVariable| a.name@);
    let mut i: usize = 0;
    assert(names.take(0) =~= Seq::<Seq<char>>::empty());
    assert(vs@.take(0) =~= Seq::<InterpValue>::empty());
    while i < vs.len()
        invariant
            i <= vs@.len(),
            vs@.len() == func.args@.len(),
            names == func.args@.map_values(|a: super::MIRVariable| a.name@),
            (st@, sc@) == bind_args(old(st)@, empty_scope(), names.take(i as int), vs@.take(i as int)),
            sc@.next_idx is None,
        decreases vs@.len() - i,
    {
        assert(names.take(i + 1).drop_last() =~= names.take(i as int));
        assert(vs@.take(i + 1).drop_last() =~= vs@.take(i as int));
        let slot = push_slot(st, Some(vs[i]));
        let ghost before = sc@;
        sc.variables.push((func.args[i].name.clone(), slot));
        assert(sc@.variables =~= before.variables.push((names[i as int], slot)));
        i = i + 1;
    }
    assert(names.take(i as int) =~= names);
    assert(vs@.take(i as int) =~= vs@);
    run_body(p, st, &mut sc, &func.body, fuel - 1)
}

/// Runs a flattened body from its first statement (see [`body_spec`]).
fn run_body(
    p: &MIRProgram,
    st: &mut EvalStore,
    sc: &mut InterpreterScope,
    body: &Vec<MIRStatement>,
    fuel: usize,
) -> (res: Result<InterpValue, EvalError>)
    ensures
        (res, final(st)@) == body_spec(*p, old(st)@, old(sc)@, body@, 0, fuel as nat),
    decreases fuel, 1nat,
{
    let mut idx: usize = 0;
    let mut fl: usize = fuel;
    loop
        invariant
            fl <= fuel,
            body_spec(*p, old(st)@, old(sc)@, body@, 0, fuel as nat) == body_spec(*p, st@, sc@, body@, idx as nat, fl as nat),
        decreases fl,
    {
        if fl == 0 {
            return Err(EvalError::OutOfFuel);
        }
        if idx >= body.len() {
            return Ok(InterpValue::Unit);
        }
        let f = fl - 1;
        match exec_statement(p, st, sc, &body[idx], f) {
            Err(err) => {
                return Err(err);
            },
            Ok(Some(v)) => {
                return Ok(v);
            },
            Ok(None) => {
                match sc.next_idx {
                    Some(n) => {
                        sc.next_idx = None;
                        idx = n;
                    },
                    None => {
                        idx = idx + 1;
                    },
                }
            },
        }
        fl = f;
    }
}

fn assign_exec(
    p: &MIRProgram,
    st: &mut EvalStore,
    sc: &InterpreterScope,
    place: &MIRExpression,
    v: InterpValue,
    fuel: usize,
) -> (res: Result<Option<InterpValue>, EvalError>)
    ensures
        (res, final(st)@, sc@) == assign_spec(*p, old(st)@, sc@, *place, v, fuel as nat),
    decreases fuel, 2nat,
{
    match eval_expr(p, st, sc, place, true, fuel) {
        Err(err) => Err(err),
        Ok(InterpValue::Ref(slot)) => if slot < st.slots.len() {
            write_slot(st, slot, v);
            Ok(None)
        } else {
            Err(EvalError::Mismatch)
        },
        Ok(_) => Err(EvalError::Mismatch),
    }
}

fn compound_exec(
    p: &MIRProgram,
    st: &mut EvalStore,
    sc: &InterpreterScope,
    k: BinKind,
    place: &MIRExpression,
    operand: Option<&MIRExpression>,
    fuel: usize,
) -> (res: Result<Option<InterpValue>, EvalError>)
    ensures
        (res, final(st)@, sc@) == compound_spec(
            *p,
            old(st)@,
            sc@,
            k,
            *place,
            match operand {
                Some(x) => Some(*x),
                None => None,
            },
            fuel as nat,
        ),
    decreases fuel, 3nat,
{
    let a = match eval_expr(p, st, sc, place, false, fuel) {
        Err(err) => {
            return Err(err);
        },
        Ok(a) => a,
    };
    let rb = match operand {
        Some(x) => eval_expr(p, st, sc, x, false, fuel),
        None => num_value_exec(1, &place.ty),
    };
    match rb {
        Err(err) => Err(err),
        Ok(b) => match binop_exec(k, a, b, st) {
            Err(err) => Err(err),
            Ok(v) => assign_exec(p, st, sc, place, v, fuel),
        },
    }
}

/// Runs a statement of a flattened body (see [`stmt_spec`]).
pub fn exec_statement(
    p: &MIRProgram,
    st: &mut EvalStore,
    sc: &mut InterpreterScope,
    s: &MIRStatement,
    fuel: usize,
) -> (res: Result<Option<InterpValue>, EvalError>)
    ensures
        (res, final(st)@, final(sc)@) == stmt_spec(*p, old(st)@, old(sc)@, *s, fuel as nat),
    decreases fuel, 0nat,
{
    if fuel == 0 {
        return Err(EvalError::OutOfFuel);
    }
    let f = fuel - 1;
    match s {
        MIRStatement::CreateVariable { var, value, .. } => {
            if var.arg {
                return Ok(None);
            }
            let v = match value {
                Some(x) => match eval_expr(p, st, sc, x, false, f) {
                    Err(err) => {
                        return Err(err);
                    },
                    Ok(v) => Some(v),
                },
                None => None,
            };
            let slot = push_slot(st, v);
            sc.variables.push((var.name.clone(), slot));
            assert(sc@.variables =~= old(sc)@.variables.push((var.name@, slot)));
            Ok(None)
        },
        MIRStatement::SetVariable { place, value, .. } => match eval_expr(p, st, sc, value, false, f) {
            Err(err) => Err(err),
            Ok(v) => assign_exec(p, st, sc, place, v, f),
        },
        MIRStatement::AddAssign { place, value, .. } => compound_exec(p, st, sc, BinKind::Add, place, Some(value), f),
        MIRStatement::SubAssign { place, value, .. } => compound_exec(p, st, sc, BinKind::Sub, place, Some(value), f),
        MIRStatement::MulAssign { place, value, .. } => compound_exec(p, st, sc, BinKind::Mul, place, Some(value), f),
        MIRStatement::DivAssign { place, value, .. } => compound_exec(p, st, sc, BinKind::Div, place, Some(value), f),
        MIRStatement::IncrementVariable { place, .. } => compound_exec(p, st, sc, BinKind::Add, place, None, f),
        MIRStatement::DecrementVariable { place, .. } => compound_exec(p, st, sc, BinKind::Sub, place, None, f),
        MIRStatement::FunctionCall(c) => match fncall_exec(p, st, sc, c, false, f) {
            Err(err) => Err(err),
            Ok(_) => Ok(None),
        },
        MIRStatement::Return { expr, .. } => match expr {
            None => Ok(Some(InterpValue::Unit)),
            Some(x) => match eval_expr(p, st, sc, x, false, f) {
                Err(err) => Err(err),
                Ok(v) => Ok(Some(v)),
            },
        },
        MIRStatement::Goto { index, .. } => match index {
            Some(i) => {
                sc.next_idx = Some(*i);
                Ok(None)
            },
            None => Err(EvalError::Mismatch),
        },
        MIRStatement::GotoNotEqual { index, condition, .. } => match eval_expr(p, st, sc, condition, false, f) {
            Err(err) => Err(err),
            Ok(InterpValue::Bool(b)) => if b {
                Ok(None)
            } else {
                match index {
                    Some(i) => {
                        sc.next_idx = Some(*i);
                        Ok(None)
                    },
                    None => Err(EvalError::Mismatch),
                }
            },
            Ok(_) => Err(EvalError::Mismatch),
        },
        MIRStatement::IfStatement { .. } | MIRStatement::LoopStatement { .. }
        | MIRStatement::ScopeStatement { .. } | MIRStatement::ContinueStatement { .. }
        | MIRStatement::BreakStatement { .. } => Err(EvalError::NotFlattened),
        _ => Ok(None),
    }
}

/// The value of the constant with index `i` (see [`const_spec`]).
pub fn eval_const(p: &MIRProgram, st: &mut EvalStore, i: usize, fuel: usize) -> (res: Result<InterpValue, EvalError>)
    ensures
        (res, final(st)@) == const_spec(*p, old(st)@, i, fuel as nat),
    decreases fuel, 0nat,
{
    if fuel == 0 {
        return Err(EvalError::OutOfFuel);
    }
    match lookup_cached(&st.constants, i) {
        Some(v) => {
            return Ok(v);
        },
        None => {},
    }
    if i >= p.constants.len() {
        return Err(EvalError::NotFound);
    }
    let c = &p.constants[i];
    if is_evaluating(st, &c.name) {
        return Err(EvalError::EvalLoop);
    }
    let depth = st.evaluating.len();
    start_eval(st, &c.name);
    let sc = InterpreterScope::new();
    match eval_expr(p, st, &sc, &c.value, false, fuel - 1) {
        Err(err) => Err(err),
        Ok(v) => {
            finish_const(st, i, v, depth);
            Ok(v)
        },
    }
}

/// The slot of the static with index `i` (see [`static_slot_spec`]).
pub fn static_slot_exec(p: &MIRProgram, st: &mut EvalStore, i: usize, fuel: usize) -> (res: Result<usize, EvalError>)
    ensures
        (res, final(st)@) == static_slot_spec(*p, old(st)@, i, fuel as nat),
    decreases fuel, 0nat,
{
    if fuel == 0 {
        return Err(EvalError::OutOfFuel);
    }
    match lookup_static_slot(&st.statics, i) {
        Some(slot) => {
            return Ok(slot);
        },
        None => {},
    }
    if i >= p.statics.len() {
        return Err(EvalError::NotFound);
    }
    let c = &p.statics[i];
    if is_evaluating(st, &c.name) {
        return Err(EvalError::EvalLoop);
    }
    let depth = st.evaluating.len();
    start_eval(st, &c.name);
    let sc = InterpreterScope::new();
    match eval_expr(p, st, &sc, &c.value, false, fuel - 1) {
        Err(err) => Err(err),
        Ok(v) => {
            let slot = push_slot(st, Some(v));
            finish_static(st, i, slot, depth);
            Ok(slot)
        },
    }
}


/// The value of the constant with this name: none with the name is an
/// error, as is any error of its evaluation (see [`const_spec`]).
pub fn eval_const_named(p: &MIRProgram, st: &mut EvalStore, name: &String, fuel: usize) -> (res: Result<InterpValue, EvalError>)
    ensures
        (res, final(st)@) == match const_index(*p, name@) {
            Some(i) => const_spec(*p, old(st)@, i, fuel as nat),
            None => (Err(EvalError::NotFound), old(st)@),
        },
{
    match find_const(p, name) {
        Some(i) => eval_const(p, st, i, fuel),
        None => Err(EvalError::NotFound),
    }
}

/// A constant is evaluated once: after its value has been computed, asking
/// for it again gives the same value and leaves the store as it is.
pub proof fn lemma_const_cached(p: MIRProgram, st: StoreV, i: usize, fuel: nat, fuel2: nat)
    requires
        const_spec(p, st, i, fuel).0 is Ok,
        fuel2 > 0,
    ensures
        const_spec(p, const_spec(p, st, i, fuel).1, i, fuel2) == (
            const_spec(p, st, i, fuel).0,
            const_spec(p, st, i, fuel).1,
        ),
{
    let s1 = const_spec(p, st, i, fuel).1;
    let v = const_spec(p, st, i, fuel).0->Ok_0;
    if find_cached(st.constants, i) is None {
        assert(s1.constants.last() == (i, v));
        assert(s1.constants.len() > 0);
    }
    assert(find_cached(s1.constants, i) == Some(v));
}

/// A static is evaluated once: after its slot has been made, asking for it
/// again gives the same slot and leaves the store as it is.
pub proof fn lemma_static_cached(p: MIRProgram, st: StoreV, i: usize, fuel: nat, fuel2: nat)
    requires
        static_slot_spec(p, st, i, fuel).0 is Ok,
        fuel2 > 0,
    ensures
        static_slot_spec(p, static_slot_spec(p, st, i, fuel).1, i, fuel2) == (
            static_slot_spec(p, st, i, fuel).0,
            static_slot_spec(p, st, i, fuel).1,
        ),
{
    let s1 = static_slot_spec(p, st, i, fuel).1;
    let v = static_slot_spec(p, st, i, fuel).0->Ok_0;
    if find_static_slot(st.statics, i) is None {
        assert(s1.statics.last() == (i, v));
        assert(s1.statics.len() > 0);
    }
    assert(find_static_slot(s1.statics, i) == Some(v));
}

// ---------------------------------------------------------------------------
// More fuel changes nothing
// ---------------------------------------------------------------------------

/// Evaluation does not depend on fuel once it has enough: an evaluation
/// that did not run out of fuel gives the same result and store with any
/// more fuel.
pub proof fn lemma_fuel_eval(p: MIRProgram, st: StoreV, sc: ScopeV, e: MIRExpression, place: bool, f: nat, f2: nat)
    requires
        f <= f2,
    ensures
        eval_spec(p, st, sc, e, place, f).0 != Err::<InterpValue, EvalError>(EvalError::OutOfFuel) ==> eval_spec(
            p,
            st,
            sc,
            e,
            place,
            f2,
        ) == eval_spec(p, st, sc, e, place, f),
    decreases f, 1nat,
{
    if f > 0 {
        lemma_fuel_step(p, st, sc, e, place, f, f2);
    }
}

proof fn lemma_fuel_step(p: MIRProgram, st: StoreV, sc: ScopeV, e: MIRExpression, place: bool, f: nat, f2: nat)
    requires
        0 < f <= f2,
    ensures
        eval_step(p, st, sc, e, place, f).0 != Err::<InterpValue, EvalError>(EvalError::OutOfFuel) ==> eval_step(
            p,
            st,
            sc,
            e,
            place,
            f2,
        ) == eval_step(p, st, sc, e, place, f),
    decreases f, 0nat,
{
    let g = (f - 1) as nat;
    let g2 = (f2 - 1) as nat;
    match e.inner {
            MIRExpressionInner::Add(l, r) => lemma_fuel_bin(p, st, sc, BinKind::Add, *l, *r, place, g, g2),
            MIRExpressionInner::Sub(l, r) => lemma_fuel_bin(p, st, sc, BinKind::Sub, *l, *r, place, g, g2),
            MIRExpressionInner::Mul(l, r) => lemma_fuel_bin(p, st, sc, BinKind::Mul, *l, *r, place, g, g2),
            MIRExpressionInner::Div(l, r) => lemma_fuel_bin(p, st, sc, BinKind::Div, *l, *r, place, g, g2),
            MIRExpressionInner::Equal(l, r) => lemma_fuel_bin(p, st, sc, BinKind::Equal, *l, *r, place, g, g2),
            MIRExpressionInner::NotEqual(l, r) => lemma_fuel_bin(p, st, sc, BinKind::NotEqual, *l, *r, place, g, g2),
            MIRExpressionInner::Greater(l, r) => lemma_fuel_bin(p, st, sc, BinKind::Greater, *l, *r, place, g, g2),
            MIRExpressionInner::Less(l, r) => lemma_fuel_bin(p, st, sc, BinKind::Less, *l, *r, place, g, g2),
            MIRExpressionInner::GreaterEq(l, r) => lemma_fuel_bin(p, st, sc, BinKind::GreaterEq, *l, *r, place, g, g2),
            MIRExpressionInner::LessEq(l, r) => lemma_fuel_bin(p, st, sc, BinKind::LessEq, *l, *r, place, g, g2),
            MIRExpressionInner::BoolAnd(l, r) => lemma_fuel_bin(p, st, sc, BinKind::And, *l, *r, place, g, g2),
            MIRExpressionInner::BoolOr(l, r) => lemma_fuel_bin(p, st, sc, BinKind::Or, *l, *r, place, g, g2),
            MIRExpressionInner::Variable(name, _) => lemma_fuel_var(p, st, sc, name@, place, g, g2),
        MIRExpressionInner::FunctionCall(c) => lemma_fuel_fncall(p, st, sc, *c, place, g, g2),
        MIRExpressionInner::Ref(x) => lemma_fuel_eval(p, st, sc, *x, true, g, g2),
        MIRExpressionInner::Deref(x) | MIRExpressionInner::Neg(x) | MIRExpressionInner::Not(x) => lemma_fuel_eval(
            p,
            st,
            sc,
            *x,
            place,
            g,
            g2,
        ),
        MIRExpressionInner::Index(b, x) => {
            lemma_fuel_eval(p, st, sc, *b, false, g, g2);
            let s1 = eval_spec(p, st, sc, *b, false, g).1;
            lemma_fuel_eval(p, s1, sc, *x, false, g, g2);
        },
        MIRExpressionInner::Array(es) => lemma_fuel_vals(p, st, sc, es@, false, false, g, g2),
        _ => {},
    }
}

proof fn lemma_fuel_bin(
    p: MIRProgram,
    st: StoreV,
    sc: ScopeV,
    k: BinKind,
    l: MIRExpression,
    r: MIRExpression,
    place: bool,
    f: nat,
    f2: nat,
)
    requires
        f <= f2,
    ensures
        eval_bin(p, st, sc, k, l, r, place, f).0 != Err::<InterpValue, EvalError>(EvalError::OutOfFuel) ==> eval_bin(
            p,
            st,
            sc,
            k,
            l,
            r,
            place,
            f2,
        ) == eval_bin(p, st, sc, k, l, r, place, f),
    decreases f, 2nat,
{
    lemma_fuel_eval(p, st, sc, l, place, f, f2);
    let s1 = eval_spec(p, st, sc, l, place, f).1;
    lemma_fuel_eval(p, s1, sc, r, place, f, f2);
}

proof fn lemma_fuel_var(p: MIRProgram, st: StoreV, sc: ScopeV, name: Seq<char>, place: bool, f: nat, f2: nat)
    requires
        f <= f2,
    ensures
        eval_var(p, st, sc, name, place, f).0 != Err::<InterpValue, EvalError>(EvalError::OutOfFuel) ==> eval_var(
            p,
            st,
            sc,
            name,
            place,
            f2,
        ) == eval_var(p, st, sc, name, place, f),
    decreases f, 1nat,
{
    match static_index(p, name) {
        Some(i) => lemma_fuel_static(p, st, i, f, f2),
        None => {},
    }
    match const_index(p, name) {
        Some(i) => lemma_fuel_const(p, st, i, f, f2),
        None => {},
    }
}

proof fn lemma_fuel_vals(
    p: MIRProgram,
    st: StoreV,
    sc: ScopeV,
    es: Seq<MIRExpression>,
    place: bool,
    typed: bool,
    f: nat,
    f2: nat,
)
    requires
        f <= f2,
    ensures
        vals_spec(p, st, sc, es, place, typed, f).0 != Err::<Seq<InterpValue>, EvalError>(EvalError::OutOfFuel)
            ==> vals_spec(p, st, sc, es, place, typed, f2) == vals_spec(p, st, sc, es, place, typed, f),
    decreases f, es.len() + 1,
{
    if es.len() > 0 {
        lemma_fuel_vals(p, st, sc, es.drop_last(), place, typed, f, f2);
        let s1 = vals_spec(p, st, sc, es.drop_last(), place, typed, f).1;
        lemma_fuel_eval(p, s1, sc, es.last(), place, f, f2);
    }
}

proof fn lemma_fuel_fncall(p: MIRProgram, st: StoreV, sc: ScopeV, c: MIRFnCall, place: bool, f: nat, f2: nat)
    requires
        f <= f2,
    ensures
        fncall_spec(p, st, sc, c, place, f).0 != Err::<InterpValue, EvalError>(EvalError::OutOfFuel) ==> fncall_spec(
            p,
            st,
            sc,
            c,
            place,
            f2,
        ) == fncall_spec(p, st, sc, c, place, f),
    decreases f, 0nat,
{
    if f > 0 {
        let g = (f - 1) as nat;
        let g2 = (f2 - 1) as nat;
        match c.source {
            MIRFnSource::Direct(name, _) => {
                lemma_fuel_vals(p, st, sc, c.args@, place, true, g, g2);
                let (r, s1) = vals_spec(p, st, sc, c.args@, place, true, g);
                match r {
                    Ok(vs) => match call_target(p, name@, arg_types(c.args@)) {
                        Some(k) => lemma_fuel_call(p, s1, k, vs, g, g2),
                        None => {},
                    },
                    Err(_) => {},
                }
            },
            MIRFnSource::Indirect(x) => lemma_fuel_eval(p, st, sc, x, place, g, g2),
        }
    }
}

proof fn lemma_fuel_call(p: MIRProgram, st: StoreV, k: MIRFunctionKey, vs: Seq<InterpValue>, f: nat, f2: nat)
    requires
        f <= f2,
    ensures
        call_key_spec(p, st, k, vs, f).0 != Err::<InterpValue, EvalError>(EvalError::OutOfFuel) ==> call_key_spec(
            p,
            st,
            k,
            vs,
            f2,
        ) == call_key_spec(p, st, k, vs, f),
    decreases f, 0nat,
{
    if f > 0 && k.0 < p.functions@.len() {
        let func = p.functions@[k.0 as int];
        let names = func.args@.map_values(|a: super::MIRVariable| a.name@);
        let (s1, sc1) = bind_args(st, empty_scope(), names, vs);
        lemma_fuel_body(p, s1, sc1, func.body@, 0, (f - 1) as nat, (f2 - 1) as nat);
    }
}

proof fn lemma_fuel_body(
    p: MIRProgram,
    st: StoreV,
    sc: ScopeV,
    body: Seq<MIRStatement>,
    idx: nat,
    f: nat,
    f2: nat,
)
    requires
        f <= f2,
    ensures
        body_spec(p, st, sc, body, idx, f).0 != Err::<InterpValue, EvalError>(EvalError::OutOfFuel) ==> body_spec(
            p,
            st,
            sc,
            body,
            idx,
            f2,
        ) == body_spec(p, st, sc, body, idx, f),
    decreases f, 0nat,
{
    if f > 0 && idx < body.len() {
        let g = (f - 1) as nat;
        let g2 = (f2 - 1) as nat;
        lemma_fuel_stmt(p, st, sc, body[idx as int], g, g2);
        let (r, s1, sc1) = stmt_spec(p, st, sc, body[idx as int], g);
        match r {
            Ok(None) => match sc1.next_idx {
                Some(n) => lemma_fuel_body(p, s1, ScopeV { next_idx: None, ..sc1 }, body, n as nat, g, g2),
                None => lemma_fuel_body(p, s1, sc1, body, idx + 1, g, g2),
            },
            _ => {},
        }
    }
}

proof fn lemma_fuel_assign(p: MIRProgram, st: StoreV, sc: ScopeV, place: MIRExpression, v: InterpValue, f: nat, f2: nat)
    requires
        f <= f2,
    ensures
        assign_spec(p, st, sc, place, v, f).0 != Err::<Option<InterpValue>, EvalError>(EvalError::OutOfFuel)
            ==> assign_spec(p, st, sc, place, v, f2) == assign_spec(p, st, sc, place, v, f),
    decreases f, 2nat,
{
    lemma_fuel_eval(p, st, sc, place, true, f, f2);
}

proof fn lemma_fuel_compound(
    p: MIRProgram,
    st: StoreV,
    sc: ScopeV,
    k: BinKind,
    place: MIRExpression,
    operand: Option<MIRExpression>,
    f: nat,
    f2: nat,
)
    requires
        f <= f2,
    ensures
        compound_spec(p, st, sc, k, place, operand, f).0 != Err::<Option<InterpValue>, EvalError>(
            EvalError::OutOfFuel,
        ) ==> compound_spec(p, st, sc, k, place, operand, f2) == compound_spec(p, st, sc, k, place, operand, f),
    decreases f, 3nat,
{
    lemma_fuel_eval(p, st, sc, place, false, f, f2);
    let (ra, s1) = eval_spec(p, st, sc, place, false, f);
    if let Ok(a) = ra {
        if let Some(x) = operand {
            lemma_fuel_eval(p, s1, sc, x, false, f, f2);
        }
        let (rb, s2) = match operand {
            Some(x) => eval_spec(p, s1, sc, x, false, f),
            None => (num_value(1, place.ty), s1),
        };
        if let Ok(b) = rb {
            if let Ok(v) = binop(k, a, b, s2.strings) {
                lemma_fuel_assign(p, s2, sc, place, v, f, f2);
            }
        }
    }
}

proof fn lemma_fuel_stmt(p: MIRProgram, st: StoreV, sc: ScopeV, s: MIRStatement, f: nat, f2: nat)
    requires
        f <= f2,
    ensures
        stmt_spec(p, st, sc, s, f).0 != Err::<Option<InterpValue>, EvalError>(EvalError::OutOfFuel) ==> stmt_spec(
            p,
            st,
            sc,
            s,
            f2,
        ) == stmt_spec(p, st, sc, s, f),
    decreases f, 0nat,
{
    if f > 0 {
        let g = (f - 1) as nat;
        let g2 = (f2 - 1) as nat;
        match s {
            MIRStatement::CreateVariable { value: Some(x), .. } => lemma_fuel_eval(p, st, sc, x, false, g, g2),
            MIRStatement::SetVariable { place, value, .. } => {
                lemma_fuel_eval(p, st, sc, value, false, g, g2);
                let (r, s1) = eval_spec(p, st, sc, value, false, g);
                if let Ok(v) = r {
                    lemma_fuel_assign(p, s1, sc, place, v, g, g2);
                }
            },
            MIRStatement::AddAssign { place, value, .. } => lemma_fuel_compound(p, st, sc, BinKind::Add, place, Some(value), g, g2),
            MIRStatement::SubAssign { place, value, .. } => lemma_fuel_compound(p, st, sc, BinKind::Sub, place, Some(value), g, g2),
            MIRStatement::MulAssign { place, value, .. } => lemma_fuel_compound(p, st, sc, BinKind::Mul, place, Some(value), g, g2),
            MIRStatement::DivAssign { place, value, .. } => lemma_fuel_compound(p, st, sc, BinKind::Div, place, Some(value), g, g2),
            MIRStatement::IncrementVariable { place, .. } => lemma_fuel_compound(p, st, sc, BinKind::Add, place, None, g, g2),
            MIRStatement::DecrementVariable { place, .. } => lemma_fuel_compound(p, st, sc, BinKind::Sub, place, None, g, g2),
            MIRStatement::FunctionCall(c) => lemma_fuel_fncall(p, st, sc, c, false, g, g2),
            MIRStatement::Return { expr: Some(x), .. } => lemma_fuel_eval(p, st, sc, x, false, g, g2),
            MIRStatement::GotoNotEqual { condition, .. } => lemma_fuel_eval(p, st, sc, condition, false, g, g2),
            _ => {},
        }
    }
}

proof fn lemma_fuel_const(p: MIRProgram, st: StoreV, i: usize, f: nat, f2: nat)
    requires
        f <= f2,
    ensures
        const_spec(p, st, i, f).0 != Err::<InterpValue, EvalError>(EvalError::OutOfFuel) ==> const_spec(p, st, i, f2)
            == const_spec(p, st, i, f),
    decreases f, 0nat,
{
    if f > 0 && i < p.constants@.len() {
        let c = p.constants@[i as int];
        let s0 = StoreV { evaluating: st.evaluating.push(c.name@), ..st };
        lemma_fuel_eval(p, s0, empty_scope(), c.value, false, (f - 1) as nat, (f2 - 1) as nat);
    }
}

proof fn lemma_fuel_static(p: MIRProgram, st: StoreV, i: usize, f: nat, f2: nat)
    requires
        f <= f2,
    ensures
        static_slot_spec(p, st, i, f).0 != Err::<usize, EvalError>(EvalError::OutOfFuel) ==> static_slot_spec(
            p,
            st,
            i,
            f2,
        ) == static_slot_spec(p, st, i, f),
    decreases f, 0nat,
{
    if f > 0 && i < p.statics@.len() {
        let c = p.statics@[i as int];
        let s0 = StoreV { evaluating: st.evaluating.push(c.name@), ..st };
        lemma_fuel_eval(p, s0, empty_scope(), c.value, false, (f - 1) as nat, (f2 - 1) as nat);
    }
}

// ---------------------------------------------------------------------------
// Writing evaluated constants and statics back
// ---------------------------------------------------------------------------

/// The model of a span that covers nothing.
pub open spec fn no_span() -> SpanV {
    SpanV { file: Seq::empty(), start: 0, end: 0, text: Seq::empty() }
}

/// The expression that a value is written back as: a literal, or an array
/// of literals (elements without a type, at no span). Units and references
/// have none: a reference does not keep the expression it was taken of.
pub open spec fn value_inner(st: StoreV, v: InterpValue, depth: nat) -> Option<InnerV>
    decreases depth, 1nat, 0nat,
{
    match v {
        InterpValue::I32(x) => Some(InnerV::Number(x as i128)),
        InterpValue::U32(x) => Some(InnerV::Number(x as i128)),
        InterpValue::UnknownNumber(x) => Some(InnerV::Number(x)),
        InterpValue::Bool(b) => Some(InnerV::Bool(b)),
        InterpValue::Char(c) => Some(InnerV::Char(c)),
        InterpValue::Str(i) => if i < st.strings.len() {
            Some(InnerV::String(st.strings[i as int]))
        } else {
            None
        },
        InterpValue::Array(a) => if depth == 0 || a >= st.arrays.len() {
            None
        } else {
            match elems_inner(st, st.arrays[a as int], (depth - 1) as nat) {
                Some(es) => Some(InnerV::Array(es)),
                None => None,
            }
        },
        _ => None,
    }
}

/// The elements of an array written back, each from its slot.
pub open spec fn elems_inner(st: StoreV, slots: Seq<usize>, depth: nat) -> Option<Seq<ExprV>>
    decreases depth, 2nat, slots.len(),
{
    if slots.len() == 0 {
        Some(Seq::empty())
    } else {
        match elems_inner(st, slots.drop_last(), depth) {
            None => None,
            Some(pre) => match read_filled(st, slots.last()) {
                Err(_) => None,
                Ok(v) => match value_inner(st, v, depth) {
                    Some(i) => Some(pre.push(ExprV { inner: i, ty: None, span: no_span() })),
                    None => None,
                },
            },
        }
    }
}

fn value_inner_exec(st: &EvalStore, v: InterpValue, depth: usize) -> (res: Option<MIRExpressionInner>)
    ensures
        match (res, value_inner(st@, v, depth as nat)) {
            (Some(x), Some(y)) => x@ == y,
            (None, None) => true,
            _ => false,
        },
    decreases depth, 1nat, 0nat,
{
    match v {
        InterpValue::I32(x) => Some(MIRExpressionInner::Number(x as i128)),
        InterpValue::U32(x) => Some(MIRExpressionInner::Number(x as i128)),
        InterpValue::UnknownNumber(x) => Some(MIRExpressionInner::Number(x)),
        InterpValue::Bool(b) => Some(MIRExpressionInner::Bool(b)),
        InterpValue::Char(c) => Some(MIRExpressionInner::Char(c)),
        InterpValue::Str(i) => if i < st.strings.len() {
            Some(MIRExpressionInner::String(st.strings[i].clone()))
        } else {
            None
        },
        InterpValue::Array(a) => if depth == 0 || a >= st.arrays.len() {
            None
        } else {
            match elems_inner_exec(st, &st.arrays[a], depth - 1) {
                Some(es) => Some(MIRExpressionInner::Array(es)),
                None => None,
            }
        },
        _ => None,
    }
}

fn elems_inner_exec(st: &EvalStore, slots: &Vec<usize>, depth: usize) -> (res: Option<Vec<MIRExpression>>)
    ensures
        match (res, elems_inner(st@, slots@, depth as nat)) {
            (Some(x), Some(y)) => exprs_view(x@) == y,
            (None, None) => true,
            _ => false,
        },
    decreases depth, 2nat, slots@.len(),
{
    let mut out: Vec<MIRExpression> = Vec::new();
    let mut k: usize = 0;
    assert(slots@.take(0) =~= Seq::<usize>::empty());
    assert(exprs_view(out@) =~= Seq::<ExprV>::empty());
    while k < slots.len()
        invariant
            k <= slots@.len(),
            elems_inner(st@, slots@.take(k as int), depth as nat) == Some(exprs_view(out@)),
        decreases slots@.len() - k,
    {
        assert(slots@.take(k as int + 1).drop_last() =~= slots@.take(k as int));
        proof {
            lemma_elems_none(st@, slots@, depth as nat, k as int + 1);
        }
        let v = match read_filled_exec(st, slots[k]) {
            Err(_) => {
                return None;
            },
            Ok(v) => v,
        };
        let i = match value_inner_exec(st, v, depth) {
            Some(i) => i,
            None => {
                return None;
            },
        };
        let e = MIRExpression { inner: i, ty: None, span: Span::empty() };
        proof {
            lemma_exprs_view_push(out@, e);
        }
        out.push(e);
        k = k + 1;
    }
    assert(slots@.take(k as int) =~= slots@);
    Some(out)
}

/// Once a prefix of the slots cannot be written back, neither can all.
proof fn lemma_elems_none(st: StoreV, slots: Seq<usize>, depth: nat, k: int)
    requires
        0 <= k <= slots.len(),
    ensures
        elems_inner(st, slots.take(k), depth) is None ==> elems_inner(st, slots, depth) is None,
    decreases slots.len() - k,
{
    if k < slots.len() {
        assert(slots.take(k + 1).drop_last() =~= slots.take(k));
        lemma_elems_none(st, slots, depth, k + 1);
    } else {
        assert(slots.take(k) =~= slots);
    }
}

/// The values written back for constants `0..k` and then statics `0..j`,
/// from one store, in that order: for each, the literal its evaluation
/// gives, or none when it fails or cannot be written back.
pub open spec fn consts_written(p: MIRProgram, st: StoreV, k: nat, fuel: nat) -> (Seq<Option<InnerV>>, StoreV)
    decreases k,
{
    if k == 0 {
        (Seq::empty(), st)
    } else {
        let (pre, s1) = consts_written(p, st, (k - 1) as nat, fuel);
        let (r, s2) = const_spec(p, s1, (k - 1) as usize, fuel);
        (
            pre.push(
                match r {
                    Ok(v) => value_inner(s2, v, fuel),
                    Err(_) => None,
                },
            ),
            s2,
        )
    }
}

pub open spec fn statics_written(p: MIRProgram, st: StoreV, j: nat, fuel: nat) -> (Seq<Option<InnerV>>, StoreV)
    decreases j,
{
    if j == 0 {
        (Seq::empty(), st)
    } else {
        let (pre, s1) = statics_written(p, st, (j - 1) as nat, fuel);
        let (r, s2) = static_slot_spec(p, s1, (j - 1) as usize, fuel);
        (
            pre.push(
                match r {
                    Ok(slot) => match read_filled(s2, slot) {
                        Ok(v) => value_inner(s2, v, fuel),
                        Err(_) => None,
                    },
                    Err(_) => None,
                },
            ),
            s2,
        )
    }
}

/// An expression with its inner part replaced, when there is a new one.
pub open spec fn written_back(e: ExprV, w: Option<InnerV>) -> ExprV {
    match w {
        Some(i) => ExprV { inner: i, ..e },
        None => e,
    }
}

/// Evaluates every constant, then every static, each with `fuel`, and
/// writes the values back as literals (see [`consts_written`] and
/// [`statics_written`]); one that cannot be evaluated or written back is
/// left as it is. Always succeeds.
pub fn const_eval(program: &mut MIRProgram, fuel: usize) -> (res: bool)
    ensures
        res,
        final(program).constants@.len() == old(program).constants@.len(),
        final(program).statics@.len() == old(program).statics@.len(),
        forall|i: int| 0 <= i < old(program).constants@.len() ==> {
            let c = #[trigger] old(program).constants@[i];
            let d = final(program).constants@[i];
            &&& d == (super::MIRConstant { value: d.value, ..c })
            &&& d.value@ == written_back(c.value@, consts_written(*old(program), empty_store(), old(program).constants@.len() as nat, fuel as nat).0[i])
        },
        forall|i: int| 0 <= i < old(program).statics@.len() ==> {
            let c = #[trigger] old(program).statics@[i];
            let d = final(program).statics@[i];
            &&& d == (super::MIRStatic { value: d.value, ..c })
            &&& d.value@ == written_back(
                c.value@,
                statics_written(
                    *old(program),
                    consts_written(*old(program), empty_store(), old(program).constants@.len() as nat, fuel as nat).1,
                    old(program).statics@.len() as nat,
                    fuel as nat,
                ).0[i],
            )
        },
        *final(program) == (MIRProgram { constants: final(program).constants, statics: final(program).statics, ..*old(program) }),
{
    let ghost p0 = *program;
    let mut st = EvalStore::new();
    let mut cw: Vec<Option<MIRExpressionInner>> = Vec::new();
    let nc = program.constants.len();
    let mut k: usize = 0;
    while k < nc
        invariant
            nc == p0.constants@.len(),
            *program == p0,
            k <= nc,
            cw@.len() == k,
            consts_written(p0, empty_store(), k as nat, fuel as nat).1 == st@,
            forall|i: int| 0 <= i < k ==> opt_inner_view(#[trigger] cw@[i]) == consts_written(p0, empty_store(), k as nat, fuel as nat).0[i],
        decreases nc - k,
    {
        proof {
            lemma_written_prefix(p0, k as nat, fuel as nat);
        }
        let r = eval_const(program, &mut st, k, fuel);
        let w = match r {
            Ok(v) => value_inner_exec(&st, v, fuel),
            Err(_) => None,
        };
        cw.push(w);
        k = k + 1;
    }
    let mut sw: Vec<Option<MIRExpressionInner>> = Vec::new();
    let ghost s0 = st@;
    let ns = program.statics.len();
    let mut j: usize = 0;
    while j < ns
        invariant
            ns == p0.statics@.len(),
            *program == p0,
            j <= ns,
            sw@.len() == j,
            statics_written(p0, s0, j as nat, fuel as nat).1 == st@,
            forall|i: int| 0 <= i < j ==> opt_inner_view(#[trigger] sw@[i]) == statics_written(p0, s0, j as nat, fuel as nat).0[i],
        decreases ns - j,
    {
        proof {
            lemma_statics_written_prefix(p0, s0, j as nat, fuel as nat);
        }
        let r = static_slot_exec(program, &mut st, j, fuel);
        let w = match r {
            Ok(slot) => match read_filled_exec(&st, slot) {
                Ok(v) => value_inner_exec(&st, v, fuel),
                Err(_) => None,
            },
            Err(_) => None,
        };
        sw.push(w);
        j = j + 1;
    }
    let mut i: usize = 0;
    while i < nc
        invariant
            nc == p0.constants@.len(),
            cw@.len() == nc,
            i <= nc,
            program.constants@.len() == nc,
            forall|m: int| 0 <= m < nc ==> opt_inner_view(#[trigger] cw@[m]) == consts_written(p0, empty_store(), nc as nat, fuel as nat).0[m],
            forall|m: int| 0 <= m < nc ==> {
                let c = #[trigger] p0.constants@[m];
                let d = program.constants@[m];
                &&& d == (super::MIRConstant { value: d.value, ..c })
                &&& d.value@ == if m < i { written_back(c.value@, opt_inner_view(cw@[m])) } else { c.value@ }
            },
            *program == (MIRProgram { constants: program.constants, ..p0 }),
        decreases nc - i,
    {
        match &cw[i] {
            Some(x) => {
                let x2 = super::inline::copy_inner(x);
                let mut c = program.constants.remove(i);
                c.value.inner = x2;
                program.constants.insert(i, c);
            },
            None => {},
        }
        i = i + 1;
    }
    assert forall|m: int| 0 <= m < nc implies #[trigger] program.constants@[m].value@ == written_back(
        p0.constants@[m].value@,
        consts_written(p0, empty_store(), nc as nat, fuel as nat).0[m],
    ) by {
        assert(opt_inner_view(cw@[m]) == consts_written(p0, empty_store(), nc as nat, fuel as nat).0[m]);
    }
    let ghost cs_final = program.constants@;
    let mut i: usize = 0;
    while i < ns
        invariant
            program.constants@ == cs_final,
            cs_final.len() == nc,
            nc == p0.constants@.len(),
            forall|m: int| 0 <= m < nc ==> {
                let c = #[trigger] p0.constants@[m];
                let d = cs_final[m];
                &&& d == (super::MIRConstant { value: d.value, ..c })
                &&& d.value@ == written_back(c.value@, consts_written(p0, empty_store(), nc as nat, fuel as nat).0[m])
            },
            ns == p0.statics@.len(),
            sw@.len() == ns,
            i <= ns,
            program.statics@.len() == ns,
            forall|m: int| 0 <= m < ns ==> opt_inner_view(#[trigger] sw@[m]) == statics_written(p0, s0, ns as nat, fuel as nat).0[m],
            forall|m: int| 0 <= m < ns ==> {
                let c = #[trigger] p0.statics@[m];
                let d = program.statics@[m];
                &&& d == (super::MIRStatic { value: d.value, ..c })
                &&& d.value@ == if m < i { written_back(c.value@, opt_inner_view(sw@[m])) } else { c.value@ }
            },
            *program == (MIRProgram { constants: program.constants, statics: program.statics, ..p0 }),
        decreases ns - i,
    {
        match &sw[i] {
            Some(x) => {
                let x2 = super::inline::copy_inner(x);
                let mut c = program.statics.remove(i);
                c.value.inner = x2;
                program.statics.insert(i, c);
            },
            None => {},
        }
        i = i + 1;
    }
    true
}

/// The model of an optional inner part.
pub open spec fn opt_inner_view(o: Option<MIRExpressionInner>) -> Option<InnerV> {
    match o {
        Some(x) => Some(x@),
        None => None,
    }
}

proof fn lemma_written_prefix(p: MIRProgram, k: nat, fuel: nat)
    ensures
        consts_written(p, empty_store(), k + 1, fuel).0.len() == k + 1,
        forall|i: int| 0 <= i < k ==> #[trigger] consts_written(p, empty_store(), k + 1, fuel).0[i] == consts_written(p, empty_store(), k, fuel).0[i],
    decreases k,
{
    lemma_written_len(p, k, fuel);
}

proof fn lemma_written_len(p: MIRProgram, k: nat, fuel: nat)
    ensures
        consts_written(p, empty_store(), k, fuel).0.len() == k,
    decreases k,
{
    if k > 0 {
        lemma_written_len(p, (k - 1) as nat, fuel);
    }
}

proof fn lemma_statics_written_prefix(p: MIRProgram, s0: StoreV, j: nat, fuel: nat)
    ensures
        statics_written(p, s0, j + 1, fuel).0.len() == j + 1,
        forall|i: int| 0 <= i < j ==> #[trigger] statics_written(p, s0, j + 1, fuel).0[i] == statics_written(p, s0, j, fuel).0[i],
    decreases j,
{
    lemma_statics_written_len(p, s0, j, fuel);
}

proof fn lemma_statics_written_len(p: MIRProgram, s0: StoreV, j: nat, fuel: nat)
    ensures
        statics_written(p, s0, j, fuel).0.len() == j,
    decreases j,
{
    if j > 0 {
        lemma_statics_written_len(p, s0, (j - 1) as nat, fuel);
    }
}

// ---------------------------------------------------------------------------
// Laws of the operators
// ---------------------------------------------------------------------------

/// The result of an `i32` operation on integers: the value where it fits
/// in `i32`, an overflow error where it does not.
pub open spec fn i32_result(x: int) -> Result<InterpValue, EvalError> {
    if i32::MIN <= x <= i32::MAX {
        Ok(InterpValue::I32(x as i32))
    } else {
        Err(EvalError::Overflow)
    }
}

/// The result of a `u32` operation on integers: the value where it fits
/// in `u32`, an overflow error where it does not.
pub open spec fn u32_result(x: int) -> Result<InterpValue, EvalError> {
    if 0 <= x <= u32::MAX {
        Ok(InterpValue::U32(x as u32))
    } else {
        Err(EvalError::Overflow)
    }
}

/// An operator node over two operands, with the type and span of `e`.
pub open spec fn bin_node(e: MIRExpression, k: BinKind, l: MIRExpression, r: MIRExpression) -> MIRExpression {
    let (bl, br) = (Box::new(l), Box::new(r));
    MIRExpression {
        inner: match k {
            BinKind::Add => MIRExpressionInner::Add(bl, br),
            BinKind::Sub => MIRExpressionInner::Sub(bl, br),
            BinKind::Mul => MIRExpressionInner::Mul(bl, br),
            BinKind::Div => MIRExpressionInner::Div(bl, br),
            BinKind::Equal => MIRExpressionInner::Equal(bl, br),
            BinKind::NotEqual => MIRExpressionInner::NotEqual(bl, br),
            BinKind::Greater => MIRExpressionInner::Greater(bl, br),
            BinKind::Less => MIRExpressionInner::Less(bl, br),
            BinKind::GreaterEq => MIRExpressionInner::GreaterEq(bl, br),
            BinKind::LessEq => MIRExpressionInner::LessEq(bl, br),
            BinKind::And => MIRExpressionInner::BoolAnd(bl, br),
            BinKind::Or => MIRExpressionInner::BoolOr(bl, br),
        },
        ..e
    }
}

proof fn lemma_eval_bin_node(
    p: MIRProgram,
    st: StoreV,
    sc: ScopeV,
    e: MIRExpression,
    k: BinKind,
    l: MIRExpression,
    r: MIRExpression,
    place: bool,
    fuel: nat,
)
    ensures
        eval_spec(p, st, sc, bin_node(e, k, l, r), place, fuel + 1) == eval_bin(p, st, sc, k, l, r, place, fuel),
{
    assert(eval_spec(p, st, sc, bin_node(e, k, l, r), place, fuel + 1) == eval_step(
        p,
        st,
        sc,
        bin_node(e, k, l, r),
        place,
        fuel + 1,
    ));
}

/// An operator on two `i32` operands, the left one evaluated first: `+`,
/// `-` and `*` give the sum, the difference and the product where it fits
/// in `i32` and an overflow error where it does not; `/` by zero is a
/// division-by-zero error, and otherwise gives the quotient rounded toward
/// zero; the comparisons give the truth of the comparison of the two
/// numbers. The store is left as the operands left it.
pub proof fn lemma_eval_i32_operators(
    p: MIRProgram,
    st: StoreV,
    sc: ScopeV,
    e: MIRExpression,
    l: MIRExpression,
    r: MIRExpression,
    place: bool,
    fuel: nat,
    a: i32,
    b: i32,
    s1: StoreV,
    s2: StoreV,
)
    requires
        eval_spec(p, st, sc, l, place, fuel) == (Ok::<InterpValue, EvalError>(InterpValue::I32(a)), s1),
        eval_spec(p, s1, sc, r, place, fuel) == (Ok::<InterpValue, EvalError>(InterpValue::I32(b)), s2),
    ensures
        eval_spec(p, st, sc, bin_node(e, BinKind::Add, l, r), place, fuel + 1) == (i32_result(a + b), s2),
        eval_spec(p, st, sc, bin_node(e, BinKind::Sub, l, r), place, fuel + 1) == (i32_result(a - b), s2),
        eval_spec(p, st, sc, bin_node(e, BinKind::Mul, l, r), place, fuel + 1) == (i32_result(a * b), s2),
        b == 0 ==> eval_spec(p, st, sc, bin_node(e, BinKind::Div, l, r), place, fuel + 1) == (
            Err::<InterpValue, EvalError>(EvalError::DivisionByZero),
            s2,
        ),
        0 <= a && 0 < b ==> eval_spec(p, st, sc, bin_node(e, BinKind::Div, l, r), place, fuel + 1) == (
            i32_result(a as int / b as int),
            s2,
        ),
        eval_spec(p, st, sc, bin_node(e, BinKind::Greater, l, r), place, fuel + 1) == (
            Ok::<InterpValue, EvalError>(InterpValue::Bool(a > b)),
            s2,
        ),
        eval_spec(p, st, sc, bin_node(e, BinKind::Less, l, r), place, fuel + 1) == (
            Ok::<InterpValue, EvalError>(InterpValue::Bool(a < b)),
            s2,
        ),
        eval_spec(p, st, sc, bin_node(e, BinKind::GreaterEq, l, r), place, fuel + 1) == (
            Ok::<InterpValue, EvalError>(InterpValue::Bool(a >= b)),
            s2,
        ),
        eval_spec(p, st, sc, bin_node(e, BinKind::LessEq, l, r), place, fuel + 1) == (
            Ok::<InterpValue, EvalError>(InterpValue::Bool(a <= b)),
            s2,
        ),
        eval_spec(p, st, sc, bin_node(e, BinKind::Equal, l, r), place, fuel + 1) == (
            Ok::<InterpValue, EvalError>(InterpValue::Bool(a == b)),
            s2,
        ),
        eval_spec(p, st, sc, bin_node(e, BinKind::NotEqual, l, r), place, fuel + 1) == (
            Ok::<InterpValue, EvalError>(InterpValue::Bool(a != b)),
            s2,
        ),
{
    lemma_eval_bin_node(p, st, sc, e, BinKind::Add, l, r, place, fuel);
    lemma_eval_bin_node(p, st, sc, e, BinKind::Sub, l, r, place, fuel);
    lemma_eval_bin_node(p, st, sc, e, BinKind::Mul, l, r, place, fuel);
    lemma_eval_bin_node(p, st, sc, e, BinKind::Div, l, r, place, fuel);
    lemma_eval_bin_node(p, st, sc, e, BinKind::Equal, l, r, place, fuel);
    lemma_eval_bin_node(p, st, sc, e, BinKind::NotEqual, l, r, place, fuel);
    lemma_eval_bin_node(p, st, sc, e, BinKind::Greater, l, r, place, fuel);
    lemma_eval_bin_node(p, st, sc, e, BinKind::Less, l, r, place, fuel);
    lemma_eval_bin_node(p, st, sc, e, BinKind::GreaterEq, l, r, place, fuel);
    lemma_eval_bin_node(p, st, sc, e, BinKind::LessEq, l, r, place, fuel);
    lemma_eval_bin_node(p, st, sc, e, BinKind::And, l, r, place, fuel);
    lemma_eval_bin_node(p, st, sc, e, BinKind::Or, l, r, place, fuel);
}

/// An operator on two `u32` operands, the left one evaluated first: `+`,
/// `-` and `*` give the sum, the difference and the product where it fits
/// in `u32` and an overflow error where it does not (so `a - b` fails for
/// `a < b`); `/` by zero is a division-by-zero error and otherwise gives
/// the quotient; the comparisons give the truth of the comparison.
pub proof fn lemma_eval_u32_operators(
    p: MIRProgram,
    st: StoreV,
    sc: ScopeV,
    e: MIRExpression,
    l: MIRExpression,
    r: MIRExpression,
    place: bool,
    fuel: nat,
    a: u32,
    b: u32,
    s1: StoreV,
    s2: StoreV,
)
    requires
        eval_spec(p, st, sc, l, place, fuel) == (Ok::<InterpValue, EvalError>(InterpValue::U32(a)), s1),
        eval_spec(p, s1, sc, r, place, fuel) == (Ok::<InterpValue, EvalError>(InterpValue::U32(b)), s2),
    ensures
        eval_spec(p, st, sc, bin_node(e, BinKind::Add, l, r), place, fuel + 1) == (u32_result(a + b), s2),
        eval_spec(p, st, sc, bin_node(e, BinKind::Sub, l, r), place, fuel + 1) == (u32_result(a - b), s2),
        eval_spec(p, st, sc, bin_node(e, BinKind::Mul, l, r), place, fuel + 1) == (u32_result(a * b), s2),
        b == 0 ==> eval_spec(p, st, sc, bin_node(e, BinKind::Div, l, r), place, fuel + 1) == (
            Err::<InterpValue, EvalError>(EvalError::DivisionByZero),
            s2,
        ),
        b != 0 ==> eval_spec(p, st, sc, bin_node(e, BinKind::Div, l, r), place, fuel + 1) == (
            u32_result(a as int / b as int),
            s2,
        ),
        eval_spec(p, st, sc, bin_node(e, BinKind::Greater, l, r), place, fuel + 1) == (
            Ok::<InterpValue, EvalError>(InterpValue::Bool(a > b)),
            s2,
        ),
        eval_spec(p, st, sc, bin_node(e, BinKind::Less, l, r), place, fuel + 1) == (
            Ok::<InterpValue, EvalError>(InterpValue::Bool(a < b)),
            s2,
        ),
        eval_spec(p, st, sc, bin_node(e, BinKind::Equal, l, r), place, fuel + 1) == (
            Ok::<InterpValue, EvalError>(InterpValue::Bool(a == b)),
            s2,
        ),
{
    lemma_eval_bin_node(p, st, sc, e, BinKind::Add, l, r, place, fuel);
    lemma_eval_bin_node(p, st, sc, e, BinKind::Sub, l, r, place, fuel);
    lemma_eval_bin_node(p, st, sc, e, BinKind::Mul, l, r, place, fuel);
    lemma_eval_bin_node(p, st, sc, e, BinKind::Div, l, r, place, fuel);
    lemma_eval_bin_node(p, st, sc, e, BinKind::Equal, l, r, place, fuel);
    lemma_eval_bin_node(p, st, sc, e, BinKind::NotEqual, l, r, place, fuel);
    lemma_eval_bin_node(p, st, sc, e, BinKind::Greater, l, r, place, fuel);
    lemma_eval_bin_node(p, st, sc, e, BinKind::Less, l, r, place, fuel);
    lemma_eval_bin_node(p, st, sc, e, BinKind::GreaterEq, l, r, place, fuel);
    lemma_eval_bin_node(p, st, sc, e, BinKind::LessEq, l, r, place, fuel);
    lemma_eval_bin_node(p, st, sc, e, BinKind::And, l, r, place, fuel);
    lemma_eval_bin_node(p, st, sc, e, BinKind::Or, l, r, place, fuel);
}

/// `&&` and `||` on two boolean operands give the conjunction and the
/// disjunction; `>` and `<` order `false` before `true`.
pub proof fn lemma_eval_bool_operators(
    p: MIRProgram,
    st: StoreV,
    sc: ScopeV,
    e: MIRExpression,
    l: MIRExpression,
    r: MIRExpression,
    place: bool,
    fuel: nat,
    a: bool,
    b: bool,
    s1: StoreV,
    s2: StoreV,
)
    requires
        eval_spec(p, st, sc, l, place, fuel) == (Ok::<InterpValue, EvalError>(InterpValue::Bool(a)), s1),
        eval_spec(p, s1, sc, r, place, fuel) == (Ok::<InterpValue, EvalError>(InterpValue::Bool(b)), s2),
    ensures
        eval_spec(p, st, sc, bin_node(e, BinKind::And, l, r), place, fuel + 1) == (
            Ok::<InterpValue, EvalError>(InterpValue::Bool(a && b)),
            s2,
        ),
        eval_spec(p, st, sc, bin_node(e, BinKind::Or, l, r), place, fuel + 1) == (
            Ok::<InterpValue, EvalError>(InterpValue::Bool(a || b)),
            s2,
        ),
        eval_spec(p, st, sc, bin_node(e, BinKind::Greater, l, r), place, fuel + 1) == (
            Ok::<InterpValue, EvalError>(InterpValue::Bool(a && !b)),
            s2,
        ),
        eval_spec(p, st, sc, bin_node(e, BinKind::Less, l, r), place, fuel + 1) == (
            Ok::<InterpValue, EvalError>(InterpValue::Bool(!a && b)),
            s2,
        ),
{
    lemma_eval_bin_node(p, st, sc, e, BinKind::Add, l, r, place, fuel);
    lemma_eval_bin_node(p, st, sc, e, BinKind::Sub, l, r, place, fuel);
    lemma_eval_bin_node(p, st, sc, e, BinKind::Mul, l, r, place, fuel);
    lemma_eval_bin_node(p, st, sc, e, BinKind::Div, l, r, place, fuel);
    lemma_eval_bin_node(p, st, sc, e, BinKind::Equal, l, r, place, fuel);
    lemma_eval_bin_node(p, st, sc, e, BinKind::NotEqual, l, r, place, fuel);
    lemma_eval_bin_node(p, st, sc, e, BinKind::Greater, l, r, place, fuel);
    lemma_eval_bin_node(p, st, sc, e, BinKind::Less, l, r, place, fuel);
    lemma_eval_bin_node(p, st, sc, e, BinKind::GreaterEq, l, r, place, fuel);
    lemma_eval_bin_node(p, st, sc, e, BinKind::LessEq, l, r, place, fuel);
    lemma_eval_bin_node(p, st, sc, e, BinKind::And, l, r, place, fuel);
    lemma_eval_bin_node(p, st, sc, e, BinKind::Or, l, r, place, fuel);
}

} // verus!
