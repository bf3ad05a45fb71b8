//! Adding declarations to a program, refusing names already in use.

use super::overloads::{first_conflict_in, without_key};
use super::type_check::{
    copy_args, find_const, find_overloads, find_static, first_index_of, lemma_first_index_found,
    names_of, overload_lists, overload_lists_names, typed_consts, typed_statics,
};
use super::{
    FunctionOverloads, MIRConstKey, MIRDeclaration, MIRDeclarationKey, MIRFunction, MIRFunctionArgs,
    MIRFunctionKey, MIRFunctionType, MIRProgram, MIRStaticKey,
};
use super::view::ArgsV;
use crate::parser::span::Span;
use vstd::prelude::*;

verus! {

/// A declaration refused because its name is already in use.
#[derive(Debug)]
pub struct DuplicateName {
    /// The name declared twice.
    pub name: String,
    /// Where the item already using the name was defined.
    pub previous: Span,
    /// Where the refused declaration stands.
    pub redeclared: Span,
}

/// The position of the overload list of `name`, if any.
pub open spec fn overloads_index(p: MIRProgram, name: Seq<char>) -> Option<int> {
    first_index_of(overload_lists_names(overload_lists(p.function_names@)), name)
}

/// Where the item that already uses `name` was defined, if one does: a
/// static, else a constant, else, for a function (with its argument types
/// `args`), an overload whose signature conflicts with it, or, for another
/// declaration, any function of that name.
pub open spec fn previous_definition(p: MIRProgram, name: Seq<char>, args: Option<MIRFunctionArgs>) -> Option<
    Span,
> {
    match first_index_of(names_of(typed_statics(p.statics@)), name) {
        Some(i) => Some(p.statics@[i].span),
        None => match first_index_of(names_of(typed_consts(p.constants@)), name) {
            Some(i) => Some(p.constants@[i].span),
            None => match overloads_index(p, name) {
                None => None,
                Some(j) => {
                    let ov = p.function_names@[j].1@;
                    match args {
                        Some(a) => match first_conflict_in(ov, a) {
                            Some(k) => Some(p.functions@[k.0 as int].span),
                            None => None,
                        },
                        None => if ov.len() > 0 {
                            Some(p.functions@[ov[0].1.0 as int].span)
                        } else {
                            None
                        },
                    }
                },
            },
        },
    }
}

proof fn lemma_first_conflict_member(s: Seq<(MIRFunctionArgs, MIRFunctionKey)>, a: MIRFunctionArgs)
    ensures
        first_conflict_in(s, a) matches Some(k) ==> exists|j: int| 0 <= j < s.len() && #[trigger] s[j].1 == k,
    decreases s.len(),
{
    if s.len() > 0 {
        lemma_first_conflict_member(s.drop_first(), a);
        if first_conflict_in(s, a) is Some && first_conflict_in(s, a) != Some(s[0].1) {
            let k = first_conflict_in(s.drop_first(), a)->0;
            let j = choose|j: int| 0 <= j < s.drop_first().len() && #[trigger] s.drop_first()[j].1 == k;
            assert(s[j + 1].1 == k);
        }
    }
}

impl MIRProgram {
    /// Where the item already using `name` was defined, if one does (see
    /// [`previous_definition`]).
    pub fn find_duplicate(&self, name: &String, args: Option<&MIRFunctionArgs>) -> (res: Option<Span>)
        requires
            self.wf(),
        ensures
            res == previous_definition(*self, name@, match args {
                Some(a) => Some(*a),
                None => None,
            }),
    {
        match find_static(&self.statics, name) {
            Some(i) => return Some(self.statics[i].span.clone()),
            None => {},
        }
        match find_const(&self.constants, name) {
            Some(i) => return Some(self.constants[i].span.clone()),
            None => {},
        }
        proof {
            lemma_first_index_found(overload_lists_names(overload_lists(self.function_names@)), name@);
        }
        match find_overloads(&self.function_names, name) {
            None => None,
            Some(j) => {
                let ov = &self.function_names[j].1;
                match args {
                    Some(a) => match ov.find_conflict(a) {
                        Some(k) => {
                            proof {
                                lemma_first_conflict_member(ov@, *a);
                            }
                            Some(self.functions[k.0].span.clone())
                        },
                        None => None,
                    },
                    None => {
                        let keys = ov.keys();
                        if keys.len() > 0 {
                            assert(keys@[0] == ov@[0].1);
                            Some(self.functions[keys[0].0].span.clone())
                        } else {
                            None
                        }
                    },
                }
            },
        }
    }

    /// Adds a declaration to the output, unless it is an extern function
    /// (those exist in the target already).
    pub fn push_decl(&mut self, decl: MIRDeclarationKey)
        ensures
            final(self).decls@ == if decl matches MIRDeclarationKey::Function(k) && k.0
                < old(self).functions@.len() && old(self).functions@[k.0 as int].fn_type
                == MIRFunctionType::Extern {
                old(self).decls@
            } else {
                old(self).decls@.push(decl)
            },
            *final(self) == (MIRProgram { decls: final(self).decls, ..*old(self) }),
    {
        let is_extern = match decl {
            MIRDeclarationKey::Function(k) => k.0 < self.functions.len() && match self.functions[k.0].fn_type {
                MIRFunctionType::Extern => true,
                _ => false,
            },
            _ => false,
        };
        if !is_extern {
            self.decls.push(decl);
        }
    }
}


/// The name, argument types (for a function) and span of a declaration;
/// a marker has no name in the program's namespace.
pub open spec fn decl_identity(d: MIRDeclaration) -> Option<(Seq<char>, Option<MIRFunctionArgs>, Span)> {
    match d {
        MIRDeclaration::Constant(c) => Some((c.name@, None, c.span)),
        MIRDeclaration::Static(s) => Some((s.name@, None, s.span)),
        MIRDeclaration::Function(f) => Some((f.name@, Some(f.args_ty), f.span)),
        MIRDeclaration::Marker(_) => None,
    }
}

/// The models of the signatures of an overload list, with their keys.
pub open spec fn overload_models(s: Seq<(MIRFunctionArgs, MIRFunctionKey)>) -> Seq<(ArgsV, MIRFunctionKey)> {
    s.map_values(|e: (MIRFunctionArgs, MIRFunctionKey)| (e.0@, e.1))
}

/// The overload lists after adding function `key` with argument types
/// `args` under `name`: to the list of that name, or as a new list at the
/// end.
pub open spec fn with_overload(
    old_names: Seq<(String, FunctionOverloads)>,
    new_names: Seq<(String, FunctionOverloads)>,
    name: Seq<char>,
    args: ArgsV,
    key: MIRFunctionKey,
) -> bool {
    match first_index_of(overload_lists_names(overload_lists(old_names)), name) {
        Some(j) => {
            &&& new_names.len() == old_names.len()
            &&& forall|i: int|
                0 <= i < old_names.len() ==> (#[trigger] new_names[i]).0 == old_names[i].0 && overload_models(
                    new_names[i].1@,
                ) == if i == j {
                    overload_models(old_names[i].1@).push((args, key))
                } else {
                    overload_models(old_names[i].1@)
                }
        },
        None => {
            &&& new_names.len() == old_names.len() + 1
            &&& forall|i: int|
                0 <= i < old_names.len() ==> (#[trigger] new_names[i]).0 == old_names[i].0 && new_names[i].1@
                    == old_names[i].1@
            &&& new_names[old_names.len() as int].0@ == name
            &&& overload_models(new_names[old_names.len() as int].1@) == seq![(args, key)]
        },
    }
}

/// `new` is `old` with the item of `d` added under the key `key`: at the
/// end of its list, and for a function, also among the overloads of its
/// name (see [`with_overload`]); nothing else changes.
pub open spec fn registered(old: MIRProgram, new: MIRProgram, d: MIRDeclaration, key: MIRDeclarationKey) -> bool {
    match d {
        MIRDeclaration::Constant(c) => {
            &&& key == MIRDeclarationKey::Constant(MIRConstKey(old.constants@.len() as usize))
            &&& new.constants@ == old.constants@.push(c)
            &&& new == (MIRProgram { constants: new.constants, ..old })
        },
        MIRDeclaration::Static(st) => {
            &&& key == MIRDeclarationKey::Static(MIRStaticKey(old.statics@.len() as usize))
            &&& new.statics@ == old.statics@.push(st)
            &&& new == (MIRProgram { statics: new.statics, ..old })
        },
        MIRDeclaration::Function(f) => {
            let k = MIRFunctionKey(old.functions@.len() as usize);
            &&& key == MIRDeclarationKey::Function(k)
            &&& new.functions@ == old.functions@.push(f)
            &&& with_overload(old.function_names@, new.function_names@, f.name@, f.args_ty@, k)
            &&& new == (MIRProgram {
                functions: new.functions,
                function_names: new.function_names,
                ..old
            })
        },
        MIRDeclaration::Marker(m) => {
            &&& key == MIRDeclarationKey::Marker(super::MIRMarkerKey(old.markers@.len() as usize))
            &&& new.markers@ == old.markers@.push(m)
            &&& new == (MIRProgram { markers: new.markers, ..old })
        },
    }
}

impl MIRProgram {
    /// Adds a declaration's item to the program (not to the output: see
    /// [`MIRProgram::push_decl`]) and returns its key, or refuses it when its
    /// name is already in use (see [`previous_definition`]), leaving the
    /// program unchanged.
    pub fn register(&mut self, decl: MIRDeclaration) -> (res: Result<MIRDeclarationKey, DuplicateName>)
        requires
            old(self).wf(),
        ensures
            match decl_identity(decl) {
                Some((name, args, span)) => match previous_definition(*old(self), name, args) {
                    Some(prev) => {
                        &&& res matches Err(e) && e.name@ == name && e.previous == prev
                            && e.redeclared == span
                        &&& *final(self) == *old(self)
                    },
                    None => res is Ok,
                },
                None => res is Ok,
            },
            res matches Ok(key) ==> registered(*old(self), *final(self), decl, key),
    {
        let dup = match &decl {
            MIRDeclaration::Constant(c) => self.find_duplicate(&c.name, None),
            MIRDeclaration::Static(s) => self.find_duplicate(&s.name, None),
            MIRDeclaration::Function(f) => self.find_duplicate(&f.name, Some(&f.args_ty)),
            MIRDeclaration::Marker(_) => None,
        };
        match dup {
            Some(previous) => {
                let (name, redeclared) = match decl {
                    MIRDeclaration::Constant(c) => (c.name, c.span),
                    MIRDeclaration::Static(s) => (s.name, s.span),
                    MIRDeclaration::Function(f) => (f.name, f.span),
                    MIRDeclaration::Marker(m) => (m.name, m.span),
                };
                return Err(DuplicateName { name, previous, redeclared });
            },
            None => {},
        }
        match decl {
            MIRDeclaration::Constant(c) => {
                let key = self.constants.len();
                self.constants.push(c);
                Ok(MIRDeclarationKey::Constant(MIRConstKey(key)))
            },
            MIRDeclaration::Static(s) => {
                let key = self.statics.len();
                self.statics.push(s);
                Ok(MIRDeclarationKey::Static(MIRStaticKey(key)))
            },
            MIRDeclaration::Marker(m) => {
                let key = self.markers.len();
                self.markers.push(m);
                Ok(MIRDeclarationKey::Marker(super::MIRMarkerKey(key)))
            },
            MIRDeclaration::Function(f) => {
                let key = MIRFunctionKey(self.functions.len());
                let args = copy_args(&f.args_ty);
                let ghost fa = f.args_ty@;
                let name = f.name.clone();
                self.functions.push(f);
                let ghost old_names = self.function_names@;
                match find_overloads(&self.function_names, &name) {
                    Some(j) => {
                        let (n, mut ov) = self.function_names.remove(j);
                        ov.push(args, key);
                        self.function_names.insert(j, (n, ov));
                        proof {
                            assert forall|i: int| 0 <= i < old_names.len() implies (
                            #[trigger] self.function_names@[i]).0 == old_names[i].0 && overload_models(
                                self.function_names@[i].1@,
                            ) == if i == j {
                                overload_models(old_names[i].1@).push((fa, key))
                            } else {
                                overload_models(old_names[i].1@)
                            } by {
                                if i == j {
                                    assert(overload_models(self.function_names@[i].1@) =~= overload_models(
                                        old_names[i].1@,
                                    ).push((fa, key)));
                                }
                            }
                        }
                    },
                    None => {
                        let mut ov = FunctionOverloads::new();
                        ov.push(args, key);
                        self.function_names.push((name, ov));
                        assert(overload_models(self.function_names@[old_names.len() as int].1@)
                            =~= seq![(fa, key)]);
                    },
                }
                Ok(MIRDeclarationKey::Function(key))
            },
        }
    }
}


// ---------------------------------------------------------------------------
// Unique names
// ---------------------------------------------------------------------------

/// The names of the statics, then of the constants.
pub open spec fn value_names(p: MIRProgram) -> Seq<Seq<char>> {
    names_of(typed_statics(p.statics@)) + names_of(typed_consts(p.constants@))
}

/// The names that have overload lists.
pub open spec fn function_list_names(p: MIRProgram) -> Seq<Seq<char>> {
    overload_lists_names(overload_lists(p.function_names@))
}

/// No two statics or constants share a name, no two overload lists do, and
/// no function with an overload shares its name with a static or constant.
pub open spec fn names_unique(p: MIRProgram) -> bool {
    &&& value_names(p).no_duplicates()
    &&& function_list_names(p).no_duplicates()
    &&& forall|i: int|
        0 <= i < function_list_names(p).len() && p.function_names@[i].1@.len() > 0
            ==> !value_names(p).contains(#[trigger] function_list_names(p)[i])
}

proof fn lemma_first_index_absent(names: Seq<Seq<char>>, name: Seq<char>)
    ensures
        first_index_of(names, name) is None ==> !names.contains(name),
    decreases names.len(),
{
    if names.len() > 0 {
        lemma_first_index_absent(names.drop_first(), name);
        if first_index_of(names, name) is None && names.contains(name) {
            let i = choose|i: int| 0 <= i < names.len() && names[i] == name;
            assert(names.drop_first()[i - 1] == name);
        }
    }
}

proof fn lemma_push_distinct(s: Seq<Seq<char>>, x: Seq<char>)
    requires
        s.no_duplicates(),
        !s.contains(x),
    ensures
        s.push(x).no_duplicates(),
{
    assert forall|i: int, j: int| 0 <= i < j < s.push(x).len() implies s.push(x)[i] != s.push(x)[j] by {
        if j == s.len() {
            assert(s.contains(s[i]));
        }
    }
}

/// Registering a declaration that [`MIRProgram::register`] accepts keeps
/// the names of the program unique (see [`names_unique`]).
pub proof fn lemma_register_keeps_names_unique(
    p: MIRProgram,
    q: MIRProgram,
    d: MIRDeclaration,
    key: MIRDeclarationKey,
)
    requires
        names_unique(p),
        decl_identity(d) matches Some(id) ==> previous_definition(p, id.0, id.1) is None,
        registered(p, q, d, key),
    ensures
        names_unique(q),
{
    let sn = names_of(typed_statics(p.statics@));
    let cn = names_of(typed_consts(p.constants@));
    let fl = function_list_names(p);
    match d {
        MIRDeclaration::Marker(_) => {
            assert(q.function_names == p.function_names);
            assert(q.statics == p.statics && q.constants == p.constants);
            assert(value_names(q) == value_names(p));
            assert(function_list_names(q) == fl);
            assert(value_names(q).no_duplicates());
            assert(function_list_names(q).no_duplicates());
            assert forall|i: int|
                0 <= i < function_list_names(q).len() && q.function_names@[i].1@.len() > 0
                    implies !value_names(q).contains(#[trigger] function_list_names(q)[i]) by {
                assert(function_list_names(p)[i] == function_list_names(q)[i]);
            }
        },
        MIRDeclaration::Function(f) => {
            let name = f.name@;
            lemma_first_index_absent(sn, name);
            lemma_first_index_absent(cn, name);
            assert(!value_names(p).contains(name)) by {
                if value_names(p).contains(name) {
                    let i = choose|i: int| 0 <= i < value_names(p).len() && value_names(p)[i] == name;
                    if i < sn.len() {
                        assert(sn[i] == name);
                    } else {
                        assert(cn[i - sn.len()] == name);
                    }
                }
            }
            assert(value_names(q) == value_names(p));
            lemma_first_index_found(fl, name);
            lemma_first_index_absent(fl, name);
            match first_index_of(fl, name) {
                Some(j) => {
                    assert(function_list_names(q) =~= fl);
                },
                None => {
                    assert(function_list_names(q) =~= fl.push(name));
                    lemma_push_distinct(fl, name);
                },
            }
            let fq = function_list_names(q);
            assert forall|i: int|
                0 <= i < fq.len() && q.function_names@[i].1@.len() > 0 implies !value_names(q).contains(
                #[trigger] fq[i],
            ) by {
                if fq[i] != name && i < fl.len() {
                    assert(fq[i] == fl[i]);
                    assert(overload_models(q.function_names@[i].1@).len() == q.function_names@[i].1@.len());
                    assert(overload_models(p.function_names@[i].1@).len() == p.function_names@[i].1@.len());
                    if first_index_of(fl, name) == Some(i) {
                        assert(fl[i] == name);
                    }
                }
            }
        },
        MIRDeclaration::Constant(c) => {
            let name = c.name@;
            lemma_first_index_absent(sn, name);
            lemma_first_index_absent(cn, name);
            assert(names_of(typed_consts(q.constants@)) =~= cn.push(name));
            assert(value_names(q) =~= value_names(p).push(name));
            assert(!value_names(p).contains(name)) by {
                if value_names(p).contains(name) {
                    let i = choose|i: int| 0 <= i < value_names(p).len() && value_names(p)[i] == name;
                    if i < sn.len() {
                        assert(sn[i] == name);
                    } else {
                        assert(cn[i - sn.len()] == name);
                    }
                }
            }
            lemma_push_distinct(value_names(p), name);
            assert(function_list_names(q) == fl);
            lemma_first_index_found(fl, name);
            assert forall|i: int|
                0 <= i < fl.len() && q.function_names@[i].1@.len() > 0 implies !value_names(q).contains(
                #[trigger] fl[i],
            ) by {
                if fl[i] == name {
                    lemma_first_index_absent(fl, name);
                    assert(fl.contains(name));
                    let j = first_index_of(fl, name)->0;
                    assert(fl[j] == name);
                    assert(i == j);
                }
                if value_names(q).contains(fl[i]) && fl[i] != name {
                    let k = choose|k: int| 0 <= k < value_names(q).len() && value_names(q)[k] == fl[i];
                    assert(value_names(p)[k] == fl[i]);
                }
            }
        },
        MIRDeclaration::Static(st) => {
            let name = st.name@;
            lemma_first_index_absent(sn, name);
            lemma_first_index_absent(cn, name);
            assert(names_of(typed_statics(q.statics@)) =~= sn.push(name));
            assert(!value_names(p).contains(name)) by {
                if value_names(p).contains(name) {
                    let i = choose|i: int| 0 <= i < value_names(p).len() && value_names(p)[i] == name;
                    if i < sn.len() {
                        assert(sn[i] == name);
                    } else {
                        assert(cn[i - sn.len()] == name);
                    }
                }
            }
            let vq = value_names(q);
            assert(vq =~= sn.push(name) + cn);
            assert(vq.no_duplicates()) by {
                assert forall|i: int, j: int| 0 <= i < j < vq.len() implies vq[i] != vq[j] by {
                    let vp = value_names(p);
                    if i < sn.len() && j < sn.len() {
                        assert(vq[i] == vp[i] && vq[j] == vp[j]);
                    } else if i < sn.len() && j == sn.len() {
                        assert(vq[i] == vp[i] && vp.contains(vp[i]));
                    } else if i < sn.len() {
                        assert(vq[i] == vp[i] && vq[j] == vp[j - 1]);
                    } else if i == sn.len() {
                        assert(vq[j] == vp[j - 1] && vp.contains(vp[j - 1]));
                    } else {
                        assert(vq[i] == vp[i - 1] && vq[j] == vp[j - 1]);
                    }
                }
            }
            assert(function_list_names(q) == fl);
            lemma_first_index_found(fl, name);
            assert forall|i: int|
                0 <= i < fl.len() && q.function_names@[i].1@.len() > 0 implies !vq.contains(
                #[trigger] fl[i],
            ) by {
                if fl[i] == name {
                    lemma_first_index_absent(fl, name);
                    assert(fl.contains(name));
                    let j = first_index_of(fl, name)->0;
                    assert(fl[j] == name);
                    assert(i == j);
                }
                if vq.contains(fl[i]) && fl[i] != name {
                    let k = choose|k: int| 0 <= k < vq.len() && vq[k] == fl[i];
                    let vp = value_names(p);
                    if k < sn.len() {
                        assert(vp[k] == fl[i]);
                    } else if k > sn.len() {
                        assert(vp[k - 1] == fl[i]);
                    }
                }
            }
        },
    }
}


// ---------------------------------------------------------------------------
// Renaming
// ---------------------------------------------------------------------------

/// Whether renaming the item of `key` to `name` is refused: a static or
/// constant has the name, or a function list does and the item is not a
/// function, or the item is a function whose signature conflicts with an
/// overload of that name.
pub open spec fn rename_refused(p: MIRProgram, key: MIRDeclarationKey, name: Seq<char>) -> bool {
    ||| names_of(typed_statics(p.statics@)).contains(name)
    ||| names_of(typed_consts(p.constants@)).contains(name)
    ||| (!(key is Function) && function_list_names(p).contains(name))
    ||| (key matches MIRDeclarationKey::Function(k) && overloads_index(p, name) matches Some(j)
        && first_conflict_in(p.function_names@[j].1@, p.functions@[k.0 as int].args_ty) is Some)
}

/// The overload lists after moving function `key` (with argument models
/// `args`) from the list of `from` to the list of `to`, which is added at
/// the end when there is none.
pub open spec fn overload_moved(
    old_names: Seq<(String, FunctionOverloads)>,
    new_names: Seq<(String, FunctionOverloads)>,
    from: Seq<char>,
    to: Seq<char>,
    args: ArgsV,
    key: MIRFunctionKey,
) -> bool {
    let ln = overload_lists_names(overload_lists(old_names));
    let i0 = first_index_of(ln, from);
    let j0 = first_index_of(ln, to);
    &&& new_names.len() == if j0 is Some {
        old_names.len()
    } else {
        old_names.len() + 1
    }
    &&& forall|i: int|
        0 <= i < old_names.len() ==> (#[trigger] new_names[i]).0 == old_names[i].0 && overload_models(
            new_names[i].1@,
        ) == ({
            let base = if i0 == Some(i) {
                overload_models(without_key(old_names[i].1@, key))
            } else {
                overload_models(old_names[i].1@)
            };
            if j0 == Some(i) {
                base.push((args, key))
            } else {
                base
            }
        })
    &&& j0 is None ==> new_names[old_names.len() as int].0@ == to && overload_models(
        new_names[old_names.len() as int].1@,
    ) == seq![(args, key)]
}

impl MIRProgram {
    /// Renames the item of `key` to `name` (not its uses), unless the name
    /// is taken (see [`rename_refused`]), in which case nothing changes. A
    /// function moves from the overloads of its old name to those of the
    /// new one.
    pub fn try_rename(&mut self, key: MIRDeclarationKey, name: String) -> (res: bool)
        requires
            old(self).has_key(key),
        ensures
            res == !rename_refused(*old(self), key, name@),
            !res ==> *final(self) == *old(self),
            res ==> match key {
                MIRDeclarationKey::Constant(k) => {
                    &&& final(self).constants@ == old(self).constants@.update(
                        k.0 as int,
                        super::MIRConstant { name, ..old(self).constants@[k.0 as int] },
                    )
                    &&& *final(self) == (MIRProgram { constants: final(self).constants, ..*old(self) })
                },
                MIRDeclarationKey::Static(k) => {
                    &&& final(self).statics@ == old(self).statics@.update(
                        k.0 as int,
                        super::MIRStatic { name, ..old(self).statics@[k.0 as int] },
                    )
                    &&& *final(self) == (MIRProgram { statics: final(self).statics, ..*old(self) })
                },
                MIRDeclarationKey::Marker(k) => {
                    &&& final(self).markers@ == old(self).markers@.update(
                        k.0 as int,
                        super::MIRMarker { name, ..old(self).markers@[k.0 as int] },
                    )
                    &&& *final(self) == (MIRProgram { markers: final(self).markers, ..*old(self) })
                },
                MIRDeclarationKey::Function(k) => {
                    let f = old(self).functions@[k.0 as int];
                    &&& final(self).functions@ == old(self).functions@.update(
                        k.0 as int,
                        MIRFunction { name, ..f },
                    )
                    &&& overload_moved(
                        old(self).function_names@,
                        final(self).function_names@,
                        f.name@,
                        name@,
                        f.args_ty@,
                        k,
                    )
                    &&& *final(self) == (MIRProgram {
                        functions: final(self).functions,
                        function_names: final(self).function_names,
                        ..*old(self)
                    })
                },
            },
    {
        let ghost p0 = *self;
        let in_statics = find_static(&self.statics, &name).is_some();
        let in_consts = find_const(&self.constants, &name).is_some();
        let list = find_overloads(&self.function_names, &name);
        proof {
            lemma_first_index_absent(names_of(typed_statics(p0.statics@)), name@);
            lemma_first_index_absent(names_of(typed_consts(p0.constants@)), name@);
            lemma_first_index_absent(function_list_names(p0), name@);
            lemma_first_index_found(names_of(typed_statics(p0.statics@)), name@);
            lemma_first_index_found(names_of(typed_consts(p0.constants@)), name@);
            lemma_first_index_found(function_list_names(p0), name@);
        }
        let is_fn = match key {
            MIRDeclarationKey::Function(_) => true,
            _ => false,
        };
        if in_statics || in_consts || (!is_fn && list.is_some()) {
            return false;
        }
        match key {
            MIRDeclarationKey::Constant(k) => {
                let mut c = self.constants.remove(k.0);
                c.name = name;
                self.constants.insert(k.0, c);
                assert(self.constants@ =~= p0.constants@.update(k.0 as int, c));
                true
            },
            MIRDeclarationKey::Static(k) => {
                let mut st = self.statics.remove(k.0);
                st.name = name;
                self.statics.insert(k.0, st);
                assert(self.statics@ =~= p0.statics@.update(k.0 as int, st));
                true
            },
            MIRDeclarationKey::Marker(k) => {
                let mut m = self.markers.remove(k.0);
                m.name = name;
                self.markers.insert(k.0, m);
                assert(self.markers@ =~= p0.markers@.update(k.0 as int, m));
                true
            },
            MIRDeclarationKey::Function(k) => {
                let conflict = match list {
                    Some(j) => self.function_names[j].1.find_conflict(&self.functions[k.0].args_ty).is_some(),
                    None => false,
                };
                if conflict {
                    return false;
                }
                let args = copy_args(&self.functions[k.0].args_ty);
                let ghost fa = self.functions@[k.0 as int].args_ty@;
                let old_name = self.functions[k.0].name.clone();
                let ghost names0 = self.function_names@;
                match find_overloads(&self.function_names, &old_name) {
                    Some(i) => {
                        let (n, mut ov) = self.function_names.remove(i);
                        ov.remove(k);
                        self.function_names.insert(i, (n, ov));
                    },
                    None => {},
                }
                let ghost names1 = self.function_names@;
                assert(overload_lists_names(overload_lists(names1)) =~= overload_lists_names(
                    overload_lists(names0),
                ));
                let mut f = self.functions.remove(k.0);
                let ghost f0 = f;
                f.name = name.clone();
                self.functions.insert(k.0, f);
                assert(self.functions@ =~= p0.functions@.update(k.0 as int, MIRFunction { name: name, ..f0 }));
                match find_overloads(&self.function_names, &name) {
                    Some(j) => {
                        let (n, mut ov) = self.function_names.remove(j);
                        ov.push(args, k);
                        self.function_names.insert(j, (n, ov));
                    },
                    None => {
                        let mut ov = FunctionOverloads::new();
                        ov.push(args, k);
                        self.function_names.push((name, ov));
                    },
                }
                proof {
                    let ln = overload_lists_names(overload_lists(names0));
                    assert forall|i: int| 0 <= i < names0.len() implies (
                    #[trigger] self.function_names@[i]).0 == names0[i].0 && overload_models(
                        self.function_names@[i].1@,
                    ) == ({
                        let base = if first_index_of(ln, old_name@) == Some(i) {
                            overload_models(without_key(names0[i].1@, k))
                        } else {
                            overload_models(names0[i].1@)
                        };
                        if first_index_of(ln, name@) == Some(i) {
                            base.push((fa, k))
                        } else {
                            base
                        }
                    }) by {
                        assert(names1[i].0 == names0[i].0);
                        if first_index_of(ln, name@) == Some(i) {
                            assert(overload_models(self.function_names@[i].1@) =~= overload_models(
                                names1[i].1@,
                            ).push((fa, k)));
                        }
                    }
                    if first_index_of(ln, name@) is None {
                        assert(overload_models(self.function_names@[names0.len() as int].1@) =~= seq![
                            (fa, k),
                        ]);
                    }
                }
                true
            },
        }
    }
}


// ---------------------------------------------------------------------------
// Removing declarations from the output
// ---------------------------------------------------------------------------

/// Whether key `k` stays when the declarations `ds` were judged `r`: no
/// occurrence of it was rejected.
pub open spec fn kept_by(ds: Seq<MIRDeclarationKey>, r: Seq<bool>, k: MIRDeclarationKey) -> bool {
    forall|i: int| 0 <= i < ds.len() && ds[i] == k ==> #[trigger] r[i]
}

/// [`kept_by`] as a predicate on keys.
pub open spec fn keeps(ds: Seq<MIRDeclarationKey>, r: Seq<bool>) -> spec_fn(MIRDeclarationKey) -> bool {
    |k: MIRDeclarationKey| kept_by(ds, r, k)
}

impl MIRProgram {
    /// Removes from the output (not from the program) every declaration
    /// that `keep` rejects, all its occurrences included. `keep` is asked
    /// once about each entry, in order, with the program as it was.
    pub fn retain<F: Fn(&MIRProgram, &MIRDeclarationKey) -> bool>(&mut self, keep: &F)
        requires
            forall|i: int|
                0 <= i < old(self).decls@.len() ==> call_requires(
                    *keep,
                    (&*old(self), &#[trigger] old(self).decls@[i]),
                ),
        ensures
            exists|r: Seq<bool>|
                {
                    &&& r.len() == old(self).decls@.len()
                    &&& forall|i: int|
                        0 <= i < r.len() ==> call_ensures(
                            *keep,
                            (&*old(self), &#[trigger] old(self).decls@[i]),
                            r[i],
                        )
                    &&& final(self).decls@ == old(self).decls@.filter(keeps(old(self).decls@, r))
                },
            *final(self) == (MIRProgram { decls: final(self).decls, ..*old(self) }),
    {
        let ghost p0 = *self;
        let n = self.decls.len();
        let mut verdicts: Vec<bool> = Vec::new();
        let mut i: usize = 0;
        while i < n
            invariant
                *self == p0,
                n == p0.decls@.len(),
                i <= n,
                verdicts@.len() == i,
                forall|j: int|
                    0 <= j < n ==> call_requires(*keep, (&p0, &#[trigger] p0.decls@[j])),
                forall|j: int|
                    0 <= j < i ==> call_ensures(*keep, (&p0, &#[trigger] p0.decls@[j]), verdicts@[j]),
            decreases n - i,
        {
            let v = keep(&*self, &self.decls[i]);
            verdicts.push(v);
            i = i + 1;
        }
        let ghost r = verdicts@;
        let mut out: Vec<MIRDeclarationKey> = Vec::new();
        let mut k: usize = 0;
        assert(p0.decls@.take(0) =~= Seq::<MIRDeclarationKey>::empty());
        proof {
            reveal(Seq::filter);
        }
        while k < n
            invariant
                *self == p0,
                n == p0.decls@.len(),
                r == verdicts@,
                r.len() == n,
                k <= n,
                out@ == p0.decls@.take(k as int).filter(keeps(p0.decls@, r)),
            decreases n - k,
        {
            let d = self.decls[k];
            let mut stays = true;
            let mut j: usize = 0;
            while j < n
                invariant
                    *self == p0,
                    n == p0.decls@.len(),
                    r == verdicts@,
                    r.len() == n,
                    k < n,
                    d == p0.decls@[k as int],
                    j <= n,
                    stays == forall|t: int| 0 <= t < j && p0.decls@[t] == d ==> #[trigger] r[t],
                decreases n - j,
            {
                if self.decls[j] == d && !verdicts[j] {
                    stays = false;
                }
                j = j + 1;
            }
            proof {
                reveal(Seq::filter);
                assert(p0.decls@.take(k as int + 1).drop_last() =~= p0.decls@.take(k as int));
                assert(p0.decls@.take(k as int + 1).last() == d);
                assert(keeps(p0.decls@, r)(d) == stays);
            }
            if stays {
                out.push(d);
            }
            k = k + 1;
        }
        assert(p0.decls@.take(n as int) =~= p0.decls@);
        self.decls = out;
    }
}

} // verus!
