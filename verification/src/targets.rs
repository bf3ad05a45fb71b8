//! Target languages and the properties the compiler needs from them.

use vstd::prelude::*;

verus! {

/// Information about a target language.
pub trait Target {
    /// The name of the target, used in target blocks and on the command line.
    spec fn spec_name(&self) -> Seq<char>;

    /// Whether strings are represented as arrays of characters.
    spec fn spec_str_char_arr(&self) -> bool;

    /// Whether booleans are represented as integers.
    spec fn spec_bool_as_i32(&self) -> bool;

    /// Whether the language coerces 0 to false and other values to true.
    spec fn spec_truthy_coercion(&self) -> bool;

    /// Whether arrays are internally references.
    spec fn spec_array_as_ref(&self) -> bool;

    /// The name of this target.
    fn name(&self) -> (res: &'static str)
        ensures
            res@ == self.spec_name(),
    ;

    /// The name of the main function, if that exists for this target.
    spec fn spec_main(&self) -> Option<Seq<char>>;

    /// The name of the main function, if that exists for this target.
    fn main(&self) -> (res: Option<&'static str>)
        ensures
            match res {
                Some(m) => self.spec_main() == Some(m@),
                None => self.spec_main() is None,
            },
    ;

    /// Whether strings are represented as arrays of characters.
    fn str_char_arr(&self) -> (res: bool)
        ensures
            res == self.spec_str_char_arr(),
    ;

    /// Whether booleans are represented as integers (i32).
    fn bool_as_i32(&self) -> (res: bool)
        ensures
            res == self.spec_bool_as_i32(),
    ;

    /// Whether the language supports C-style truthy coercion.
    fn truthy_coercion(&self) -> (res: bool)
        ensures
            res == self.spec_truthy_coercion(),
    ;

    /// Whether arrays are internally references.
    fn array_as_ref(&self) -> (res: bool)
        ensures
            res == self.spec_array_as_ref(),
    ;
}

/// The C target.
#[derive(Debug, Clone, Copy)]
pub struct C;

impl Target for C {
    open spec fn spec_name(&self) -> Seq<char> {
        seq!['C']
    }

    open spec fn spec_str_char_arr(&self) -> bool {
        true
    }

    open spec fn spec_bool_as_i32(&self) -> bool {
        true
    }

    open spec fn spec_truthy_coercion(&self) -> bool {
        true
    }

    open spec fn spec_array_as_ref(&self) -> bool {
        true
    }

    fn name(&self) -> (res: &'static str) {
        let res = "C";
        proof {
            reveal_strlit("C");
        }
        res
    }

    open spec fn spec_main(&self) -> Option<Seq<char>> {
        Some(seq!['m', 'a', 'i', 'n'])
    }

    fn main(&self) -> (res: Option<&'static str>)
    {
        let m = "main";
        proof {
            reveal_strlit("main");
        }
        Some(m)
    }

    fn str_char_arr(&self) -> (res: bool) {
        true
    }

    fn bool_as_i32(&self) -> (res: bool) {
        true
    }

    fn truthy_coercion(&self) -> (res: bool) {
        true
    }

    fn array_as_ref(&self) -> (res: bool) {
        true
    }
}

} // verus!
