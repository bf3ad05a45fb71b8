use vstd::prelude::*;

verus! {

/// A region of source text: the file it comes from, its byte range, and
/// the text it covers.
#[derive(Debug)]
pub struct Span {
    /// Path of the file the span belongs to.
    pub file: String,
    /// Byte offset where the span starts.
    pub start: usize,
    /// Byte offset where the span ends (exclusive).
    pub end: usize,
    /// The source text covered by the span.
    pub text: String,
}

impl Span {
    /// A span that covers nothing, in no file.
    pub fn empty() -> (res: Self)
        ensures
            res.file@ == Seq::<char>::empty(),
            res.start == 0,
            res.end == 0,
            res.text@ == Seq::<char>::empty(),
    {
        Span { file: String::new(), start: 0, end: 0, text: String::new() }
    }
}

impl Clone for Span {
    fn clone(&self) -> (res: Self)
        ensures
            res == *self,
    {
        Span { file: self.file.clone(), start: self.start, end: self.end, text: self.text.clone() }
    }
}

} // verus!
