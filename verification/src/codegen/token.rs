use smallvec::SmallVec;
use vstd::prelude::*;

verus! {

/// The style represents why a token exists, and is used to strip out
/// unneeded tokens when different compiler flags are passed.
#[derive(Copy, Clone, Debug, PartialEq, Eq, Structural)]
pub enum TokenStyle {
    /// A standard part of the output.
    Required,
    /// A non-essential token used for fancy output, likely incompatible with quines.
    Fancy,
    /// A marker that designates all tokens until the next marker as within it.
    /// The text part of the marker isn't output.
    Marker,
}

/// A single token of output text.
///
/// Text can't be inserted within a token; spaces and comments can only be
/// inserted between tokens.
#[derive(Debug)]
pub struct Token {
    /// The raw text of the token.
    pub text: Option<String>,
    /// What purpose the token serves in the output.
    pub style: TokenStyle,
}

/// What a token holds, with its text as characters.
pub type TokenView = (Option<Seq<char>>, TokenStyle);

impl View for Token {
    type V = TokenView;

    open spec fn view(&self) -> TokenView {
        (
            match self.text {
                Some(t) => Some(t@),
                None => None,
            },
            self.style,
        )
    }
}

/// The views of a sequence of tokens.
pub open spec fn token_views(s: Seq<Token>) -> Seq<TokenView> {
    s.map_values(|t: Token| t@)
}

impl Clone for Token {
    fn clone(&self) -> (res: Self)
        ensures
            res == *self,
    {
        Token { text: self.text.clone(), style: self.style }
    }
}

impl Token {
    /// A required token with the given text.
    pub fn new(text: String) -> (res: Self)
        ensures
            res.text == Some(text),
            res.style == TokenStyle::Required,
    {
        Token { text: Some(text), style: TokenStyle::Required }
    }

    /// A token that is only emitted in fancy output.
    pub fn new_fancy(text: String) -> (res: Self)
        ensures
            res.text == Some(text),
            res.style == TokenStyle::Fancy,
    {
        Token { text: Some(text), style: TokenStyle::Fancy }
    }
}

/// A sequence of tokens, stored inline for short sequences.
#[verifier::external_body]
pub struct Tokens {
    items: SmallVec<Token, 8>,
}

/// The tokens held by a [`Tokens`] value, in order.
pub uninterp spec fn tokens_items(tokens: Tokens) -> Seq<Token>;

impl View for Tokens {
    type V = Seq<Token>;

    open spec fn view(&self) -> Seq<Token> {
        tokens_items(*self)
    }
}

impl Tokens {
    /// An empty sequence (calls `SmallVec::new`).
    #[verifier::external_body]
    pub(crate) fn new() -> (res: Tokens)
        ensures
            tokens_items(res) == Seq::<Token>::empty(),
    {
        Tokens { items: SmallVec::new() }
    }

    /// Appends a token (calls `SmallVec::push`).
    #[verifier::external_body]
    pub(crate) fn push(&mut self, token: Token)
        ensures
            tokens_items(*final(self)) == tokens_items(*old(self)).push(token),
    {
        self.items.push(token)
    }

    /// The number of tokens (calls `SmallVec::len`).
    #[verifier::external_body]
    pub(crate) fn len(&self) -> (res: usize)
        ensures
            res == tokens_items(*self).len(),
    {
        self.items.len()
    }

    /// The token at `index` (indexes the slice that `SmallVec` derefs to).
    #[verifier::external_body]
    pub(crate) fn get(&self, index: usize) -> (res: &Token)
        requires
            index < tokens_items(*self).len(),
        ensures
            *res == tokens_items(*self)[index as int],
    {
        &self.items[index]
    }

    /// Replaces the token at `index` (indexes the mutable slice that `SmallVec` derefs to).
    #[verifier::external_body]
    pub(crate) fn set(&mut self, index: usize, token: Token)
        requires
            index < tokens_items(*old(self)).len(),
        ensures
            tokens_items(*final(self)) == tokens_items(*old(self)).update(index as int, token),
    {
        self.items[index] = token;
    }

    /// Removes and returns the last token (calls `SmallVec::pop`).
    #[verifier::external_body]
    pub(crate) fn pop(&mut self) -> (res: Option<Token>)
        ensures
            tokens_items(*old(self)).len() == 0 ==> res is None && tokens_items(*final(self)) == tokens_items(*old(self)),
            tokens_items(*old(self)).len() > 0 ==> res == Some(tokens_items(*old(self)).last())
                && tokens_items(*final(self)) == tokens_items(*old(self)).drop_last(),
    {
        self.items.pop()
    }

    /// Keeps the first `len` tokens (calls `SmallVec::truncate`).
    #[verifier::external_body]
    pub(crate) fn truncate(&mut self, len: usize)
        ensures
            len <= tokens_items(*old(self)).len() ==> tokens_items(*final(self)) == tokens_items(*old(self)).take(len as int),
            len > tokens_items(*old(self)).len() ==> tokens_items(*final(self)) == tokens_items(*old(self)),
    {
        self.items.truncate(len)
    }

    /// Exchanges two tokens (calls `swap` on the slice that `SmallVec` derefs to).
    #[verifier::external_body]
    pub(crate) fn swap(&mut self, a: usize, b: usize)
        requires
            a < tokens_items(*old(self)).len(),
            b < tokens_items(*old(self)).len(),
        ensures
            tokens_items(*final(self)) == tokens_items(*old(self)).update(a as int, tokens_items(*old(self))[b as int]).update(
                b as int,
                tokens_items(*old(self))[a as int],
            ),
    {
        self.items.swap(a, b)
    }

    /// Appends all of `other` (calls `SmallVec`'s `Extend::extend`).
    #[verifier::external_body]
    pub(crate) fn extend(&mut self, other: Tokens)
        ensures
            tokens_items(*final(self)) == tokens_items(*old(self)) + tokens_items(other),
    {
        self.items.extend(other.items)
    }

    /// Inserts a token at `index` (calls `SmallVec::insert`).
    #[verifier::external_body]
    pub(crate) fn insert(&mut self, index: usize, token: Token)
        requires
            index <= tokens_items(*old(self)).len(),
        ensures
            tokens_items(*final(self)) == tokens_items(*old(self)).insert(index as int, token),
    {
        self.items.insert(index, token)
    }

    /// Keeps only the tokens whose style isn't `style`, in order (calls `SmallVec::retain`).
    #[verifier::external_body]
    pub(crate) fn retain_style_not(&mut self, style: TokenStyle)
        ensures
            tokens_items(*final(self)) == tokens_items(*old(self)).filter(|t: Token| t.style != style),
    {
        self.items.retain(|token| style_differs(token, style))
    }

    /// Whether there are no tokens.
    pub fn is_empty(&self) -> (res: bool)
        ensures
            res == (self@.len() == 0),
    {
        self.len() == 0
    }

    /// The last token, if any.
    pub fn last(&self) -> (res: Option<&Token>)
        ensures
            self@.len() == 0 ==> res is None,
            self@.len() > 0 ==> res == Some(&self@.last()),
    {
        let n = self.len();
        if n == 0 {
            None
        } else {
            Some(self.get(n - 1))
        }
    }

    /// Appends copies of all tokens of `other`.
    pub fn extend_from(&mut self, other: &Tokens)
        ensures
            final(self)@ == old(self)@ + other@,
    {
        let ghost start = self@;
        let mut i: usize = 0;
        while i < other.len()
            invariant
                i <= other@.len(),
                self@ == start + other@.take(i as int),
            decreases other@.len() - i,
        {
            self.push(other.get(i).clone());
            i = i + 1;
            proof {
                assert(other@.take(i as int) == other@.take(i - 1).push(other@[i - 1]));
            }
        }
        proof {
            assert(other@.take(other@.len() as int) == other@);
        }
    }

    /// The tokens, in order, as a vector.
    pub fn to_vec(&self) -> (res: Vec<Token>)
        ensures
            res@ == self@,
    {
        let mut out: Vec<Token> = Vec::new();
        let n = self.len();
        let mut i: usize = 0;
        while i < n
            invariant
                n == self@.len(),
                i <= n,
                out@ == self@.take(i as int),
            decreases n - i,
        {
            out.push(self.get(i).clone());
            i = i + 1;
            assert(out@ =~= self@.take(i as int));
        }
        assert(self@.take(n as int) =~= self@);
        out
    }

    /// A sequence of the given tokens, in order.
    pub fn from_vec(v: Vec<Token>) -> (res: Tokens)
        ensures
            res@ == v@,
    {
        let mut out = Tokens::new();
        let n = v.len();
        let mut i: usize = 0;
        while i < n
            invariant
                n == v@.len(),
                i <= n,
                out@ == v@.take(i as int),
            decreases n - i,
        {
            out.push(v[i].clone());
            i = i + 1;
            assert(out@ =~= v@.take(i as int));
        }
        assert(v@.take(n as int) =~= v@);
        out
    }

    /// A sequence holding exactly the given token.
    pub fn single(token: Token) -> (res: Tokens)
        ensures
            res@ == seq![token],
    {
        let mut res = Tokens::new();
        res.push(token);
        res
    }
}

/// Whether a token's style isn't `style`.
pub fn style_differs(token: &Token, style: TokenStyle) -> (res: bool)
    ensures
        res == (token.style != style),
{
    token.style != style
}

/// Removes all fancy tokens from the given list of tokens.
pub fn strip_fancy_tokens(tokens: &mut Tokens)
    ensures
        final(tokens)@ == old(tokens)@.filter(|t: Token| t.style != TokenStyle::Fancy),
{
    tokens.retain_style_not(TokenStyle::Fancy)
}

/// The result of merging `right` into `left`: whether the merge happened and
/// what `left` became. A marker on the left is never merged into; a marker on
/// the right is never merged, but gets a space before it where one is needed.
pub open spec fn spec_try_merge<I: TokenInfo + ?Sized>(info: &I, left: TokenView, right: TokenView) -> (bool, TokenView) {
    if left.1 == TokenStyle::Marker {
        (false, left)
    } else if right.1 == TokenStyle::Marker {
        if info.spec_needs_space(left, right) {
            (false, (Some(left.0.unwrap() + seq![' ']), left.1))
        } else {
            (false, left)
        }
    } else if info.spec_needs_space(left, right) {
        (true, (Some(left.0.unwrap() + seq![' '] + right.0.unwrap()), left.1))
    } else {
        (true, (Some(left.0.unwrap() + right.0.unwrap()), left.1))
    }
}

/// Whether two adjacent tokens may be merged: always, or, when `only` is
/// given, only two non-marker tokens with exactly those texts.
pub open spec fn spec_should_merge(left: TokenView, right: TokenView, only: Option<(Seq<char>, Seq<char>)>) -> bool {
    match only {
        None => true,
        Some((l, r)) => left.1 != TokenStyle::Marker && right.1 != TokenStyle::Marker && left.0 == Some(l)
            && right.0 == Some(r),
    }
}

/// The result of merging the first `n` tokens of `s` from left to right.
pub open spec fn merged_prefix<I: TokenInfo + ?Sized>(
    info: &I,
    s: Seq<TokenView>,
    only: Option<(Seq<char>, Seq<char>)>,
    n: nat,
) -> Seq<TokenView>
    decreases n,
{
    if n <= 1 {
        s.take(n as int)
    } else {
        let acc = merged_prefix(info, s, only, (n - 1) as nat);
        let right = s[n - 1];
        if spec_should_merge(acc.last(), right, only) {
            let (merged, new_left) = spec_try_merge(info, acc.last(), right);
            if merged {
                acc.update(acc.len() - 1, new_left)
            } else {
                acc.update(acc.len() - 1, new_left).push(right)
            }
        } else {
            acc.push(right)
        }
    }
}

/// Whether every token has text.
pub open spec fn all_have_text(s: Seq<TokenView>) -> bool {
    forall|i: int| 0 <= i < s.len() ==> (#[trigger] s[i]).0 is Some
}

pub proof fn lemma_merged_prefix_props<I: TokenInfo + ?Sized>(
    info: &I,
    s: Seq<TokenView>,
    only: Option<(Seq<char>, Seq<char>)>,
    n: nat,
)
    requires
        n <= s.len(),
        all_have_text(s),
    ensures
        n >= 1 ==> merged_prefix(info, s, only, n).len() >= 1,
        merged_prefix(info, s, only, n).len() <= n,
        all_have_text(merged_prefix(info, s, only, n)),
    decreases n,
{
    if n > 1 {
        lemma_merged_prefix_props(info, s, only, (n - 1) as nat);
    }
}

/// Target-specific rules for how tokens are joined.
pub trait TokenInfo {
    /// Whether a space is required between two tokens to keep them apart.
    spec fn spec_needs_space(&self, left: TokenView, right: TokenView) -> bool;

    /// Determines if a space is required between this token and the next
    /// to prevent accidental merging.
    fn needs_space_between(&self, left: &Token, right: &Token) -> (res: bool)
        ensures
            res == self.spec_needs_space(left@, right@),
    ;

}

/// Tries to merge `right` onto the end of `left`, returning whether
/// merging succeeded.
pub fn try_merge<I: TokenInfo + ?Sized>(info: &I, left: &mut Token, right: &Token) -> (res: bool)
    requires
        old(left).text is Some,
        right.text is Some,
    ensures
        (res, final(left)@) == spec_try_merge(info, old(left)@, right@),
{
    proof {
        reveal_strlit(" ");
    }
    if left.style == TokenStyle::Marker {
        return false;
    }
    // A marker on the right needs space before it, so that whatever is
    // placed inside it later can be joined safely.
    if right.style == TokenStyle::Marker {
        if info.needs_space_between(left, right) {
            let mut text = left.text.take().unwrap();
            text.append(" ");
            left.text = Some(text);
        }
        return false;
    }
    let needs_space = info.needs_space_between(left, right);
    let mut text = left.text.take().unwrap();
    if needs_space {
        text.append(" ");
    }
    match &right.text {
        Some(r) => text.append(r.as_str()),
        None => {},
    }
    left.text = Some(text);
    true
}

/// Merges adjacent tokens wherever possible, from left to right.
/// When `only` is given, just adjacent non-marker tokens with exactly
/// those two texts are merged.
pub fn merge_tokens<I: TokenInfo + ?Sized>(info: &I, tokens: &mut Tokens, only: Option<(&String, &String)>)
    requires
        all_have_text(token_views(old(tokens)@)),
    ensures
        token_views(final(tokens)@) == merged_prefix(
            info,
            token_views(old(tokens)@),
            match only {
                Some((l, r)) => Some((l@, r@)),
                None => None,
            },
            old(tokens)@.len() as nat,
        ),
{
    let ghost orig = token_views(tokens@);
    let ghost only_view = match only {
        Some((l, r)) => Some((l@, r@)),
        None => None,
    };
    let len = tokens.len();
    if len == 0 {
        proof {
            assert(token_views(tokens@) == orig.take(0));
        }
        return;
    }
    // Skip the first token so it can be merged into.
    let mut read_index: usize = 1;
    // The index most recently written to.
    let mut write_index: usize = 0;
    proof {
        assert(token_views(tokens@.take(1)) == orig.take(1));
    }
    while read_index < len
        invariant
            tokens@.len() == len,
            orig.len() == len,
            all_have_text(orig),
            0 <= write_index < read_index <= len,
            token_views(tokens@.take(write_index + 1)) == merged_prefix(info, orig, only_view, read_index as nat),
            forall|k: int| read_index <= k < len ==> (#[trigger] tokens@[k])@ == orig[k],
            only_view == (match only {
                Some((l, r)) => Some((l@, r@)),
                None => None,
            }),
        decreases len - read_index,
    {
        proof {
            lemma_merged_prefix_props(info, orig, only_view, read_index as nat);
            assert(token_views(tokens@.take(write_index + 1))[write_index as int] == tokens@[write_index as int]@);
            assert(tokens@[read_index as int]@ == orig[read_index as int]);
        }
        let should = match only {
            None => true,
            Some((l, r)) => {
                let w = tokens.get(write_index);
                let rd = tokens.get(read_index);
                w.style != TokenStyle::Marker && rd.style != TokenStyle::Marker && text_is(w, l)
                    && text_is(rd, r)
            },
        };
        let ghost acc = merged_prefix(info, orig, only_view, read_index as nat);
        if should {
            let mut write = tokens.get(write_index).clone();
            let read = tokens.get(read_index).clone();
            let merged = try_merge(info, &mut write, &read);
            tokens.set(write_index, write);
            if merged {
                read_index = read_index + 1;
                proof {
                    assert(token_views(tokens@.take(write_index + 1)) == acc.update(acc.len() - 1, tokens@[write_index as int]@));
                }
                continue;
            }
        }
        // The tokens weren't merged, so the read token gets a slot of its own.
        let ghost before = tokens@;
        write_index = write_index + 1;
        if write_index != read_index {
            tokens.swap(write_index, read_index);
        }
        read_index = read_index + 1;
        proof {
            assert(token_views(tokens@.take(write_index + 1)) == token_views(before.take(write_index as int)).push(orig[read_index - 1]));
        }
    }
    tokens.truncate(write_index + 1);
    proof {
        assert(tokens@ == tokens@.take(write_index + 1));
    }
}

/// Whether a token's text is exactly `text`.
fn text_is(token: &Token, text: &String) -> (res: bool)
    ensures
        res == (token@.0 == Some(text@)),
{
    match &token.text {
        Some(t) => t.eq(text),
        None => false,
    }
}

} // verus!
