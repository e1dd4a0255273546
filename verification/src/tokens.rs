use vstd::prelude::*;

verus! {

/// The delimiter of a token group (`Invisible`: a group without delimiters).
#[derive(Clone, Copy, Debug, PartialEq, Eq, Structural)]
pub enum Delimiter {
    Parenthesis,
    Brace,
    Bracket,
    Invisible,
}

/// A token tree as the macro receives it: an identifier or a literal holds the
/// text that the token prints as, a punctuation its character.
#[derive(Debug)]
pub enum TokenTree {
    Group(Delimiter, Vec<TokenTree>),
    Ident(String),
    Punct(char),
    Literal(String),
}

/// The mathematical model of a `TokenTree`.
pub enum TokenView {
    Group(Delimiter, Seq<TokenView>),
    Ident(Seq<char>),
    Punct(char),
    Literal(Seq<char>),
}

impl TokenTree {
    /// The view of the token tree (the guard on the index only serves termination).
    pub open spec fn tree_view(&self) -> TokenView
        decreases self,
    {
        match self {
            TokenTree::Group(d, ts) => TokenView::Group(
                *d,
                Seq::new(ts@.len(), |i: int| if 0 <= i < ts@.len() { ts@[i].tree_view() } else { TokenView::Punct(' ') }),
            ),
            TokenTree::Ident(s) => TokenView::Ident(s@),
            TokenTree::Punct(c) => TokenView::Punct(*c),
            TokenTree::Literal(s) => TokenView::Literal(s@),
        }
    }
}

/// The views of a sequence of token trees.
pub open spec fn trees_view(ts: Seq<TokenTree>) -> Seq<TokenView> {
    Seq::new(ts.len(), |i: int| ts[i].tree_view())
}

/// The token at position `i`, if there is one.
pub open spec fn token_at(ts: Seq<TokenView>, i: int) -> Option<TokenView> {
    if 0 <= i < ts.len() {
        Some(ts[i])
    } else {
        None
    }
}

/// Whether the token at position `i` is the punctuation `c`.
pub open spec fn is_punct_at(ts: Seq<TokenView>, i: int, c: char) -> bool {
    0 <= i < ts.len() && ts[i] == TokenView::Punct(c)
}

/// Whether a token is the punctuation `c`.
pub fn is_punct(t: &TokenTree, c: char) -> (r: bool)
    ensures
        r == (t.tree_view() == TokenView::Punct(c)),
{
    match t {
        TokenTree::Punct(p) => *p == c,
        _ => false,
    }
}

/// Whether a punctuation is joined to the next one (as the two `:` of `::`).
#[derive(Clone, Copy, Debug, PartialEq, Eq, Structural)]
pub enum Spacing {
    Alone,
    Joint,
}

/// A token tree that the macro emits.
#[derive(Debug)]
pub enum OutTree {
    Group(Delimiter, Vec<OutTree>),
    Ident(String),
    Punct(char, Spacing),
    /// A string literal whose value is the given text.
    Str(String),
    /// The tokens that the given source text is read as.
    Source(String),
}

/// The mathematical model of an `OutTree`.
pub enum OutView {
    Group(Delimiter, Seq<OutView>),
    Ident(Seq<char>),
    Punct(char, Spacing),
    Str(Seq<char>),
    Source(Seq<char>),
}

impl OutTree {
    /// The view of the token tree (the guard on the index only serves termination).
    pub open spec fn out_view(&self) -> OutView
        decreases self,
    {
        match self {
            OutTree::Group(d, ts) => OutView::Group(
                *d,
                Seq::new(ts@.len(), |i: int| if 0 <= i < ts@.len() { ts@[i].out_view() } else { OutView::Punct(' ', Spacing::Alone) }),
            ),
            OutTree::Ident(s) => OutView::Ident(s@),
            OutTree::Punct(c, sp) => OutView::Punct(*c, *sp),
            OutTree::Str(s) => OutView::Str(s@),
            OutTree::Source(s) => OutView::Source(s@),
        }
    }
}

/// The views of a sequence of emitted token trees.
pub open spec fn outs_view(ts: Seq<OutTree>) -> Seq<OutView> {
    Seq::new(ts.len(), |i: int| ts[i].out_view())
}

/// An identifier token.
pub fn out_ident(s: &str) -> (t: OutTree)
    ensures
        t.out_view() == OutView::Ident(s@),
{
    OutTree::Ident(s.to_owned())
}

/// A punctuation that stands alone.
pub fn out_punct(c: char) -> (t: OutTree)
    ensures
        t.out_view() == OutView::Punct(c, Spacing::Alone),
{
    OutTree::Punct(c, Spacing::Alone)
}

/// A group of the given tokens.
pub fn out_group(d: Delimiter, ts: Vec<OutTree>) -> (t: OutTree)
    ensures
        t.out_view() == OutView::Group(d, outs_view(ts@)),
{
    let ghost v = ts@;
    let t = OutTree::Group(d, ts);
    assert(t.out_view()->Group_1 =~= outs_view(v));
    t
}

/// Appends a token.
pub fn out_push(v: &mut Vec<OutTree>, t: OutTree)
    ensures
        outs_view(final(v)@) == outs_view(old(v)@).push(t.out_view()),
{
    let ghost tv = t.out_view();
    v.push(t);
    assert(outs_view(v@) =~= outs_view(old(v)@).push(tv));
}

/// Appends all the tokens of `w`.
pub fn out_append(v: &mut Vec<OutTree>, w: Vec<OutTree>)
    ensures
        outs_view(final(v)@) == outs_view(old(v)@) + outs_view(w@),
{
    let ghost ov = outs_view(v@);
    let ghost wv = outs_view(w@);
    let mut w = w;
    v.append(&mut w);
    assert(outs_view(v@) =~= ov + wv);
}

} // verus!
