//! The structure of sublime-syntax files, and the scope names they use.
//!
//! The serializer that writes these structures as YAML lives in
//! [`crate::serializer`].
use vstd::prelude::*;

use crate::arena::alloc_str;
use crate::text::{
    ascii_words, chars_of, is_ascii_space, join_words, lemma_join_append, lemma_join_empty,
    lemma_words_of_join, lemma_words_shape, lemma_words_single, lemma_words_split_at,
    normalize_space, postfixed, push_joined, words_of,
};
use bumpalo::Bump;

verus! {

/// A complete syntax definition.
#[derive(Debug)]
pub struct Syntax<'a> {
    pub name: &'a str,
    pub file_extensions: &'a [&'a str],
    pub first_line_match: Option<Pattern<'a>>,
    pub scope: Scope<'a>,
    pub hidden: bool,
    pub variables: &'a [(&'a str, Pattern<'a>)],
    pub contexts: &'a [(&'a str, Context<'a>)],
}

/// A regular expression, written verbatim into the output.
#[derive(PartialEq, Eq, Debug, Clone)]
pub struct Pattern<'a>(pub &'a str);

impl<'a> View for Pattern<'a> {
    type V = Seq<char>;

    open spec fn view(&self) -> Seq<char> {
        self.0@
    }
}

impl<'a> From<&'a str> for Pattern<'a> {
    fn from(regex: &'a str) -> (r: Pattern<'a>) {
        Pattern(regex)
    }
}

impl<'a> vstd::std_specs::convert::FromSpecImpl<&'a str> for Pattern<'a> {
    open spec fn obeys_from_spec() -> bool {
        true
    }

    open spec fn from_spec(regex: &'a str) -> Pattern<'a> {
        Pattern(regex)
    }
}

/// A space-separated list of scope names.
#[derive(PartialEq, Eq, Debug, Clone, Copy)]
pub struct Scope<'a>(&'a str);

impl<'a> View for Scope<'a> {
    type V = Seq<char>;

    closed spec fn view(&self) -> Seq<char> {
        self.0@
    }
}

impl<'a> Scope<'a> {
    /// The scope with no names.
    pub fn empty() -> (r: Scope<'static>)
        ensures
            r@ == Seq::<char>::empty(),
    {
        proof {
            reveal_strlit("");
        }
        Scope("")
    }

    /// A scope from a string that is already in normal form: names separated
    /// by single spaces.
    pub fn new(scope: &'a str) -> (r: Scope<'a>)
        requires
            normalize_space(scope@) == scope@,
        ensures
            r@ == scope@,
    {
        Scope(scope)
    }

    pub fn as_str(&self) -> (r: &'a str)
        ensures
            r@ == self@,
    {
        self.0
    }

    /// The scope made of the whitespace-separated names in `scopes`, joined
    /// by single spaces and stored in `allocator`.
    pub fn parse(scopes: &str, allocator: &'a Bump) -> (r: Self)
        ensures
            r@ == normalize_space(scopes@),
    {
        let chars = chars_of(scopes);
        let words = words_of(&chars);
        let mut s = String::new();
        push_joined(&mut s, &words, None);
        Scope(alloc_str(allocator, s.as_str()))
    }

    /// Like [`Scope::parse`], with a dot and `postfix` after each name.
    pub fn parse_with_postfix(scopes: &str, postfix: &str, allocator: &'a Bump) -> (r: Scope<'a>)
        ensures
            r@ == join_words(postfixed(ascii_words(scopes@), postfix@)),
    {
        let chars = chars_of(scopes);
        let words = words_of(&chars);
        let postfix_chars = chars_of(postfix);
        let mut s = String::new();
        push_joined(&mut s, &words, Some(&postfix_chars));
        Scope(alloc_str(allocator, s.as_str()))
    }

    pub fn is_empty(&self) -> (r: bool)
        ensures
            r == (self@.len() == 0),
    {
        self.0.is_empty()
    }

    /// This scope followed by `other`, separated by a space when both are
    /// non-empty.
    pub fn extended(&self, other: Self, allocator: &'a Bump) -> (r: Self)
        ensures
            r@ == scope_concat(self@, other@),
    {
        if self.is_empty() {
            other
        } else if other.is_empty() {
            *self
        } else {
            let mut s = String::new();
            s.append(self.0);
            s.append(" ");
            s.append(other.0);
            proof {
                reveal_strlit(" ");
            }
            Scope(alloc_str(allocator, s.as_str()))
        }
    }
}

/// Two scopes one after the other, separated by a space when both are
/// non-empty.
pub open spec fn scope_concat(a: Seq<char>, b: Seq<char>) -> Seq<char> {
    if a.len() == 0 {
        b
    } else if b.len() == 0 {
        a
    } else {
        a + seq![' '] + b
    }
}

/// Normalising is idempotent: the string of a parsed scope parses to the
/// same string, so every scope that [`Scope::parse`] builds is one that
/// [`Scope::new`] accepts.
pub proof fn lemma_parse_idempotent(scopes: Seq<char>)
    ensures
        normalize_space(normalize_space(scopes)) == normalize_space(scopes),
{
    lemma_words_shape(scopes);
    lemma_words_of_join(ascii_words(scopes));
}

/// The empty scope is an identity of [`Scope::extended`] on either side.
pub proof fn lemma_extended_identity(a: Seq<char>)
    ensures
        scope_concat(Seq::<char>::empty(), a) == a,
        scope_concat(a, Seq::<char>::empty()) == a,
{
}

/// [`Scope::extended`] is associative.
pub proof fn lemma_extended_associative(a: Seq<char>, b: Seq<char>, c: Seq<char>)
    ensures
        scope_concat(scope_concat(a, b), c) == scope_concat(a, scope_concat(b, c)),
{
    if a.len() > 0 && b.len() > 0 && c.len() > 0 {
        assert(a + seq![' '] + b + seq![' '] + c =~= a + seq![' '] + (b + seq![' '] + c));
    }
}

/// Extending a scope in normal form by another gives a scope in normal form.
pub proof fn lemma_extended_normal(a: Seq<char>, b: Seq<char>)
    requires
        normalize_space(a) == a,
        normalize_space(b) == b,
    ensures
        normalize_space(scope_concat(a, b)) == scope_concat(a, b),
{
    if a.len() > 0 && b.len() > 0 {
        let wa = ascii_words(a);
        let wb = ascii_words(b);
        lemma_words_shape(a);
        lemma_words_shape(b);
        lemma_join_empty(wa);
        lemma_join_empty(wb);
        lemma_join_append(wa, wb);
        let w = wa + wb;
        assert forall|i: int| 0 <= i < w.len() implies #[trigger] w[i].len() > 0 by {
            if i < wa.len() {
                assert(w[i] == wa[i]);
            } else {
                assert(w[i] == wb[i - wa.len()]);
            }
        }
        assert forall|i: int, j: int| 0 <= i < w.len() && 0 <= j < w[i].len() implies !is_ascii_space(
            #[trigger] w[i][j],
        ) by {
            if i < wa.len() {
                assert(w[i] == wa[i]);
            } else {
                assert(w[i] == wb[i - wa.len()]);
            }
        }
        lemma_words_of_join(w);
    }
}

/// With a postfix free of whitespace, [`Scope::parse_with_postfix`] builds a
/// scope in normal form with as many names as [`Scope::parse`] would.
pub proof fn lemma_postfix_normal(scopes: Seq<char>, postfix: Seq<char>)
    requires
        forall|j: int| 0 <= j < postfix.len() ==> !is_ascii_space(#[trigger] postfix[j]),
    ensures
        normalize_space(join_words(postfixed(ascii_words(scopes), postfix))) == join_words(
            postfixed(ascii_words(scopes), postfix),
        ),
        ascii_words(join_words(postfixed(ascii_words(scopes), postfix))).len() == ascii_words(
            scopes,
        ).len(),
{
    let ws = ascii_words(scopes);
    let w = postfixed(ws, postfix);
    lemma_words_shape(scopes);
    assert forall|i: int| 0 <= i < w.len() implies #[trigger] w[i].len() > 0 by {
        assert(w[i] == ws[i] + seq!['.'] + postfix);
    }
    assert forall|i: int, j: int| 0 <= i < w.len() && 0 <= j < w[i].len() implies !is_ascii_space(
        #[trigger] w[i][j],
    ) by {
        let x = ws[i];
        assert(w[i] == x + seq!['.'] + postfix);
        if j < x.len() {
            assert(w[i][j] == ws[i][j]);
        } else if j == x.len() {
            assert(w[i][j] == '.');
        } else {
            assert(w[i][j] == postfix[j - x.len() - 1]);
        }
    }
    lemma_words_of_join(w);
}

/// Parsing splits only at ASCII whitespace: a non-empty text without space,
/// tab, line feed, form feed or carriage return parses to itself, whatever
/// other characters it holds, and with a postfix it gets exactly one dot and
/// the postfix.
pub proof fn lemma_parse_keeps_unbroken_text(s: Seq<char>, postfix: Seq<char>)
    requires
        s.len() > 0,
        forall|i: int|
            0 <= i < s.len() ==> #[trigger] s[i] != ' ' && s[i] != '\t' && s[i] != '\n' && s[i]
                != '\x0C' && s[i] != '\r',
    ensures
        normalize_space(s) == s,
        join_words(postfixed(ascii_words(s), postfix)) == s + seq!['.'] + postfix,
{
    assert forall|j: int| 0 <= j < s.len() implies !is_ascii_space(#[trigger] s[j]) by {
        assert(s[j] != ' ' && s[j] != '\t' && s[j] != '\n' && s[j] != '\x0C' && s[j] != '\r');
    }
    lemma_words_single(s);
    assert(postfixed(seq![s], postfix) =~= seq![s + seq!['.'] + postfix]);
}

/// Each of space, tab, line feed, form feed and carriage return separates
/// names: parsing `a`, that character and `b` gives the parse of `a`
/// extended by the parse of `b`.
pub proof fn lemma_parse_splits_at_whitespace(a: Seq<char>, c: char, b: Seq<char>)
    requires
        c == ' ' || c == '\t' || c == '\n' || c == '\x0C' || c == '\r',
    ensures
        normalize_space(a + seq![c] + b) == scope_concat(normalize_space(a), normalize_space(b)),
{
    lemma_words_split_at(a, c, b);
    let wa = ascii_words(a);
    let wb = ascii_words(b);
    lemma_words_shape(a);
    lemma_words_shape(b);
    lemma_join_empty(wa);
    lemma_join_empty(wb);
    if wa.len() == 0 {
        assert(wa + wb =~= wb);
    } else if wb.len() == 0 {
        assert(wa + wb =~= wa);
    } else {
        lemma_join_append(wa, wb);
    }
}

/// How many parent scopes a context clears.
#[derive(PartialEq, Eq, Debug, Clone)]
pub enum ScopeClear {
    All,
    Amount(i32),
}

/// A named group of patterns.
#[derive(PartialEq, Eq, Debug)]
pub struct Context<'a> {
    pub meta_scope: Scope<'a>,
    pub meta_content_scope: Scope<'a>,
    pub meta_include_prototype: bool,
    pub clear_scopes: ScopeClear,
    pub matches: Vec<ContextPattern<'a>>,
    pub comment: Option<&'a str>,
}

#[derive(PartialEq, Eq, Debug)]
pub enum ContextPattern<'a> {
    Match(Match<'a>),
    Include(&'a str),
}

#[derive(PartialEq, Eq, Debug)]
pub struct Match<'a> {
    pub pattern: Pattern<'a>,
    pub scope: Scope<'a>,
    pub captures: &'a [Scope<'a>],
    pub change_context: ContextChange<'a>,
    pub pop: u16,
}

/// Embedding another syntax until an escape pattern matches.
#[derive(PartialEq, Eq, Debug, Clone)]
pub struct Embed<'a> {
    pub embed: &'a str,
    pub embed_scope: Scope<'a>,
    pub escape: Option<Pattern<'a>>,
    pub escape_captures: &'a [Scope<'a>],
}

/// Pushing or setting another syntax file, with extra prototype patterns.
#[derive(PartialEq, Eq, Debug)]
pub struct IncludeEmbed<'a> {
    pub path: &'a str,
    pub use_push: bool,
    pub with_prototype: Vec<ContextPattern<'a>>,
}

/// What a match does to the context stack.
#[derive(PartialEq, Eq, Debug)]
pub enum ContextChange<'a> {
    NoChange,
    Push(&'a [&'a str]),
    PushOne(&'a str),
    SetContexts(&'a [&'a str]),
    PushEmbed(Context<'a>),
    SetEmbed(Context<'a>),
    Embed(Embed<'a>),
    IncludeEmbed(IncludeEmbed<'a>),
    Branch(&'a str, &'a [&'a str]),
    Fail(&'a str),
}

} // verus!
