//! The Steel lexer, as the rest of the library sees it.

use steel_parser::lexer::TokenStream;
use steel_parser::tokens::TokenType::{
    CloseParen, Comment, DatumComment, OpenParen, QuasiQuote, QuasiQuoteSyntax, QuoteSyntax,
    QuoteTick, Unquote, UnquoteSplice, UnquoteSpliceSyntax, UnquoteSyntax,
};
use vstd::prelude::*;

verus! {

/// The lexer's token types, as the formatter tells them apart: one variant
/// for each delimiter, comment and prefix type, and one for every type that
/// stands for a datum by itself.
#[derive(Debug, Clone, Copy, PartialEq, Eq, Structural)]
pub enum TokKind {
    /// An opening delimiter, with any `#` or `#u8` modifier.
    Open,
    /// A closing delimiter.
    Close,
    /// A `;` line comment or a `#|` block comment.
    Comment,
    /// `'`
    QuoteTick,
    /// `` ` ``
    QuasiQuote,
    /// `,`
    Unquote,
    /// `,@`
    UnquoteSplice,
    /// `#'`
    QuoteSyntax,
    /// `` #` ``
    QuasiQuoteSyntax,
    /// `#,`
    UnquoteSyntax,
    /// `#,@`
    UnquoteSpliceSyntax,
    /// `#;`
    DatumComment,
    /// A symbol, keyword, number, string, character, boolean or dot.
    Other,
}

/// What a token does to the tree being built.
#[derive(Debug, Clone, Copy, PartialEq, Eq, Structural)]
pub enum TokClass {
    Open,
    Close,
    Comment,
    /// A prefix that applies to the datum after it.
    Prefix,
    /// A datum by itself.
    Other,
}

/// Whether a token type is a prefix applying to the datum after it: the
/// quoting and syntax quoting marks and the datum comment.
pub open spec fn is_prefix(k: TokKind) -> bool {
    match k {
        TokKind::QuoteTick | TokKind::QuasiQuote | TokKind::Unquote | TokKind::UnquoteSplice
        | TokKind::QuoteSyntax | TokKind::QuasiQuoteSyntax | TokKind::UnquoteSyntax
        | TokKind::UnquoteSpliceSyntax | TokKind::DatumComment => true,
        _ => false,
    }
}

/// What a token of type `k` does to the tree being built.
pub open spec fn class_of(k: TokKind) -> TokClass {
    match k {
        TokKind::Open => TokClass::Open,
        TokKind::Close => TokClass::Close,
        TokKind::Comment => TokClass::Comment,
        _ => if is_prefix(k) {
            TokClass::Prefix
        } else {
            TokClass::Other
        },
    }
}

/// What a token of type `k` does to the tree being built.
pub fn classify(k: TokKind) -> (c: TokClass)
    ensures
        c == class_of(k),
{
    match k {
        TokKind::Open => TokClass::Open,
        TokKind::Close => TokClass::Close,
        TokKind::Comment => TokClass::Comment,
        TokKind::QuoteTick | TokKind::QuasiQuote | TokKind::Unquote | TokKind::UnquoteSplice
        | TokKind::QuoteSyntax | TokKind::QuasiQuoteSyntax | TokKind::UnquoteSyntax
        | TokKind::UnquoteSpliceSyntax | TokKind::DatumComment => TokClass::Prefix,
        TokKind::Other => TokClass::Other,
    }
}

/// One token: its kind, its exact source text, and its byte span.
pub struct LexToken {
    pub kind: TokKind,
    pub text: String,
    pub start: u32,
    pub end: u32,
}

/// Why the lexer stopped: its message and the byte offset it stopped at.
pub struct LexFailure {
    pub message: String,
    pub offset: u32,
}

/// A token as a plain value.
pub open spec fn token_view(t: LexToken) -> (TokKind, Seq<char>, u32, u32) {
    (t.kind, t.text@, t.start, t.end)
}

/// One item of the lexer's output: a token, or an error.
pub type LexItem = (TokKind, Seq<char>, u32, u32);

/// One item of the lexer's output, as a plain value.
pub open spec fn item_view(r: Result<LexToken, LexFailure>) -> Result<LexItem, (Seq<char>, u32)> {
    match r {
        Ok(t) => Ok(token_view(t)),
        Err(failure) => Err((failure.message@, failure.offset)),
    }
}

/// The lexer's output, as plain values.
pub open spec fn items_view(items: Seq<Result<LexToken, LexFailure>>) -> Seq<Result<LexItem, (Seq<char>, u32)>> {
    items.map_values(|r: Result<LexToken, LexFailure>| item_view(r))
}

/// Every item the Steel lexer yields for a source text, comments kept.
pub uninterp spec fn steel_lex(source: Seq<char>) -> Seq<Result<LexItem, (Seq<char>, u32)>>;

/// Lexes `source` with `steel_parser::lexer::TokenStream::new(source, false,
/// None)`, comments kept, and collects every item the stream yields.
///
/// Trusted: the contract claims only that the items are a function of the
/// source text, named `steel_lex`. Each token keeps its kind, its source
/// slice (`Token::source`, which for a line comment includes the newline that
/// ends it) and its span; an error keeps the lexer's message and where its
/// span starts. Each token type becomes the `TokKind` variant of its name,
/// and every type that stands for a datum by itself becomes `Other`.
#[verifier::external_body]
pub(crate) fn lex_steel(source: &str) -> (r: Vec<Result<LexToken, LexFailure>>)
    ensures
        items_view(r@) == steel_lex(source@),
{
    TokenStream::new(source, false, None).map(|item| match item {
        Ok(t) => Ok(LexToken {
            kind: match t.ty {
                OpenParen(..) => TokKind::Open, CloseParen(_) => TokKind::Close, Comment => TokKind::Comment,
                QuoteTick => TokKind::QuoteTick, QuasiQuote => TokKind::QuasiQuote,
                Unquote => TokKind::Unquote, UnquoteSplice => TokKind::UnquoteSplice,
                QuoteSyntax => TokKind::QuoteSyntax, QuasiQuoteSyntax => TokKind::QuasiQuoteSyntax,
                UnquoteSyntax => TokKind::UnquoteSyntax, UnquoteSpliceSyntax => TokKind::UnquoteSpliceSyntax,
                DatumComment => TokKind::DatumComment, _ => TokKind::Other,
            },
            text: t.source.to_string(), start: t.span.start(), end: t.span.end(),
        }),
        Err(e) => Err(LexFailure { message: e.ty.to_string(), offset: e.span.start() }),
    }).collect()
}

/// A lexer error as a plain value.
pub open spec fn failure_view(f: Option<LexFailure>) -> Option<(Seq<char>, u32)> {
    match f {
        Some(f) => Some((f.message@, f.offset)),
        None => None,
    }
}

/// Tokens as plain values.
pub open spec fn tokens_view(s: Seq<LexToken>) -> Seq<LexItem> {
    s.map_values(|t: LexToken| token_view(t))
}

/// The tokens before the first error, and that error if there is one.
pub open spec fn until_failure_v(items: Seq<Result<LexItem, (Seq<char>, u32)>>) -> (Seq<LexItem>, Option<(Seq<char>, u32)>)
    decreases items.len(),
{
    if items.len() == 0 {
        (seq![], None)
    } else {
        let (tokens, failure) = until_failure_v(items.drop_last());
        if failure is Some {
            (tokens, failure)
        } else {
            match items.last() {
                Ok(t) => (tokens.push(t), None),
                Err(e) => (tokens, Some(e)),
            }
        }
    }
}

/// Every token of the lexer's output, or the first error in it.
pub open spec fn all_tokens_of(items: Seq<Result<LexItem, (Seq<char>, u32)>>) -> Result<Seq<LexItem>, (Seq<char>, u32)> {
    match until_failure_v(items) {
        (tokens, None) => Ok(tokens),
        (_, Some(e)) => Err(e),
    }
}

/// Splits the lexer's output at its first error.
pub fn until_failure(items: Vec<Result<LexToken, LexFailure>>) -> (r: (Vec<LexToken>, Option<LexFailure>))
    ensures
        until_failure_v(items_view(items@)) == (
            tokens_view(r.0@),
            failure_view(r.1),
        ),
{
    let ghost iv = items_view(items@);
    let n = items.len();
    let mut pending = items;
    let mut reversed: Vec<Result<LexToken, LexFailure>> = Vec::new();
    while pending.len() > 0
        invariant
            pending@.len() + reversed@.len() == n,
            iv.len() == n,
            forall|j: int| 0 <= j < pending@.len() ==> item_view(#[trigger] pending@[j]) == iv[j],
            forall|j: int| 0 <= j < reversed@.len() ==> item_view(#[trigger] reversed@[j]) == iv[n - 1 - j],
        decreases pending@.len(),
    {
        let item = pending.pop().unwrap();
        reversed.push(item);
    }
    let mut tokens: Vec<LexToken> = Vec::new();
    let mut k: usize = 0;
    assert(iv.take(0) =~= Seq::<Result<LexItem, (Seq<char>, u32)>>::empty());
    while reversed.len() > 0
        invariant
            reversed@.len() + k == n,
            iv == items_view(items@),
            iv.len() == n,
            forall|j: int| 0 <= j < reversed@.len() ==> item_view(#[trigger] reversed@[j]) == iv[n - 1 - j],
            until_failure_v(iv.take(k as int)) == (tokens_view(tokens@), None::<(Seq<char>, u32)>),
        decreases reversed@.len(),
    {
        let item = reversed.pop().unwrap();
        assert(iv.take(k + 1).drop_last() =~= iv.take(k as int));
        assert(item_view(item) == iv[k as int]);
        match item {
            Ok(t) => {
                let ghost before = tokens@;
                tokens.push(t);
                assert(tokens_view(tokens@) =~= tokens_view(before).push(token_view(t)));
            },
            Err(f) => {
                proof {
                    assert(iv.take(k + 1).last() == iv[k as int]);
                    assert(until_failure_v(iv.take(k + 1)) == (
                        tokens_view(tokens@),
                        Some((f.message@, f.offset)),
                    ));
                    lemma_until_failure_stays(iv, (k + 1) as nat);
                }
                return (tokens, Some(f));
            },
        }
        k += 1;
    }
    assert(iv.take(n as int) =~= iv);
    (tokens, None)
}

/// Once an error is met, later items change nothing.
proof fn lemma_until_failure_stays(items: Seq<Result<LexItem, (Seq<char>, u32)>>, k: nat)
    requires
        k <= items.len(),
        until_failure_v(items.take(k as int)).1 is Some,
    ensures
        until_failure_v(items) == until_failure_v(items.take(k as int)),
    decreases items.len() - k,
{
    if k < items.len() {
        assert(items.take((k + 1) as int).drop_last() =~= items.take(k as int));
        lemma_until_failure_stays(items, k + 1);
    } else {
        assert(items.take(k as int) =~= items);
    }
}

} // verus!
