//! Concrete syntax tree built straight from the Steel lexer's token stream.
//!
//! The Steel AST drops comments, so the tree here is assembled from tokens.

use vstd::prelude::*;

use crate::steel::{all_tokens_of, LexItem, items_view, steel_lex, LexFailure, class_of, classify, TokClass, lex_steel, token_view, until_failure, LexToken, TokKind};
use crate::text::{
    byte_len, char_floor, char_index_from, char_width, chars_of, count_newlines, eq_lit,
    last_line_start, lemma_byte_len_take, string_of, trim_end, trimmed_end_len, utf8_width,
};
use crate::{error_view, Error, ErrorV};

verus! {

#[derive(Debug, Clone, Copy, PartialEq, Eq, Structural)]
pub struct Span {
    pub start: u32,
    pub end: u32,
}

/// The shape of a list's delimiters.
#[derive(Debug, Clone, Copy, PartialEq, Eq, Structural)]
pub enum Delim {
    Round,
    Square,
    Curly,
}

/// The reader modifier in front of an opening delimiter.
#[derive(Debug, Clone, Copy, PartialEq, Eq, Structural)]
pub enum Modifier {
    /// `#(`
    Vector,
    /// `#u8(`
    Bytes,
}

pub open spec fn open_char(d: Delim) -> char {
    match d {
        Delim::Round => '(',
        Delim::Square => '[',
        Delim::Curly => '{',
    }
}

pub open spec fn close_char(d: Delim) -> char {
    match d {
        Delim::Round => ')',
        Delim::Square => ']',
        Delim::Curly => '}',
    }
}

impl Delim {
    pub fn open(&self) -> (c: char)
        ensures
            c == open_char(*self),
    {
        match self {
            Delim::Round => '(',
            Delim::Square => '[',
            Delim::Curly => '{',
        }
    }

    pub fn close(&self) -> (c: char)
        ensures
            c == close_char(*self),
    {
        match self {
            Delim::Round => ')',
            Delim::Square => ']',
            Delim::Curly => '}',
        }
    }
}

#[derive(Debug)]
pub struct Node {
    pub kind: NodeKind,
    pub span: Span,
    /// The node is the first thing on its source line.
    pub own_line: bool,
    /// At least one blank line preceded the node in the source.
    pub blank_before: bool,
}

#[derive(Debug)]
pub enum NodeKind {
    Atom(String),
    Comment(Comment),
    List(List),
    Prefix(Prefix),
    /// A `fmt: off` region, reproduced byte for byte.
    Verbatim(String),
}

#[derive(Debug, Clone)]
pub struct Comment {
    pub text: String,
    /// `#| ... |#` rather than `; ...`.
    pub block: bool,
}

#[derive(Debug)]
pub struct List {
    pub open: Delim,
    pub modifier: Option<Modifier>,
    pub items: Vec<Node>,
    /// A pass demanded one item per line regardless of width.
    pub force_break: bool,
}

#[derive(Debug)]
pub struct Prefix {
    pub text: String,
    pub target: Box<Node>,
}

// ---------------------------------------------------------------------------
// The tree as plain values
// ---------------------------------------------------------------------------

pub enum KindV {
    Atom(Seq<char>),
    Comment(Seq<char>, bool),
    List(Delim, Option<Modifier>, Seq<NodeV>, bool),
    Prefix(Seq<char>, Box<NodeV>),
    Verbatim(Seq<char>),
}

pub struct NodeV {
    pub kind: KindV,
    pub span: Span,
    pub own_line: bool,
    pub blank_before: bool,
}

/// A node as a plain value.
pub open spec fn nv(n: Node) -> NodeV
    decreases n,
{
    NodeV {
        kind: match n.kind {
            NodeKind::Atom(t) => KindV::Atom(t@),
            NodeKind::Comment(c) => KindV::Comment(c.text@, c.block),
            NodeKind::List(l) => KindV::List(l.open, l.modifier, nvs(l.items@), l.force_break),
            NodeKind::Prefix(p) => KindV::Prefix(p.text@, Box::new(nv(*p.target))),
            NodeKind::Verbatim(t) => KindV::Verbatim(t@),
        },
        span: n.span,
        own_line: n.own_line,
        blank_before: n.blank_before,
    }
}

/// A sequence of nodes as plain values.
pub open spec fn nvs(s: Seq<Node>) -> Seq<NodeV>
    decreases s,
{
    if s.len() == 0 {
        seq![]
    } else {
        nvs(s.drop_last()).push(nv(s.last()))
    }
}

pub proof fn lemma_nvs(s: Seq<Node>)
    ensures
        nvs(s).len() == s.len(),
        forall|i: int| 0 <= i < s.len() ==> #[trigger] nvs(s)[i] == nv(s[i]),
    decreases s.len(),
{
    if s.len() > 0 {
        lemma_nvs(s.drop_last());
    }
}

pub proof fn lemma_nvs_push(s: Seq<Node>, n: Node)
    ensures
        nvs(s.push(n)) == nvs(s).push(nv(n)),
{
    assert(s.push(n).drop_last() =~= s);
}

/// Whether a node is a comment of either kind.
pub open spec fn is_comment_v(n: NodeV) -> bool {
    n.kind is Comment
}

/// Whether a node is a line comment, which swallows the rest of its line.
pub open spec fn is_line_comment_v(n: NodeV) -> bool {
    match n.kind {
        KindV::Comment(_, block) => !block,
        _ => false,
    }
}

/// The text of an atom.
pub open spec fn atom_text_v(n: NodeV) -> Option<Seq<char>> {
    match n.kind {
        KindV::Atom(t) => Some(t),
        _ => None,
    }
}

/// The name at the head of a list, when the head is an atom.
pub open spec fn head_name_v(n: NodeV) -> Option<Seq<char>> {
    match n.kind {
        KindV::List(_, _, items, _) => if items.len() > 0 {
            atom_text_v(items[0])
        } else {
            None
        },
        _ => None,
    }
}

impl Node {
    pub fn atom_text(&self) -> (r: Option<&str>)
        ensures
            match r {
                Some(t) => atom_text_v(nv(*self)) == Some(t@),
                None => atom_text_v(nv(*self)) is None,
            },
    {
        match &self.kind {
            NodeKind::Atom(text) => Some(text.as_str()),
            _ => None,
        }
    }

    pub fn head_name(&self) -> (r: Option<&str>)
        ensures
            match r {
                Some(t) => head_name_v(nv(*self)) == Some(t@),
                None => head_name_v(nv(*self)) is None,
            },
    {
        match &self.kind {
            NodeKind::List(list) => {
                proof {
                    lemma_nvs(list.items@);
                }
                if list.items.len() > 0 {
                    list.items[0].atom_text()
                } else {
                    None
                }
            },
            _ => None,
        }
    }

    /// A line comment, which swallows the rest of its output line.
    pub fn is_line_comment(&self) -> (r: bool)
        ensures
            r == is_line_comment_v(nv(*self)),
    {
        match &self.kind {
            NodeKind::Comment(comment) => !comment.block,
            _ => false,
        }
    }

    /// The list inside a list node, to change in place.
    pub fn list_mut(&mut self) -> (r: Option<&mut List>)
        ensures
            match r {
                Some(list) => old(self).kind == NodeKind::List(*list) && final(self).kind == NodeKind::List(
                    *final(list),
                ) && final(self).span == old(self).span && final(self).own_line == old(self).own_line
                    && final(self).blank_before == old(self).blank_before,
                None => !(old(self).kind is List) && *final(self) == *old(self),
            },
    {
        match &mut self.kind {
            NodeKind::List(list) => Some(list),
            _ => None,
        }
    }

    /// A comment of either kind.
    pub fn is_comment(&self) -> (r: bool)
        ensures
            r == is_comment_v(nv(*self)),
    {
        match &self.kind {
            NodeKind::Comment(_) => true,
            _ => false,
        }
    }
}

// ---------------------------------------------------------------------------
// Tokens
// ---------------------------------------------------------------------------

/// A token with the layout facts the tree needs about it.
pub struct Tok {
    pub kind: TokKind,
    pub text: Vec<char>,
    pub start: u32,
    pub end: u32,
    pub own_line: bool,
    pub blank_before: bool,
}

pub struct TokV {
    pub kind: TokKind,
    pub text: Seq<char>,
    pub start: u32,
    pub end: u32,
    pub own_line: bool,
    pub blank_before: bool,
}

pub open spec fn tv(t: Tok) -> TokV {
    TokV {
        kind: t.kind,
        text: t.text@,
        start: t.start,
        end: t.end,
        own_line: t.own_line,
        blank_before: t.blank_before,
    }
}

pub open spec fn tvs(s: Seq<Tok>) -> Seq<TokV> {
    s.map_values(|t: Tok| tv(t))
}

/// Whether the character before index `i` of `s`, skipping spaces, tabs and
/// carriage returns, is a newline or the start of the text.
pub open spec fn starts_line_at(s: Seq<char>, i: nat) -> bool
    decreases i,
{
    if i == 0 || i > s.len() {
        i == 0
    } else if s[i - 1] == ' ' || s[i - 1] == '\t' || s[i - 1] == '\r' {
        starts_line_at(s, (i - 1) as nat)
    } else {
        s[i - 1] == '\n'
    }
}

/// Whether at least two newlines lie between the characters at indices `a`
/// and `b`.
pub open spec fn blank_at(s: Seq<char>, a: nat, b: nat) -> bool {
    a <= b <= s.len() && count_newlines(s.subrange(a as int, b as int)) >= 2
}

/// The end of a token: its start plus the bytes of its text without trailing
/// white space, which for a line comment leaves out the newline it swallowed.
pub open spec fn token_end(start: u32, text: Seq<char>) -> u32 {
    if start + byte_len(trim_end(text)) <= u32::MAX {
        (start + byte_len(trim_end(text))) as u32
    } else {
        u32::MAX
    }
}

/// The `i`th token of `raw`, with its end and its layout facts.
pub open spec fn tok_at(source: Seq<char>, raw: Seq<(TokKind, Seq<char>, u32, u32)>, i: int) -> TokV {
    let (kind, text, start, _) = raw[i];
    let previous_end: u32 = if i == 0 {
        0
    } else {
        token_end(raw[i - 1].2, raw[i - 1].1)
    };
    TokV {
        kind,
        text,
        start,
        end: token_end(start, text),
        own_line: starts_line_at(source, char_floor(source, start as nat)),
        blank_before: previous_end < start && blank_at(
            source,
            char_floor(source, previous_end as nat),
            char_floor(source, start as nat),
        ),
    }
}

/// Every token of `raw` with its end and its layout facts.
pub open spec fn toks_of(source: Seq<char>, raw: Seq<(TokKind, Seq<char>, u32, u32)>) -> Seq<TokV> {
    Seq::new(raw.len(), |i: int| tok_at(source, raw, i))
}

fn starts_line(chars: &Vec<char>, at: usize) -> (r: bool)
    requires
        at <= chars@.len(),
    ensures
        r == starts_line_at(chars@, at as nat),
{
    let mut i = at;
    while i > 0 && (chars[i - 1] == ' ' || chars[i - 1] == '\t' || chars[i - 1] == '\r')
        invariant
            i <= at <= chars@.len(),
            starts_line_at(chars@, at as nat) == starts_line_at(chars@, i as nat),
        decreases i,
    {
        i -= 1;
    }
    i == 0 || chars[i - 1] == '\n'
}

fn blank_between(chars: &Vec<char>, a: usize, b: usize) -> (r: bool)
    ensures
        r == blank_at(chars@, a as nat, b as nat),
{
    if a > b || b > chars.len() {
        return false;
    }
    let mut count: usize = 0;
    let mut i = a;
    assert(chars@.subrange(a as int, a as int) =~= Seq::<char>::empty());
    while i < b
        invariant
            a <= i <= b <= chars@.len(),
            count == count_newlines(chars@.subrange(a as int, i as int)),
            count <= i - a,
        decreases b - i,
    {
        assert(chars@.subrange(a as int, i + 1).drop_last() =~= chars@.subrange(a as int, i as int));
        if chars[i] == '\n' {
            count += 1;
        }
        i += 1;
    }
    count >= 2
}

/// The bytes of `s`, or `cap` when there are more.
fn bytes_capped(s: &[char], cap: u32) -> (n: u32)
    ensures
        n == if byte_len(s@) <= cap {
            byte_len(s@)
        } else {
            cap as nat
        },
{
    let mut n: u32 = 0;
    let mut i: usize = 0;
    while i < s.len()
        invariant
            i <= s@.len(),
            n == byte_len(s@.take(i as int)),
            n <= cap,
        decreases s@.len() - i,
    {
        proof {
            lemma_byte_len_take(s@, i as int);
            crate::text::lemma_byte_len_prefix_le(s@, i + 1);
        }
        let w = char_width(s[i]) as u32;
        if w > cap - n {
            proof {
                crate::text::lemma_byte_len_prefix_le(s@, i + 1);
            }
            return cap;
        }
        n = n + w;
        i += 1;
    }
    assert(s@.take(s@.len() as int) =~= s@);
    n
}

fn end_of(start: u32, text: &[char]) -> (end: u32)
    ensures
        end == token_end(start, text@),
{
    let keep = trimmed_end_len(text);
    let trimmed = &text[0..keep];
    assert(trimmed@ =~= text@.take(keep as int));
    let bytes = bytes_capped(trimmed, u32::MAX - start);
    start + bytes
}

/// Lexes `source` into tokens that know where they sit on their lines.
fn lex(source: &str, chars: &Vec<char>, items: Vec<Result<LexToken, LexFailure>>) -> (r: Result<Vec<Tok>, Error>)
    requires
        chars@ == source@,
    ensures
        match (all_tokens_of(items_view(items@)), r) {
            (Ok(raw), Ok(toks)) => tvs(toks@) == toks_of(source@, raw),
            (Err((message, offset)), Err(Error::Lex { message: m, offset: o })) => m@ == message
                && o == offset,
            _ => false,
        },
{
    let ghost iv = items_view(items@);
    let (raw, failure) = until_failure(items);
    match failure {
        Some(failure) => {
            return Err(Error::Lex { message: failure.message, offset: failure.offset });
        },
        None => {},
    }
    let ghost rv = raw@.map_values(|t: LexToken| token_view(t));
    let mut toks: Vec<Tok> = Vec::new();
    let mut previous_end: u32 = 0;
    let mut at_char: usize = 0;
    let mut at_byte: usize = 0;
    assert(chars@.take(0) =~= Seq::<char>::empty());
    let mut i: usize = 0;
    while i < raw.len()
        invariant
            chars@ == source@,
            rv == raw@.map_values(|t: LexToken| token_view(t)),
            all_tokens_of(iv) == Ok::<_, (Seq<char>, u32)>(rv),
            i <= raw@.len(),
            at_char <= chars@.len(),
            at_byte == byte_len(chars@.take(at_char as int)),
            previous_end == if i == 0 {
                0u32
            } else {
                token_end(rv[i - 1].2, rv[i - 1].1)
            },
            tvs(toks@) == toks_of(source@, rv).take(i as int),
        decreases raw@.len() - i,
    {
        let t = &raw[i];
        let text = chars_of(t.text.as_str());
        let start = t.start;
        let (from_char, from_byte) = char_index_from(chars, at_char, at_byte, previous_end);
        let (start_char, start_byte) = char_index_from(chars, from_char, from_byte, start);
        at_char = start_char;
        at_byte = start_byte;
        let own_line = starts_line(chars, start_char);
        let blank_before = previous_end < start && blank_between(chars, from_char, start_char);
        let end = end_of(start, text.as_slice());
        let ghost prev = tvs(toks@);
        toks.push(Tok { kind: t.kind, text, start, end, own_line, blank_before });
        proof {
            assert(rv[i as int] == token_view(raw@[i as int]));
            assert(tvs(toks@) =~= prev.push(tok_at(source@, rv, i as int)));
            assert(toks_of(source@, rv).take(i + 1) =~= toks_of(source@, rv).take(i as int).push(
                tok_at(source@, rv, i as int),
            ));
        }
        previous_end = end;
        i += 1;
    }
    assert(toks_of(source@, rv).take(raw@.len() as int) =~= toks_of(source@, rv));
    Ok(toks)
}


// ---------------------------------------------------------------------------
// Assembling the tree
// ---------------------------------------------------------------------------

/// A quote-like prefix waiting for the datum it applies to.
pub struct Pending {
    pub text: Vec<char>,
    pub start: u32,
    pub own_line: bool,
    pub blank_before: bool,
}

pub struct PendingV {
    pub text: Seq<char>,
    pub start: u32,
    pub own_line: bool,
    pub blank_before: bool,
}

pub open spec fn pv(p: Pending) -> PendingV {
    PendingV { text: p.text@, start: p.start, own_line: p.own_line, blank_before: p.blank_before }
}

/// An open list being filled, or the root.
pub struct Frame {
    pub open: Delim,
    pub modifier: Option<Modifier>,
    pub start: u32,
    pub own_line: bool,
    pub blank_before: bool,
    pub items: Vec<Node>,
    pub pending: Vec<Pending>,
}

pub struct FrameV {
    pub open: Delim,
    pub modifier: Option<Modifier>,
    pub start: u32,
    pub own_line: bool,
    pub blank_before: bool,
    pub items: Seq<NodeV>,
    pub pending: Seq<PendingV>,
}

pub open spec fn fv(f: Frame) -> FrameV {
    FrameV {
        open: f.open,
        modifier: f.modifier,
        start: f.start,
        own_line: f.own_line,
        blank_before: f.blank_before,
        items: nvs(f.items@),
        pending: f.pending@.map_values(|p: Pending| pv(p)),
    }
}

pub open spec fn fvs(s: Seq<Frame>) -> Seq<FrameV> {
    s.map_values(|f: Frame| fv(f))
}

pub open spec fn root_frame() -> FrameV {
    FrameV {
        open: Delim::Round,
        modifier: None,
        start: 0,
        own_line: true,
        blank_before: false,
        items: seq![],
        pending: seq![],
    }
}

/// `node` wrapped in the prefixes waiting for it, the last one innermost.
pub open spec fn wrap_pending(pending: Seq<PendingV>, node: NodeV) -> NodeV
    decreases pending.len(),
{
    if pending.len() == 0 {
        node
    } else {
        let p = pending.last();
        wrap_pending(
            pending.drop_last(),
            NodeV {
                kind: KindV::Prefix(p.text, Box::new(node)),
                span: Span { start: p.start, end: node.span.end },
                own_line: p.own_line,
                blank_before: p.blank_before,
            },
        )
    }
}

/// A frame that has taken `node` as its next datum.
pub open spec fn with_datum(f: FrameV, node: NodeV) -> FrameV {
    FrameV { items: f.items.push(wrap_pending(f.pending, node)), pending: seq![], ..f }
}

/// A frame that has taken `node` as its next item, leaving prefixes waiting.
pub open spec fn with_item(f: FrameV, node: NodeV) -> FrameV {
    FrameV { items: f.items.push(node), ..f }
}

/// The delimiter an opening token ends in.
pub open spec fn open_delim(t: Seq<char>) -> Delim {
    if t.len() > 0 && t.last() == '[' {
        Delim::Square
    } else if t.len() > 0 && t.last() == '{' {
        Delim::Curly
    } else {
        Delim::Round
    }
}

/// The modifier an opening token starts with.
pub open spec fn open_modifier(t: Seq<char>) -> Option<Modifier> {
    if t.len() > 0 && t.drop_last() == "#"@ {
        Some(Modifier::Vector)
    } else if t.len() > 0 && t.drop_last() == "#u8"@ {
        Some(Modifier::Bytes)
    } else {
        None
    }
}

/// The delimiter a closing token is.
pub open spec fn close_delim(t: Seq<char>) -> Delim {
    if t.len() > 0 && t[0] == ']' {
        Delim::Square
    } else if t.len() > 0 && t[0] == '}' {
        Delim::Curly
    } else {
        Delim::Round
    }
}

/// Whether `t` begins with `p`.
pub open spec fn has_prefix(t: Seq<char>, p: Seq<char>) -> bool {
    p.len() <= t.len() && t.take(p.len() as int) == p
}

/// One token's effect on the stack of open lists.
pub open spec fn step(stack: Seq<FrameV>, t: TokV) -> Result<Seq<FrameV>, Error> {
    let top = stack.last();
    match class_of(t.kind) {
        TokClass::Open => Ok(
            stack.push(
                FrameV {
                    open: open_delim(t.text),
                    modifier: open_modifier(t.text),
                    start: t.start,
                    own_line: t.own_line,
                    blank_before: t.blank_before,
                    items: seq![],
                    pending: seq![],
                },
            ),
        ),
        TokClass::Close => if stack.len() <= 1 {
            Err(Error::UnexpectedClose { offset: t.start })
        } else if top.pending.len() > 0 {
            Err(Error::DanglingPrefix { offset: t.start })
        } else if top.open != close_delim(t.text) {
            Err(Error::MismatchedDelimiter { offset: t.start })
        } else {
            let node = NodeV {
                kind: KindV::List(top.open, top.modifier, top.items, false),
                span: Span { start: top.start, end: t.end },
                own_line: top.own_line,
                blank_before: top.blank_before,
            };
            let rest = stack.drop_last();
            Ok(rest.update(rest.len() - 1, with_datum(rest.last(), node)))
        },
        TokClass::Comment => {
            let text = trim_end(t.text);
            let node = NodeV {
                kind: KindV::Comment(text, has_prefix(text, "#|"@)),
                span: Span { start: t.start, end: t.end },
                own_line: t.own_line,
                blank_before: t.blank_before,
            };
            Ok(stack.update(stack.len() - 1, with_item(top, node)))
        },
        TokClass::Prefix => Ok(
            stack.update(
                stack.len() - 1,
                FrameV {
                    pending: top.pending.push(
                        PendingV {
                            text: t.text,
                            start: t.start,
                            own_line: t.own_line,
                            blank_before: t.blank_before,
                        },
                    ),
                    ..top
                },
            ),
        ),
        TokClass::Other => {
            let node = NodeV {
                kind: KindV::Atom(t.text),
                span: Span { start: t.start, end: t.end },
                own_line: t.own_line,
                blank_before: t.blank_before,
            };
            Ok(stack.update(stack.len() - 1, with_datum(top, node)))
        },
    }
}

/// The stack of open lists after the tokens `toks`.
pub open spec fn run(toks: Seq<TokV>) -> Result<Seq<FrameV>, Error>
    decreases toks.len(),
{
    if toks.len() == 0 {
        Ok(seq![root_frame()])
    } else {
        match run(toks.drop_last()) {
            Ok(stack) => step(stack, toks.last()),
            Err(e) => Err(e),
        }
    }
}

/// The top-level forms the tokens make, or why they make none.
pub open spec fn assembled(toks: Seq<TokV>) -> Result<Seq<NodeV>, Error> {
    match run(toks) {
        Err(e) => Err(e),
        Ok(stack) => if stack.len() > 1 {
            Err(Error::UnclosedList { offset: stack.last().start })
        } else if stack[0].pending.len() > 0 {
            Err(Error::DanglingPrefix { offset: stack[0].pending[0].start })
        } else {
            Ok(stack[0].items)
        },
    }
}

proof fn lemma_run_nonempty(toks: Seq<TokV>)
    ensures
        run(toks) matches Ok(stack) ==> stack.len() >= 1,
    decreases toks.len(),
{
    if toks.len() > 0 {
        lemma_run_nonempty(toks.drop_last());
    }
}

/// An error stops the run: later tokens cannot undo it.
proof fn lemma_run_error_stays(ts: Seq<TokV>, k: int)
    requires
        0 <= k <= ts.len(),
        run(ts.take(k)) is Err,
    ensures
        run(ts) == run(ts.take(k)),
    decreases ts.len() - k,
{
    if k == ts.len() {
        assert(ts.take(k) =~= ts);
    } else {
        assert(ts.take(k + 1).drop_last() =~= ts.take(k));
        lemma_run_error_stays(ts, k + 1);
    }
}

fn push_datum(frame: &mut Frame, node: Node)
    ensures
        fv(*final(frame)) == with_datum(fv(*old(frame)), nv(node)),
{
    let ghost orig = nv(node);
    let mut node = node;
    let ghost goal = wrap_pending(fv(*frame).pending, nv(node));
    while frame.pending.len() > 0
        invariant
            wrap_pending(fv(*frame).pending, nv(node)) == goal,
            frame.items@ == old(frame).items@,
            frame.open == old(frame).open,
            frame.modifier == old(frame).modifier,
            frame.start == old(frame).start,
            frame.own_line == old(frame).own_line,
            frame.blank_before == old(frame).blank_before,
        decreases frame.pending@.len(),
    {
        let ghost before = fv(*frame).pending;
        let p = frame.pending.pop().unwrap();
        assert(fv(*frame).pending =~= before.drop_last());
        let text = string_of(p.text.as_slice());
        let end = node.span.end;
        node = Node {
            kind: NodeKind::Prefix(Prefix { text, target: Box::new(node) }),
            span: Span { start: p.start, end },
            own_line: p.own_line,
            blank_before: p.blank_before,
        };
    }
    assert(fv(*frame).pending =~= Seq::<PendingV>::empty());
    let ghost items = frame.items@;
    frame.items.push(node);
    proof {
        lemma_nvs_push(items, node);
    }
    assert(fv(*frame) =~= with_datum(fv(*old(frame)), orig));
}


fn new_frame(t: &Tok) -> (f: Frame)
    ensures
        fv(f) == (FrameV {
            open: open_delim(t.text@),
            modifier: open_modifier(t.text@),
            start: t.start,
            own_line: t.own_line,
            blank_before: t.blank_before,
            items: seq![],
            pending: seq![],
        }),
{
    let n = t.text.len();
    let open = if n > 0 && t.text[n - 1] == '[' {
        Delim::Square
    } else if n > 0 && t.text[n - 1] == '{' {
        Delim::Curly
    } else {
        Delim::Round
    };
    let modifier = if n > 0 && eq_lit(&t.text.as_slice()[0..n - 1], "#") {
        Some(Modifier::Vector)
    } else if n > 0 && eq_lit(&t.text.as_slice()[0..n - 1], "#u8") {
        Some(Modifier::Bytes)
    } else {
        None
    };
    proof {
        if n > 0 {
            assert(t.text@.subrange(0, n - 1) =~= t.text@.drop_last());
        }
    }
    let f = Frame {
        open,
        modifier,
        start: t.start,
        own_line: t.own_line,
        blank_before: t.blank_before,
        items: Vec::new(),
        pending: Vec::new(),
    };
    assert(fv(f).items =~= Seq::<NodeV>::empty());
    assert(fv(f).pending =~= Seq::<PendingV>::empty());
    f
}

fn close_of(text: &Vec<char>) -> (d: Delim)
    ensures
        d == close_delim(text@),
{
    if text.len() > 0 && text[0] == ']' {
        Delim::Square
    } else if text.len() > 0 && text[0] == '}' {
        Delim::Curly
    } else {
        Delim::Round
    }
}

fn starts_with_block(text: &[char]) -> (r: bool)
    ensures
        r == has_prefix(text@, "#|"@),
{
    crate::text::starts_with_lit(text, "#|")
}

/// Assembles tokens into top-level forms.
fn assemble(tokens: &Vec<Tok>) -> (r: Result<Vec<Node>, Error>)
    ensures
        match r {
            Ok(nodes) => assembled(tvs(tokens@)) == Ok::<Seq<NodeV>, Error>(nvs(nodes@)),
            Err(e) => assembled(tvs(tokens@)) == Err::<Seq<NodeV>, Error>(e),
        },
{
    let ghost ts = tvs(tokens@);
    let mut stack: Vec<Frame> = Vec::new();
    stack.push(
        Frame {
            open: Delim::Round,
            modifier: None,
            start: 0,
            own_line: true,
            blank_before: false,
            items: Vec::new(),
            pending: Vec::new(),
        },
    );
    assert(nvs(stack@[0].items@) =~= Seq::<NodeV>::empty());
    assert(fv(stack@[0]).pending =~= Seq::<PendingV>::empty());
    assert(fvs(stack@) =~= seq![root_frame()]);
    assert(ts.take(0) =~= Seq::<TokV>::empty());
    let mut i: usize = 0;
    while i < tokens.len()
        invariant
            ts == tvs(tokens@),
            i <= tokens@.len(),
            stack@.len() >= 1,
            run(ts.take(i as int)) == Ok::<Seq<FrameV>, Error>(fvs(stack@)),
        decreases tokens@.len() - i,
    {
        let token = &tokens[i];
        assert(ts.take(i + 1).drop_last() =~= ts.take(i as int));
        assert(ts.take(i + 1).last() == tv(*token));
        let ghost before = fvs(stack@);
        match classify(token.kind) {
            TokClass::Open => {
                stack.push(new_frame(token));
                assert(fvs(stack@) =~= step(before, tv(*token))->Ok_0);
            },
            TokClass::Close => {
                if stack.len() == 1 {
                    proof {
                        lemma_run_error_stays(ts, i + 1);
                    }
                    return Err(Error::UnexpectedClose { offset: token.start });
                }
                let frame = stack.pop().unwrap();
                if frame.pending.len() > 0 {
                    proof {
                        lemma_run_error_stays(ts, i + 1);
                    }
                    return Err(Error::DanglingPrefix { offset: token.start });
                }
                if frame.open != close_of(&token.text) {
                    proof {
                        lemma_run_error_stays(ts, i + 1);
                    }
                    return Err(Error::MismatchedDelimiter { offset: token.start });
                }
                let node = Node {
                    kind: NodeKind::List(
                        List {
                            open: frame.open,
                            modifier: frame.modifier,
                            items: frame.items,
                            force_break: false,
                        },
                    ),
                    span: Span { start: frame.start, end: token.end },
                    own_line: frame.own_line,
                    blank_before: frame.blank_before,
                };
                let mut parent = stack.pop().unwrap();
                push_datum(&mut parent, node);
                stack.push(parent);
                assert(fvs(stack@) =~= step(before, tv(*token))->Ok_0);
            },
            TokClass::Comment => {
                let keep = trimmed_end_len(token.text.as_slice());
                let trimmed = &token.text.as_slice()[0..keep];
                assert(trimmed@ =~= trim_end(token.text@));
                let block = starts_with_block(trimmed);
                let node = Node {
                    kind: NodeKind::Comment(Comment { text: string_of(trimmed), block }),
                    span: Span { start: token.start, end: token.end },
                    own_line: token.own_line,
                    blank_before: token.blank_before,
                };
                let mut top = stack.pop().unwrap();
                let ghost items = top.items@;
                top.items.push(node);
                proof {
                    lemma_nvs_push(items, node);
                }
                stack.push(top);
                assert(fvs(stack@) =~= step(before, tv(*token))->Ok_0);
            },
            TokClass::Prefix => {
                let mut top = stack.pop().unwrap();
                let ghost pend = top.pending@;
                top.pending.push(
                    Pending {
                        text: crate::text::copy_chars(token.text.as_slice()),
                        start: token.start,
                        own_line: token.own_line,
                        blank_before: token.blank_before,
                    },
                );
                assert(fv(top).pending =~= pend.map_values(|p: Pending| pv(p)).push(
                    pv(top.pending@.last()),
                ));
                stack.push(top);
                assert(fvs(stack@) =~= step(before, tv(*token))->Ok_0);
            },
            TokClass::Other => {
                let node = Node {
                    kind: NodeKind::Atom(string_of(token.text.as_slice())),
                    span: Span { start: token.start, end: token.end },
                    own_line: token.own_line,
                    blank_before: token.blank_before,
                };
                let mut top = stack.pop().unwrap();
                push_datum(&mut top, node);
                stack.push(top);
                assert(fvs(stack@) =~= step(before, tv(*token))->Ok_0);
            },
        }
        i += 1;
    }
    assert(ts.take(tokens@.len() as int) =~= ts);
    if stack.len() > 1 {
        let last = stack.len() - 1;
        return Err(Error::UnclosedList { offset: stack[last].start });
    }
    let root = stack.pop().unwrap();
    if root.pending.len() > 0 {
        return Err(Error::DanglingPrefix { offset: root.pending[0].start });
    }
    Ok(root.items)
}


// ---------------------------------------------------------------------------
// Protected regions
// ---------------------------------------------------------------------------

/// `t` without its leading semicolons.
pub open spec fn strip_semicolons(t: Seq<char>) -> Seq<char>
    decreases t.len(),
{
    if t.len() > 0 && t[0] == ';' {
        strip_semicolons(t.drop_first())
    } else {
        t
    }
}

/// `t` without white space at either end.
pub open spec fn trim(t: Seq<char>) -> Seq<char> {
    trim_end(crate::text::trim_start(t))
}

/// Recognises `;; fmt: off` (`Some(false)`) and `;; fmt: on` (`Some(true)`),
/// any number of leading semicolons.
pub open spec fn fmt_marker_v(text: Seq<char>) -> Option<bool> {
    let body = trim(strip_semicolons(text));
    if has_prefix(body, "fmt:"@) {
        let rest = trim(body.skip(4));
        if rest == "off"@ {
            Some(false)
        } else if rest == "on"@ {
            Some(true)
        } else {
            None
        }
    } else {
        None
    }
}

/// The span of the first top-level form that contains `offset`, or an empty
/// span at `offset`.
pub open spec fn enclosing(nodes: Seq<NodeV>, offset: u32) -> (u32, u32)
    decreases nodes.len(),
{
    if nodes.len() == 0 {
        (offset, offset)
    } else if nodes[0].span.start <= offset < nodes[0].span.end {
        (nodes[0].span.start, nodes[0].span.end)
    } else {
        enclosing(nodes.drop_first(), offset)
    }
}

/// The byte offset of the start of the line `offset` falls on.
pub open spec fn line_start_at(s: Seq<char>, offset: u32) -> u32 {
    bytes_u32(s.take(last_line_start(s.take(char_floor(s, offset as nat) as int)) as int))
}

/// The byte length of `s`, saturating at the largest offset a token can carry.
pub open spec fn bytes_u32(s: Seq<char>) -> u32 {
    if byte_len(s) <= u32::MAX {
        byte_len(s) as u32
    } else {
        u32::MAX
    }
}

/// The character index of the first newline at or after `i`, or the end.
pub open spec fn next_newline(s: Seq<char>, i: nat) -> nat
    decreases s.len() - i,
{
    if i >= s.len() {
        s.len()
    } else if s[i as int] == '\n' {
        i
    } else {
        next_newline(s, i + 1)
    }
}

/// The byte offset of the end of the line `offset` falls on.
pub open spec fn line_end_at(s: Seq<char>, offset: u32) -> u32 {
    bytes_u32(s.take(next_newline(s, char_floor(s, offset as nat)) as int))
}

/// Whether a token is a `fmt:` marker of the given direction.
pub open spec fn is_marker(t: TokV, on: bool) -> bool {
    t.kind == TokKind::Comment && fmt_marker_v(t.text) == Some(on)
}

/// The index of the first `fmt: on` marker at or after `cursor`, or the end.
pub open spec fn next_on(toks: Seq<TokV>, cursor: nat) -> nat
    decreases toks.len() - cursor,
{
    if cursor >= toks.len() {
        cursor
    } else if is_marker(toks[cursor as int], true) {
        cursor
    } else {
        next_on(toks, cursor + 1)
    }
}

pub proof fn lemma_next_on(toks: Seq<TokV>, cursor: nat)
    ensures
        next_on(toks, cursor) >= cursor,
        cursor <= toks.len() ==> next_on(toks, cursor) <= toks.len(),
        next_on(toks, cursor) < toks.len() ==> is_marker(toks[next_on(toks, cursor) as int], true),
    decreases toks.len() - cursor,
{
    if cursor < toks.len() && !is_marker(toks[cursor as int], true) {
        lemma_next_on(toks, cursor + 1);
    }
}

pub open spec fn min_u32(a: u32, b: u32) -> u32 {
    if a <= b {
        a
    } else {
        b
    }
}

pub open spec fn max_u32(a: u32, b: u32) -> u32 {
    if a >= b {
        a
    } else {
        b
    }
}

/// The first start and last end among `a`, `b` and the top-level forms
/// that overlap the byte range `[a, b)`.
pub open spec fn spread(nodes: Seq<NodeV>, a: u32, b: u32) -> (u32, u32)
    decreases nodes.len(),
{
    if nodes.len() == 0 {
        (a, b)
    } else {
        let (x, y) = spread(nodes.drop_last(), a, b);
        let n = nodes.last();
        if n.span.start < b && n.span.end > a {
            (min_u32(x, n.span.start), max_u32(y, n.span.end))
        } else {
            (x, y)
        }
    }
}

pub proof fn lemma_spread(nodes: Seq<NodeV>, a: u32, b: u32)
    ensures
        spread(nodes, a, b).0 <= a,
        spread(nodes, a, b).1 >= b,
        forall|i: int|
            0 <= i < nodes.len() && #[trigger] nodes[i].span.start < b && nodes[i].span.end > a ==> spread(
                nodes,
                a,
                b,
            ).0 <= nodes[i].span.start && nodes[i].span.end <= spread(nodes, a, b).1,
    decreases nodes.len(),
{
    if nodes.len() > 0 {
        lemma_spread(nodes.drop_last(), a, b);
        assert forall|i: int|
            0 <= i < nodes.len() && #[trigger] nodes[i].span.start < b && nodes[i].span.end > a implies spread(
                nodes,
                a,
                b,
            ).0 <= nodes[i].span.start && nodes[i].span.end <= spread(nodes, a, b).1 by {
            if i < nodes.len() - 1 {
                assert(nodes.drop_last()[i] == nodes[i]);
            }
        }
    }
}

/// `[a, b)` grown, again and again, to whole lines and to the whole of every
/// top-level form it overlaps, until nothing more is gained.
pub open spec fn widen(s: Seq<char>, nodes: Seq<NodeV>, a: u32, b: u32) -> (u32, u32)
    decreases a, u32::MAX - b,
{
    let (x, y) = spread(nodes, a, b);
    let a2 = min_u32(x, line_start_at(s, x));
    let b2 = max_u32(y, line_end_at(s, y));
    if a2 == a && b2 == b {
        (a, b)
    } else {
        proof {
            lemma_spread(nodes, a, b);
        }
        widen(s, nodes, a2, b2)
    }
}

/// A widened range holds the whole of every top-level form it overlaps.
pub proof fn lemma_widen_whole_forms(s: Seq<char>, nodes: Seq<NodeV>, a: u32, b: u32)
    ensures
        forall|i: int|
            0 <= i < nodes.len() && #[trigger] nodes[i].span.start < widen(s, nodes, a, b).1
                && nodes[i].span.end > widen(s, nodes, a, b).0 ==> widen(s, nodes, a, b).0
                <= nodes[i].span.start && nodes[i].span.end <= widen(s, nodes, a, b).1,
    decreases a, u32::MAX - b,
{
    lemma_spread(nodes, a, b);
    let (x, y) = spread(nodes, a, b);
    let a2 = min_u32(x, line_start_at(s, x));
    let b2 = max_u32(y, line_end_at(s, y));
    if !(a2 == a && b2 == b) {
        lemma_widen_whole_forms(s, nodes, a2, b2);
    }
}

/// The byte ranges the formatter must reproduce untouched, from token `index`
/// on: from the line of each `fmt: off` marker, or of the top-level form
/// holding it, to the end of the line of the next `fmt: on` marker, or of the
/// form holding that, widened to the whole of every top-level form the range
/// overlaps. An unmatched `fmt: off` protects the rest of the file.
pub open spec fn protected_from(s: Seq<char>, toks: Seq<TokV>, nodes: Seq<NodeV>, index: nat) -> Seq<
    (u32, u32),
>
    decreases toks.len() + 1 - index,
{
    if index >= toks.len() {
        seq![]
    } else if !is_marker(toks[index as int], false) {
        protected_from(s, toks, nodes, index + 1)
    } else {
        let t = toks[index as int];
        let start = line_start_at(s, min_u32(enclosing(nodes, t.start).0, t.start));
        let cursor = next_on(toks, index + 1);
        let end = if cursor < toks.len() {
            let c = toks[cursor as int];
            line_end_at(s, max_u32(enclosing(nodes, c.start).1, c.end))
        } else {
            bytes_u32(s)
        };
        proof {
            lemma_next_on(toks, index + 1);
        }
        seq![widen(s, nodes, start, end)] + protected_from(s, toks, nodes, cursor + 1)
    }
}

/// Whether the byte range `r` holds the whole of every top-level form it
/// overlaps.
pub open spec fn covers_whole_forms(r: (u32, u32), nodes: Seq<NodeV>) -> bool {
    forall|i: int|
        0 <= i < nodes.len() && #[trigger] nodes[i].span.start < r.1 && nodes[i].span.end > r.0 ==> r.0
            <= nodes[i].span.start && nodes[i].span.end <= r.1
}

/// Rule L20: every protected range covers whole top-level forms.
pub proof fn lemma_protected_ranges_cover_whole_forms(s: Seq<char>, toks: Seq<TokV>, nodes: Seq<NodeV>, index: nat)
    ensures
        forall|k: int|
            0 <= k < protected_from(s, toks, nodes, index).len() ==> covers_whole_forms(
                #[trigger] protected_from(s, toks, nodes, index)[k],
                nodes,
            ),
    decreases toks.len() + 1 - index,
{
    if index < toks.len() {
        if !is_marker(toks[index as int], false) {
            lemma_protected_ranges_cover_whole_forms(s, toks, nodes, index + 1);
            assert(protected_from(s, toks, nodes, index) == protected_from(s, toks, nodes, index + 1));
        } else {
            let t = toks[index as int];
            let start = line_start_at(s, min_u32(enclosing(nodes, t.start).0, t.start));
            let cursor = next_on(toks, index + 1);
            let end = if cursor < toks.len() {
                let c = toks[cursor as int];
                line_end_at(s, max_u32(enclosing(nodes, c.start).1, c.end))
            } else {
                bytes_u32(s)
            };
            lemma_next_on(toks, index + 1);
            lemma_widen_whole_forms(s, nodes, start, end);
            lemma_protected_ranges_cover_whole_forms(s, toks, nodes, cursor + 1);
            let rest = protected_from(s, toks, nodes, cursor + 1);
            let all = protected_from(s, toks, nodes, index);
            assert(all == seq![widen(s, nodes, start, end)] + rest);
            let w = widen(s, nodes, start, end);
            assert(t == toks[index as int]);
            assert(covers_whole_forms(w, nodes)) by {
                assert forall|i: int|
                    0 <= i < nodes.len() && #[trigger] nodes[i].span.start < w.1 && nodes[i].span.end > w.0 implies w.0
                        <= nodes[i].span.start && nodes[i].span.end <= w.1 by {}
            }
            assert forall|k: int| 0 <= k < all.len() implies covers_whole_forms(#[trigger] all[k], nodes) by {
                if k > 0 {
                    assert(all[k] == rest[k - 1]);
                } else {
                    assert(all[0] == w);
                }
            }
        }
    }
}

/// The characters between two byte offsets.
pub open spec fn slice_at(s: Seq<char>, a: u32, b: u32) -> Seq<char> {
    let ca = char_floor(s, a as nat);
    let cb = char_floor(s, b as nat);
    if ca <= cb {
        s.subrange(ca as int, cb as int)
    } else {
        seq![]
    }
}

/// The index of the first range that overlaps `span`.
pub open spec fn first_hit(ranges: Seq<(u32, u32)>, span: Span) -> Option<nat>
    decreases ranges.len(),
{
    if ranges.len() == 0 {
        None
    } else if span.start < ranges[0].1 && span.end > ranges[0].0 {
        Some(0)
    } else {
        match first_hit(ranges.drop_first(), span) {
            Some(j) => Some(j + 1),
            None => None,
        }
    }
}

/// The node that stands for a protected range.
pub open spec fn verbatim_node(s: Seq<char>, range: (u32, u32), blank_before: bool) -> NodeV {
    NodeV {
        kind: KindV::Verbatim(trim_end(slice_at(s, range.0, range.1))),
        span: Span { start: range.0, end: range.1 },
        own_line: true,
        blank_before,
    }
}

/// The first `k` top-level forms with every protected range folded into one
/// verbatim node, and which ranges have been emitted so far.
pub open spec fn folded(s: Seq<char>, nodes: Seq<NodeV>, ranges: Seq<(u32, u32)>, k: nat) -> (
    Seq<NodeV>,
    Seq<bool>,
)
    decreases k,
{
    if k == 0 || k > nodes.len() {
        (seq![], Seq::new(ranges.len(), |i: int| false))
    } else {
        let (out, consumed) = folded(s, nodes, ranges, (k - 1) as nat);
        let node = nodes[k - 1];
        match first_hit(ranges, node.span) {
            None => (out.push(node), consumed),
            Some(h) => if consumed[h as int] {
                (out, consumed)
            } else {
                (
                    out.push(verbatim_node(s, ranges[h as int], node.blank_before)),
                    consumed.update(h as int, true),
                )
            },
        }
    }
}

/// The top-level forms of `source`, with protected regions folded.
pub open spec fn with_protected(s: Seq<char>, toks: Seq<TokV>, nodes: Seq<NodeV>) -> Seq<NodeV> {
    let ranges = protected_from(s, toks, nodes, 0);
    folded(s, nodes, ranges, nodes.len()).0
}

/// The concrete syntax tree of `source`, or why there is none.
pub open spec fn tree_of(source: Seq<char>) -> Result<Seq<NodeV>, ErrorV> {
    tree_of_items(source, steel_lex(source))
}

/// The concrete syntax tree of `source` from the lexer's output `items` for
/// it, or why there is none.
pub open spec fn tree_of_items(source: Seq<char>, items: Seq<Result<LexItem, (Seq<char>, u32)>>) -> Result<Seq<NodeV>, ErrorV> {
    match all_tokens_of(items) {
        Err((message, offset)) => Err(ErrorV::Lex(message, offset)),
        Ok(raw) => {
            let toks = toks_of(source, raw);
            match assembled(toks) {
                Err(e) => Err(error_view(e)),
                Ok(nodes) => Ok(with_protected(source, toks, nodes)),
            }
        },
    }
}


fn u32_bytes(s: &[char]) -> (n: u32)
    ensures
        n == bytes_u32(s@),
{
    bytes_capped(s, u32::MAX)
}

/// The start and end of `t` once trimmed at both ends.
fn trim_bounds(t: &[char]) -> (r: (usize, usize))
    ensures
        r.0 <= r.1 <= t@.len(),
        trim(t@) == t@.subrange(r.0 as int, r.1 as int),
{
    let a = crate::text::trimmed_start_len(t);
    let rest = &t[a..t.len()];
    let keep = trimmed_end_len(rest);
    assert(rest@.take(keep as int) =~= t@.subrange(a as int, a + keep));
    (a, a + keep)
}

fn fmt_marker(text: &[char]) -> (r: Option<bool>)
    ensures
        r == fmt_marker_v(text@),
{
    let n = text.len();
    let mut k: usize = 0;
    assert(text@.skip(0) =~= text@);
    while k < n && text[k] == ';'
        invariant
            k <= n == text@.len(),
            strip_semicolons(text@) == strip_semicolons(text@.skip(k as int)),
        decreases n - k,
    {
        assert(text@.skip(k as int).drop_first() =~= text@.skip(k + 1));
        k += 1;
    }
    let stripped = &text[k..n];
    assert(stripped@ =~= text@.skip(k as int));
    let (a, b) = trim_bounds(stripped);
    let body = &stripped[a..b];
    assert(body@ =~= trim(strip_semicolons(text@)));
    if !crate::text::starts_with_lit(body, "fmt:") {
        return None;
    }
    proof {
        reveal_strlit("fmt:");
    }
    let after = &body[4..body.len()];
    assert(after@ =~= body@.skip(4));
    let (c, d) = trim_bounds(after);
    let rest = &after[c..d];
    if eq_lit(rest, "off") {
        Some(false)
    } else if eq_lit(rest, "on") {
        Some(true)
    } else {
        None
    }
}

fn is_marker_tok(t: &Tok, on: bool) -> (r: bool)
    ensures
        r == is_marker(tv(*t), on),
{
    match t.kind {
        TokKind::Comment => fmt_marker(t.text.as_slice()) == Some(on),
        _ => false,
    }
}

fn enclosing_span(nodes: &Vec<Node>, offset: u32) -> (r: (u32, u32))
    ensures
        r == enclosing(nvs(nodes@), offset),
{
    let ghost ns = nvs(nodes@);
    proof {
        lemma_nvs(nodes@);
    }
    let mut i: usize = 0;
    assert(ns.skip(0) =~= ns);
    while i < nodes.len()
        invariant
            ns == nvs(nodes@),
            ns.len() == nodes@.len(),
            forall|j: int| 0 <= j < nodes@.len() ==> #[trigger] ns[j] == nv(nodes@[j]),
            i <= nodes@.len(),
            enclosing(ns, offset) == enclosing(ns.skip(i as int), offset),
        decreases nodes@.len() - i,
    {
        assert(ns.skip(i as int)[0] == ns[i as int]);
        let span = nodes[i].span;
        if span.start <= offset && offset < span.end {
            return (span.start, span.end);
        }
        assert(ns.skip(i as int).drop_first() =~= ns.skip(i + 1));
        i += 1;
    }
    (offset, offset)
}

fn line_start_of(chars: &Vec<char>, offset: u32) -> (r: u32)
    ensures
        r == line_start_at(chars@, offset),
{
    let (at, _) = char_index_from(chars, 0, 0, offset);
    let mut j = at;
    assert(chars@.take(0) =~= Seq::<char>::empty());
    while j > 0 && chars[j - 1] != '\n'
        invariant
            j <= at <= chars@.len(),
            last_line_start(chars@.take(at as int)) == last_line_start(chars@.take(j as int)),
        decreases j,
    {
        assert(chars@.take(j as int).drop_last() =~= chars@.take(j - 1));
        j -= 1;
    }
    let head = &chars.as_slice()[0..j];
    assert(head@ =~= chars@.take(j as int));
    u32_bytes(head)
}

fn line_end_of(chars: &Vec<char>, offset: u32) -> (r: u32)
    ensures
        r == line_end_at(chars@, offset),
{
    let (at, _) = char_index_from(chars, 0, 0, offset);
    assert(chars@.take(0) =~= Seq::<char>::empty());
    let mut j = at;
    while j < chars.len() && chars[j] != '\n'
        invariant
            at <= j <= chars@.len(),
            next_newline(chars@, at as nat) == next_newline(chars@, j as nat),
        decreases chars@.len() - j,
    {
        j += 1;
    }
    let head = &chars.as_slice()[0..j];
    assert(head@ =~= chars@.take(j as int));
    u32_bytes(head)
}

fn spread_of(nodes: &Vec<Node>, a: u32, b: u32) -> (r: (u32, u32))
    ensures
        r == spread(nvs(nodes@), a, b),
{
    let ghost ns = nvs(nodes@);
    proof {
        lemma_nvs(nodes@);
    }
    let mut x = a;
    let mut y = b;
    let mut i: usize = 0;
    assert(ns.take(0) =~= Seq::<NodeV>::empty());
    while i < nodes.len()
        invariant
            ns == nvs(nodes@),
            ns.len() == nodes@.len(),
            forall|j: int| 0 <= j < nodes@.len() ==> #[trigger] ns[j] == nv(nodes@[j]),
            i <= nodes@.len(),
            spread(ns.take(i as int), a, b) == (x, y),
        decreases nodes@.len() - i,
    {
        assert(ns.take(i + 1).drop_last() =~= ns.take(i as int));
        assert(ns.take(i + 1).last() == ns[i as int]);
        let span = nodes[i].span;
        if span.start < b && span.end > a {
            if span.start < x {
                x = span.start;
            }
            if span.end > y {
                y = span.end;
            }
        }
        i += 1;
    }
    assert(ns.take(nodes@.len() as int) =~= ns);
    (x, y)
}

/// Grows `[a, b)` to whole lines and whole top-level forms until it stops
/// growing.
fn widen_range(chars: &Vec<char>, nodes: &Vec<Node>, a: u32, b: u32) -> (r: (u32, u32))
    ensures
        r == widen(chars@, nvs(nodes@), a, b),
{
    let mut lo = a;
    let mut hi = b;
    loop
        invariant
            widen(chars@, nvs(nodes@), lo, hi) == widen(chars@, nvs(nodes@), a, b),
        decreases lo, u32::MAX - hi,
    {
        let (x, y) = spread_of(nodes, lo, hi);
        proof {
            lemma_spread(nvs(nodes@), lo, hi);
        }
        let ls = line_start_of(chars, x);
        let lo2 = if ls < x {
            ls
        } else {
            x
        };
        let le = line_end_of(chars, y);
        let hi2 = if le > y {
            le
        } else {
            y
        };
        if lo2 == lo && hi2 == hi {
            return (lo, hi);
        }
        lo = lo2;
        hi = hi2;
    }
}

fn protected_ranges(chars: &Vec<char>, toks: &Vec<Tok>, nodes: &Vec<Node>) -> (ranges: Vec<(u32, u32)>)
    ensures
        ranges@ == protected_from(chars@, tvs(toks@), nvs(nodes@), 0),
{
    let ghost ts = tvs(toks@);
    let ghost ns = nvs(nodes@);
    let n = toks.len();
    let mut ranges: Vec<(u32, u32)> = Vec::new();
    let mut index: usize = 0;
    while index < n
        invariant
            ts == tvs(toks@),
            ns == nvs(nodes@),
            n == toks@.len(),
            index <= n + 1,
            protected_from(chars@, ts, ns, 0) == ranges@ + protected_from(chars@, ts, ns, index as nat),
        decreases n + 1 - index,
    {
        assert(ts[index as int] == tv(toks@[index as int]));
        if !is_marker_tok(&toks[index], false) {
            index += 1;
            continue;
        }
        let token = &toks[index];
        let (form_start, _) = enclosing_span(nodes, token.start);
        let first = if form_start <= token.start {
            form_start
        } else {
            token.start
        };
        let start = line_start_of(chars, first);
        let mut cursor = index + 1;
        while cursor < n && !is_marker_tok(&toks[cursor], true)
            invariant
                ts == tvs(toks@),
                n == toks@.len(),
                index < cursor <= n,
                next_on(ts, (index + 1) as nat) == next_on(ts, cursor as nat),
            decreases n - cursor,
        {
            assert(ts[cursor as int] == tv(toks@[cursor as int]));
            cursor += 1;
        }
        proof {
            if cursor < n {
                assert(ts[cursor as int] == tv(toks@[cursor as int]));
            }
        }
        let end = if cursor < n {
            let candidate = &toks[cursor];
            let (_, form_end) = enclosing_span(nodes, candidate.start);
            let last = if form_end >= candidate.end {
                form_end
            } else {
                candidate.end
            };
            line_end_of(chars, last)
        } else {
            u32_bytes(chars.as_slice())
        };
        let ghost before = ranges@;
        let range = widen_range(chars, nodes, start, end);
        ranges.push(range);
        proof {
            lemma_next_on(ts, (index + 1) as nat);
        }
        assert(ranges@ + protected_from(chars@, ts, ns, (cursor + 1) as nat) =~= before + (seq![range]
            + protected_from(chars@, ts, ns, (cursor + 1) as nat)));
        if cursor < n {
            index = cursor + 1;
        } else {
            assert(protected_from(chars@, ts, ns, (cursor + 1) as nat) =~= protected_from(
                chars@,
                ts,
                ns,
                n as nat,
            ));
            index = n;
        }
    }
    proof {
        assert(protected_from(chars@, ts, ns, index as nat) =~= Seq::<(u32, u32)>::empty());
    }
    assert(ranges@ + Seq::<(u32, u32)>::empty() =~= ranges@);
    ranges
}


fn first_hit_of(ranges: &Vec<(u32, u32)>, span: Span) -> (r: Option<usize>)
    ensures
        match r {
            Some(h) => first_hit(ranges@, span) == Some(h as nat) && h < ranges@.len(),
            None => first_hit(ranges@, span) is None,
        },
{
    let mut j: usize = 0;
    assert(ranges@.skip(0) =~= ranges@);
    while j < ranges.len()
        invariant
            j <= ranges@.len(),
            first_hit(ranges@, span) == match first_hit(ranges@.skip(j as int), span) {
                Some(h) => Some((h + j) as nat),
                None => None::<nat>,
            },
        decreases ranges@.len() - j,
    {
        assert(ranges@.skip(j as int)[0] == ranges@[j as int]);
        if span.start < ranges[j].1 && span.end > ranges[j].0 {
            return Some(j);
        }
        assert(ranges@.skip(j as int).drop_first() =~= ranges@.skip(j + 1));
        j += 1;
    }
    None
}

fn verbatim(chars: &Vec<char>, range: (u32, u32), blank_before: bool) -> (n: Node)
    ensures
        nv(n) == verbatim_node(chars@, range, blank_before),
{
    let (a, _) = char_index_from(chars, 0, 0, range.0);
    assert(chars@.take(0) =~= Seq::<char>::empty());
    let (b, _) = char_index_from(chars, 0, 0, range.1);
    let text = if a <= b {
        let slice = &chars.as_slice()[a..b];
        let keep = trimmed_end_len(slice);
        let kept = &slice[0..keep];
        assert(kept@ =~= trim_end(slice_at(chars@, range.0, range.1)));
        string_of(kept)
    } else {
        assert(trim_end(Seq::<char>::empty()) =~= Seq::<char>::empty());
        let empty: Vec<char> = Vec::new();
        let t = string_of(empty.as_slice());
        assert(t@ =~= trim_end(slice_at(chars@, range.0, range.1)));
        t
    };
    assert(text@ =~= trim_end(slice_at(chars@, range.0, range.1)));
    Node {
        kind: NodeKind::Verbatim(text),
        span: Span { start: range.0, end: range.1 },
        own_line: true,
        blank_before,
    }
}

/// Folds each protected range into one verbatim node, in place of the first
/// top-level form it touches, dropping the other forms it covers.
fn fold_protected(chars: &Vec<char>, toks: &Vec<Tok>, nodes: Vec<Node>) -> (r: Vec<Node>)
    ensures
        nvs(r@) == with_protected(chars@, tvs(toks@), nvs(nodes@)),
{
    let ghost ns = nvs(nodes@);
    let ghost orig = nodes@;
    proof {
        lemma_nvs(nodes@);
    }
    let ranges = protected_ranges(chars, toks, &nodes);
    let n = nodes.len();
    let mut consumed: Vec<bool> = Vec::new();
    let mut c: usize = 0;
    while c < ranges.len()
        invariant
            c <= ranges@.len(),
            consumed@ == Seq::new(c as nat, |i: int| false),
        decreases ranges@.len() - c,
    {
        consumed.push(false);
        c += 1;
        assert(consumed@ =~= Seq::new(c as nat, |i: int| false));
    }
    let mut pending = nodes;
    let mut rest: Vec<Node> = Vec::new();
    while pending.len() > 0
        invariant
            pending@.len() + rest@.len() == n,
            orig.len() == n,
            forall|j: int| 0 <= j < pending@.len() ==> pending@[j] == orig[j],
            forall|j: int| 0 <= j < rest@.len() ==> rest@[j] == orig[n - 1 - j],
        decreases pending@.len(),
    {
        let node = pending.pop().unwrap();
        rest.push(node);
    }
    let mut out: Vec<Node> = Vec::new();
    let mut k: usize = 0;
    assert(nvs(out@) =~= Seq::<NodeV>::empty());
    while k < n
        invariant
            ns == nvs(orig),
            ns.len() == n,
            orig.len() == n,
            forall|j: int| 0 <= j < n ==> #[trigger] ns[j] == nv(orig[j]),
            rest@.len() == n - k,
            forall|j: int| 0 <= j < rest@.len() ==> rest@[j] == orig[n - 1 - j],
            ranges@ == protected_from(chars@, tvs(toks@), ns, 0),
            consumed@.len() == ranges@.len(),
            k <= n,
            (nvs(out@), consumed@) == folded(chars@, ns, ranges@, k as nat),
        decreases n - k,
    {
        let node = rest.pop().unwrap();
        assert(node == orig[k as int]);
        let ghost before = nvs(out@);
        match first_hit_of(&ranges, node.span) {
            None => {
                let ghost items = out@;
                out.push(node);
                proof {
                    lemma_nvs_push(items, node);
                }
            },
            Some(h) => {
                if !consumed[h] {
                    consumed.set(h, true);
                    let v = verbatim(chars, ranges[h], node.blank_before);
                    let ghost items = out@;
                    out.push(v);
                    proof {
                        lemma_nvs_push(items, v);
                    }
                }
            },
        }
        k += 1;
    }
    out
}

/// Lexes and assembles `source`, then folds `fmt: off` regions into verbatim
/// nodes.
pub fn build(source: &str) -> (r: Result<Vec<Node>, Error>)
    ensures
        match r {
            Ok(nodes) => tree_of(source@) == Ok::<Seq<NodeV>, ErrorV>(nvs(nodes@)),
            Err(e) => tree_of(source@) == Err::<Seq<NodeV>, ErrorV>(error_view(e)),
        },
{
    tree_from_items(source, lex_steel(source))
}

/// Builds the tree of `source` from the lexer's output for it.
pub fn tree_from_items(source: &str, items: Vec<Result<LexToken, LexFailure>>) -> (r: Result<Vec<Node>, Error>)
    ensures
        match r {
            Ok(nodes) => tree_of_items(source@, items_view(items@)) == Ok::<Seq<NodeV>, ErrorV>(nvs(nodes@)),
            Err(e) => tree_of_items(source@, items_view(items@)) == Err::<Seq<NodeV>, ErrorV>(error_view(e)),
        },
{
    let chars = chars_of(source);
    let toks = lex(source, &chars, items)?;
    let nodes = assemble(&toks)?;
    Ok(fold_protected(&chars, &toks, nodes))
}

} // verus!
