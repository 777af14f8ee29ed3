//! The invariant that matters: formatting must never change the program.

use vstd::prelude::*;

use crate::cst::{close_char, close_delim, has_prefix, open_delim, strip_semicolons, trim};
use crate::layout::{doc_marker, is_doc_marker_v};
use crate::steel::{items_view, LexFailure, LexToken, class_of, classify, TokClass, failure_view, lex_steel, steel_lex, tokens_view, until_failure, until_failure_v, LexItem, TokKind};
use crate::text::{chars_of, copy_chars, decimal, trim_start, eq_lit, push_all, push_decimal, push_lit, string_of, starts_with_lit, trim_end, trimmed_end_len, trimmed_start_len};
use crate::config::Config;
use crate::{error_view, format_source, format_v, Error, ErrorV};

verus! {

/// A span-free datum tree, including comments.
pub enum Sexp {
    Atom(Vec<char>),
    List(char, Vec<Sexp>),
}

/// A datum tree as a plain value.
pub enum SexpV {
    Atom(Seq<char>),
    List(char, Seq<SexpV>),
}

pub open spec fn sv(s: Sexp) -> SexpV
    decreases s,
{
    match s {
        Sexp::Atom(t) => SexpV::Atom(t@),
        Sexp::List(close, items) => SexpV::List(close, svs(items@)),
    }
}

pub open spec fn svs(s: Seq<Sexp>) -> Seq<SexpV>
    decreases s,
{
    if s.len() == 0 {
        seq![]
    } else {
        svs(s.drop_last()).push(sv(s.last()))
    }
}

pub proof fn lemma_svs(s: Seq<Sexp>)
    ensures
        svs(s).len() == s.len(),
        forall|i: int| 0 <= i < s.len() ==> #[trigger] svs(s)[i] == sv(s[i]),
    decreases s.len(),
{
    if s.len() > 0 {
        lemma_svs(s.drop_last());
    }
}

proof fn lemma_svs_push(s: Seq<Sexp>, x: Sexp)
    ensures
        svs(s.push(x)) == svs(s).push(sv(x)),
{
    assert(s.push(x).drop_last() =~= s);
}

// ---------------------------------------------------------------------------
// Lexing into datums
// ---------------------------------------------------------------------------

/// The long name of a quoting prefix. Any other prefix, `#;` among them, has
/// no long form and stands for itself.
pub open spec fn prefix_head_v(marker: Seq<char>) -> Seq<char> {
    if marker == "'"@ {
        "quote"@
    } else if marker == "`"@ {
        "quasiquote"@
    } else if marker == ","@ {
        "unquote"@
    } else if marker == ",@"@ {
        "unquote-splicing"@
    } else {
        marker
    }
}

/// `datum` under the waiting prefixes, the last one innermost, so that `'x`
/// and `(quote x)` are the same datum.
pub open spec fn fold_v(pending: Seq<Seq<char>>, datum: SexpV) -> SexpV
    decreases pending.len(),
{
    if pending.len() == 0 {
        datum
    } else {
        fold_v(
            pending.drop_last(),
            SexpV::List(')', seq![SexpV::Atom(prefix_head_v(pending.last())), datum]),
        )
    }
}

/// An open list while lexing: the delimiter it expects, the datums it has
/// taken, and the quote prefixes waiting for the next datum.
pub struct DFrameV {
    pub close: char,
    pub items: Seq<SexpV>,
    pub pending: Seq<Seq<char>>,
}

/// A frame that has taken `datum`, folded under its waiting prefixes.
pub open spec fn take_datum(f: DFrameV, datum: SexpV) -> DFrameV {
    DFrameV { close: f.close, items: f.items.push(fold_v(f.pending, datum)), pending: seq![] }
}

/// The lexing state: the open lists, innermost last, and whether a long form
/// `(quasiquote ...)` has been closed.
pub struct DState {
    pub stack: Seq<DFrameV>,
    pub long_quasiquote: bool,
}

/// Whether a datum list starts with the atom `quasiquote`.
pub open spec fn starts_quasiquote(items: Seq<SexpV>) -> bool {
    items.len() > 0 && items[0] == SexpV::Atom("quasiquote"@)
}

/// One token's effect on the lexing state.
pub open spec fn dstep(st: DState, t: LexItem) -> Result<DState, ErrorV> {
    let (kind, text, start, _) = t;
    let stack = st.stack;
    let top = stack.last();
    match class_of(kind) {
        TokClass::Open => Ok(
            DState {
                stack: stack.push(DFrameV { close: close_char(open_delim(text)), items: seq![], pending: seq![] }),
                ..st
            },
        ),
        TokClass::Close => if stack.len() <= 1 {
            Err(ErrorV::UnexpectedClose(start))
        } else if top.close != close_char(close_delim(text)) {
            Err(ErrorV::MismatchedDelimiter(start))
        } else if top.pending.len() > 0 {
            Err(ErrorV::DanglingPrefix(start))
        } else {
            let rest = stack.drop_last();
            let datum = SexpV::List(top.close, top.items);
            Ok(
                DState {
                    stack: rest.update(rest.len() - 1, take_datum(rest.last(), datum)),
                    long_quasiquote: st.long_quasiquote || starts_quasiquote(top.items),
                },
            )
        },
        TokClass::Comment => Ok(
            DState {
                stack: stack.update(
                    stack.len() - 1,
                    DFrameV { items: top.items.push(SexpV::Atom(trim_end(text))), ..top },
                ),
                ..st
            },
        ),
        TokClass::Prefix => Ok(
            DState {
                stack: stack.update(stack.len() - 1, DFrameV { pending: top.pending.push(text), ..top }),
                ..st
            },
        ),
        TokClass::Other => Ok(
            DState {
                stack: stack.update(stack.len() - 1, take_datum(top, SexpV::Atom(trim_end(text)))),
                ..st
            },
        ),
    }
}

/// The root frame, which expects no closing delimiter.
pub open spec fn root_dframe() -> DFrameV {
    DFrameV { close: '\0', items: seq![], pending: seq![] }
}

/// The lexing state after the tokens `toks`.
pub open spec fn drun(toks: Seq<LexItem>) -> Result<DState, ErrorV>
    decreases toks.len(),
{
    if toks.len() == 0 {
        Ok(DState { stack: seq![root_dframe()], long_quasiquote: false })
    } else {
        match drun(toks.drop_last()) {
            Ok(st) => dstep(st, toks.last()),
            Err(e) => Err(e),
        }
    }
}

/// The datum trees of a source text and whether a long form `(quasiquote
/// ...)` appeared in it, or why it has none. Comments are datums here.
pub open spec fn datums_v(source: Seq<char>) -> Result<(Seq<SexpV>, bool), ErrorV> {
    datums_of(steel_lex(source))
}

/// The datum trees the lexer's output `items` makes, and whether a long form
/// `(quasiquote ...)` appears among them, or why they make none.
pub open spec fn datums_of(items: Seq<Result<LexItem, (Seq<char>, u32)>>) -> Result<(Seq<SexpV>, bool), ErrorV> {
    let (toks, failure) = until_failure_v(items);
    match drun(toks) {
        Err(e) => Err(e),
        Ok(st) => match failure {
            Some((message, offset)) => Err(ErrorV::Lex(message, offset)),
            None => if st.stack.len() != 1 {
                Err(ErrorV::UnclosedList(0))
            } else if st.stack[0].pending.len() > 0 {
                Err(ErrorV::DanglingPrefix(0))
            } else {
                Ok((st.stack[0].items, st.long_quasiquote))
            },
        },
    }
}


/// Once a token is refused, later tokens change nothing.
proof fn lemma_drun_error_stays(toks: Seq<LexItem>, k: nat)
    requires
        k <= toks.len(),
        drun(toks.take(k as int)) is Err,
    ensures
        drun(toks) == drun(toks.take(k as int)),
    decreases toks.len() - k,
{
    if k < toks.len() {
        assert(toks.take((k + 1) as int).drop_last() =~= toks.take(k as int));
        lemma_drun_error_stays(toks, k + 1);
    } else {
        assert(toks.take(k as int) =~= toks);
    }
}

/// An open list while lexing.
struct DFrame {
    close: char,
    items: Vec<Sexp>,
    pending: Vec<Vec<char>>,
}

pub open spec fn texts_view(s: Seq<Vec<char>>) -> Seq<Seq<char>> {
    s.map_values(|v: Vec<char>| v@)
}

spec fn dfv(f: DFrame) -> DFrameV {
    DFrameV { close: f.close, items: svs(f.items@), pending: texts_view(f.pending@) }
}

spec fn dfvs(s: Seq<DFrame>) -> Seq<DFrameV> {
    s.map_values(|f: DFrame| dfv(f))
}

fn prefix_head(marker: &[char]) -> (r: Vec<char>)
    ensures
        r@ == prefix_head_v(marker@),
{
    if eq_lit(marker, "'") {
        chars_of("quote")
    } else if eq_lit(marker, "`") {
        chars_of("quasiquote")
    } else if eq_lit(marker, ",") {
        chars_of("unquote")
    } else if eq_lit(marker, ",@") {
        chars_of("unquote-splicing")
    } else {
        copy_chars(marker)
    }
}

/// Folds the waiting prefixes onto `datum`, the last one innermost.
fn fold_pending(pending: Vec<Vec<char>>, datum: Sexp) -> (r: Sexp)
    ensures
        sv(r) == fold_v(texts_view(pending@), sv(datum)),
{
    let ghost p0 = texts_view(pending@);
    let ghost d0 = sv(datum);
    let mut pending = pending;
    let mut d = datum;
    while pending.len() > 0
        invariant
            fold_v(p0, d0) == fold_v(texts_view(pending@), sv(d)),
        decreases pending@.len(),
    {
        let ghost before = texts_view(pending@);
        let ghost dv = sv(d);
        let marker = pending.pop().unwrap();
        assert(texts_view(pending@) =~= before.drop_last());
        assert(before.last() == marker@);
        let head = prefix_head(marker.as_slice());
        let mut items: Vec<Sexp> = Vec::new();
        items.push(Sexp::Atom(head));
        items.push(d);
        proof {
            lemma_svs(items@);
            assert(svs(items@) =~= seq![SexpV::Atom(head@), dv]);
        }
        d = Sexp::List(')', items);
    }
    d
}

/// A frame that has taken `datum`, folded under its waiting prefixes.
fn take(frame: DFrame, datum: Sexp) -> (r: DFrame)
    ensures
        dfv(r) == take_datum(dfv(frame), sv(datum)),
{
    let DFrame { close, mut items, pending } = frame;
    let folded = fold_pending(pending, datum);
    let ghost before = items@;
    items.push(folded);
    proof {
        lemma_svs_push(before, folded);
    }
    let r = DFrame { close, items, pending: Vec::new() };
    assert(texts_view(r.pending@) =~= Seq::<Seq<char>>::empty());
    r
}

/// The closing delimiter an opening token expects.
fn closer_of_open(text: &[char]) -> (c: char)
    ensures
        c == close_char(open_delim(text@)),
{
    if text.len() > 0 && text[text.len() - 1] == '[' {
        ']'
    } else if text.len() > 0 && text[text.len() - 1] == '{' {
        '}'
    } else {
        ')'
    }
}

/// The delimiter a closing token is.
fn closer_of_close(text: &[char]) -> (c: char)
    ensures
        c == close_char(close_delim(text@)),
{
    if text.len() > 0 && text[0] == ']' {
        ']'
    } else if text.len() > 0 && text[0] == '}' {
        '}'
    } else {
        ')'
    }
}

fn starts_with_quasiquote(items: &Vec<Sexp>) -> (r: bool)
    ensures
        r == starts_quasiquote(svs(items@)),
{
    proof {
        lemma_svs(items@);
    }
    if items.len() == 0 {
        return false;
    }
    match &items[0] {
        Sexp::Atom(t) => eq_lit(t.as_slice(), "quasiquote"),
        Sexp::List(_, _) => false,
    }
}

/// A token's text without trailing white space.
fn trimmed(text: &[char]) -> (r: Vec<char>)
    ensures
        r@ == trim_end(text@),
{
    let keep = trimmed_end_len(text);
    let r = copy_chars(&text[0..keep]);
    assert(r@ =~= text@.take(keep as int));
    r
}

/// Lexes `source` into datum trees, and says whether a long form
/// `(quasiquote ...)` appeared in it.
fn datums(source: &str) -> (r: Result<(Vec<Sexp>, bool), Error>)
    ensures
        match (datums_v(source@), r) {
            (Ok((forms, lq)), Ok((f, l))) => svs(f@) == forms && l == lq,
            (Err(e), Err(x)) => error_view(x) == e,
            _ => false,
        },
{
    datums_from_items(lex_steel(source))
}

/// Reads the lexer's output into datum trees, and says whether a long form
/// `(quasiquote ...)` appeared in it.
pub fn datums_from_items(items: Vec<Result<LexToken, LexFailure>>) -> (r: Result<(Vec<Sexp>, bool), Error>)
    ensures
        match (datums_of(items_view(items@)), r) {
            (Ok((forms, lq)), Ok((f, l))) => svs(f@) == forms && l == lq,
            (Err(e), Err(x)) => error_view(x) == e,
            _ => false,
        },
{
    let ghost iv = items_view(items@);
    let (toks, failure) = until_failure(items);
    let ghost tv = tokens_view(toks@);
    let ghost fv = failure_view(failure);
    let mut stack: Vec<DFrame> = Vec::new();
    let root = DFrame { close: '\0', items: Vec::new(), pending: Vec::new() };
    proof {
        assert(svs(root.items@) =~= Seq::<SexpV>::empty());
        assert(texts_view(root.pending@) =~= Seq::<Seq<char>>::empty());
    }
    stack.push(root);
    let mut long_quasiquote = false;
    proof {
        assert(dfvs(stack@) =~= seq![root_dframe()]);
        assert(tv.take(0) =~= Seq::<LexItem>::empty());
    }
    let mut i: usize = 0;
    while i < toks.len()
        invariant
            tv == tokens_view(toks@),
            iv == items_view(items@),
            until_failure_v(iv) == (tv, fv),
            i <= toks@.len(),
            stack@.len() >= 1,
            drun(tv.take(i as int)) == Ok::<DState, ErrorV>(DState { stack: dfvs(stack@), long_quasiquote }),
        decreases toks@.len() - i,
    {
        assert(tv.take(i + 1).drop_last() =~= tv.take(i as int));
        assert(tv.take(i + 1).last() == tv[i as int]);
        let ghost sv0 = dfvs(stack@);
        let t = &toks[i];
        let text = chars_of(t.text.as_str());
        match classify(t.kind) {
            TokClass::Open => {
                let close = closer_of_open(text.as_slice());
                let f = DFrame { close, items: Vec::new(), pending: Vec::new() };
                proof {
                    assert(svs(f.items@) =~= Seq::<SexpV>::empty());
                    assert(texts_view(f.pending@) =~= Seq::<Seq<char>>::empty());
                }
                stack.push(f);
                assert(dfvs(stack@) =~= sv0.push(dfv(f)));
            },
            TokClass::Close => {
                if stack.len() == 1 {
                    proof {
                        lemma_drun_error_stays(tv, (i + 1) as nat);
                    }
                    return Err(Error::UnexpectedClose { offset: t.start });
                }
                let frame = stack.pop().unwrap();
                if frame.close != closer_of_close(text.as_slice()) {
                    proof {
                        lemma_drun_error_stays(tv, (i + 1) as nat);
                    }
                    return Err(Error::MismatchedDelimiter { offset: t.start });
                }
                if frame.pending.len() > 0 {
                    proof {
                        lemma_drun_error_stays(tv, (i + 1) as nat);
                    }
                    return Err(Error::DanglingPrefix { offset: t.start });
                }
                let lq = starts_with_quasiquote(&frame.items);
                long_quasiquote = long_quasiquote || lq;
                let datum = Sexp::List(frame.close, frame.items);
                let parent = stack.pop().unwrap();
                let merged = take(parent, datum);
                let ghost mid = stack@;
                stack.push(merged);
                proof {
                    assert(dfvs(stack@) =~= sv0.drop_last().update(sv0.len() - 2, dfv(merged)));
                }
            },
            TokClass::Comment => {
                let mut top = stack.pop().unwrap();
                let ghost before = top.items@;
                top.items.push(Sexp::Atom(trimmed(text.as_slice())));
                proof {
                    lemma_svs_push(before, top.items@.last());
                    assert(before.push(top.items@.last()) =~= top.items@);
                }
                stack.push(top);
                assert(dfvs(stack@) =~= sv0.update(sv0.len() - 1, dfv(top)));
            },
            TokClass::Prefix => {
                let mut top = stack.pop().unwrap();
                let ghost before = top.pending@;
                top.pending.push(text);
                assert(texts_view(top.pending@) =~= texts_view(before).push(t.text@));
                stack.push(top);
                assert(dfvs(stack@) =~= sv0.update(sv0.len() - 1, dfv(top)));
            },
            TokClass::Other => {
                let top = stack.pop().unwrap();
                let merged = take(top, Sexp::Atom(trimmed(text.as_slice())));
                stack.push(merged);
                assert(dfvs(stack@) =~= sv0.update(sv0.len() - 1, dfv(merged)));
            },
        }
        i += 1;
    }
    assert(tv.take(toks@.len() as int) =~= tv);
    match failure {
        Some(f) => {
            return Err(Error::Lex { message: f.message, offset: f.offset });
        },
        None => {},
    }
    if stack.len() != 1 {
        return Err(Error::UnclosedList { offset: 0 });
    }
    let root = stack.pop().unwrap();
    if root.pending.len() > 0 {
        return Err(Error::DanglingPrefix { offset: 0 });
    }
    Ok((root.items, long_quasiquote))
}


// ---------------------------------------------------------------------------
// The order of datums
// ---------------------------------------------------------------------------

/// Texts compared character by character, by code point; a proper prefix
/// comes first. Negative, zero or positive.
pub open spec fn order_text(a: Seq<char>, b: Seq<char>) -> int
    decreases a.len(),
{
    if a.len() == 0 {
        if b.len() == 0 {
            0
        } else {
            -1
        }
    } else if b.len() == 0 {
        1
    } else if a[0] != b[0] {
        if (a[0] as u32) < (b[0] as u32) {
            -1
        } else {
            1
        }
    } else {
        order_text(a.drop_first(), b.drop_first())
    }
}

/// The order of datums: atoms before lists, atoms by their text, lists by
/// their closing delimiter and then item by item.
pub open spec fn order_sexp(a: SexpV, b: SexpV) -> int
    decreases a,
{
    match a {
        SexpV::Atom(x) => match b {
            SexpV::Atom(y) => order_text(x, y),
            SexpV::List(_, _) => -1,
        },
        SexpV::List(c, xs) => match b {
            SexpV::Atom(_) => 1,
            SexpV::List(d, ys) => if c != d {
                if (c as u32) < (d as u32) {
                    -1
                } else {
                    1
                }
            } else {
                order_seq(xs, ys)
            },
        },
    }
}

/// Sequences of datums compared item by item; a proper prefix comes first.
pub open spec fn order_seq(a: Seq<SexpV>, b: Seq<SexpV>) -> int
    decreases a,
{
    if a.len() == 0 {
        if b.len() == 0 {
            0
        } else {
            -1
        }
    } else if b.len() == 0 {
        1
    } else {
        let c = order_sexp(a[0], b[0]);
        if c != 0 {
            c
        } else {
            proof {
                assert(decreases_to!(a => a.drop_first()));
            }
            order_seq(a.drop_first(), b.drop_first())
        }
    }
}

pub proof fn lemma_order_text_zero(a: Seq<char>, b: Seq<char>)
    ensures
        order_text(a, b) == 0 <==> a == b,
        -1 <= order_text(a, b) <= 1,
    decreases a.len(),
{
    if a.len() == 0 && b.len() == 0 {
        assert(a =~= b);
    }
    if a.len() > 0 && b.len() > 0 && a[0] == b[0] {
        lemma_order_text_zero(a.drop_first(), b.drop_first());
        if a.drop_first() == b.drop_first() {
            assert(a =~= seq![a[0]] + a.drop_first());
            assert(b =~= seq![b[0]] + b.drop_first());
        }
    }
}

pub proof fn lemma_order_zero(a: SexpV, b: SexpV)
    ensures
        order_sexp(a, b) == 0 <==> a == b,
        -1 <= order_sexp(a, b) <= 1,
    decreases a,
{
    match a {
        SexpV::Atom(x) => match b {
            SexpV::Atom(y) => lemma_order_text_zero(x, y),
            SexpV::List(_, _) => {},
        },
        SexpV::List(c, xs) => match b {
            SexpV::Atom(_) => {},
            SexpV::List(d, ys) => {
                lemma_order_seq_zero(xs, ys);
            },
        },
    }
}

pub proof fn lemma_order_seq_zero(a: Seq<SexpV>, b: Seq<SexpV>)
    ensures
        order_seq(a, b) == 0 <==> a == b,
        -1 <= order_seq(a, b) <= 1,
    decreases a,
{
    if a.len() == 0 && b.len() == 0 {
        assert(a =~= b);
    }
    if a.len() > 0 && b.len() > 0 {
        lemma_order_zero(a[0], b[0]);
        if order_sexp(a[0], b[0]) == 0 {
            assert(decreases_to!(a => a.drop_first()));
            lemma_order_seq_zero(a.drop_first(), b.drop_first());
            if a.drop_first() == b.drop_first() {
                assert(a =~= seq![a[0]] + a.drop_first());
                assert(b =~= seq![b[0]] + b.drop_first());
            }
        }
    }
}

fn order_of_text(a: &[char], b: &[char]) -> (r: i8)
    ensures
        r as int == order_text(a@, b@),
{
    let mut i: usize = 0;
    assert(a@.skip(0) =~= a@ && b@.skip(0) =~= b@);
    loop
        invariant
            i <= a@.len(),
            i <= b@.len(),
            order_text(a@, b@) == order_text(a@.skip(i as int), b@.skip(i as int)),
        decreases a@.len() - i,
    {
        if i == a.len() {
            return if i == b.len() {
                0
            } else {
                -1
            };
        }
        if i == b.len() {
            return 1;
        }
        if a[i] != b[i] {
            return if (a[i] as u32) < (b[i] as u32) {
                -1
            } else {
                1
            };
        }
        assert(a@.skip(i as int).drop_first() =~= a@.skip(i + 1));
        assert(b@.skip(i as int).drop_first() =~= b@.skip(i + 1));
        i += 1;
    }
}

/// Three-way comparison of datums.
fn order_of(a: &Sexp, b: &Sexp) -> (r: i8)
    ensures
        r as int == order_sexp(sv(*a), sv(*b)),
    decreases a,
{
    match a {
        Sexp::Atom(x) => match b {
            Sexp::Atom(y) => order_of_text(x.as_slice(), y.as_slice()),
            Sexp::List(_, _) => -1,
        },
        Sexp::List(c, xs) => match b {
            Sexp::Atom(_) => 1,
            Sexp::List(d, ys) => {
                if *c != *d {
                    return if (*c as u32) < (*d as u32) {
                        -1
                    } else {
                        1
                    };
                }
                let ghost xv = svs(xs@);
                let ghost yv = svs(ys@);
                proof {
                    lemma_svs(xs@);
                    lemma_svs(ys@);
                }
                let mut i: usize = 0;
                assert(xv.skip(0) =~= xv && yv.skip(0) =~= yv);
                assert(order_sexp(sv(*a), sv(*b)) == order_seq(xv, yv));
                loop
                    invariant
                        *a == Sexp::List(*c, *xs),
                        order_sexp(sv(*a), sv(*b)) == order_seq(xv, yv),
                        xv == svs(xs@),
                        yv == svs(ys@),
                        xv.len() == xs@.len(),
                        yv.len() == ys@.len(),
                        forall|j: int| 0 <= j < xs@.len() ==> #[trigger] xv[j] == sv(xs@[j]),
                        forall|j: int| 0 <= j < ys@.len() ==> #[trigger] yv[j] == sv(ys@[j]),
                        i <= xs@.len(),
                        i <= ys@.len(),
                        order_seq(xv, yv) == order_seq(xv.skip(i as int), yv.skip(i as int)),
                    decreases xs@.len() - i,
                {
                    if i == xs.len() {
                        return if i == ys.len() {
                            0
                        } else {
                            -1
                        };
                    }
                    if i == ys.len() {
                        return 1;
                    }
                    proof {
                        assert(decreases_to!(*a => a->List_1));
                        assert(decreases_to!(a->List_1 => a->List_1@));
                        assert(decreases_to!(a->List_1@ => xs@[i as int]));
                    }
                    let o = order_of(&xs[i], &ys[i]);
                    assert(xv.skip(i as int)[0] == xv[i as int]);
                    assert(yv.skip(i as int)[0] == yv[i as int]);
                    if o != 0 {
                        return o;
                    }
                    assert(xv.skip(i as int).drop_first() =~= xv.skip(i + 1));
                    assert(yv.skip(i as int).drop_first() =~= yv.skip(i + 1));
                    i += 1;
                }
            },
        },
    }
}


/// Where an insertion sort puts `x` among the already sorted `sorted`: after
/// every datum that is not greater.
pub open spec fn insertion_point_d(sorted: Seq<SexpV>, x: SexpV) -> nat
    decreases sorted.len(),
{
    if sorted.len() == 0 {
        0
    } else if !(order_sexp(x, sorted.last()) < 0) {
        sorted.len()
    } else {
        insertion_point_d(sorted.drop_last(), x)
    }
}

/// `s` sorted in the order of datums.
pub open spec fn sort_d(s: Seq<SexpV>) -> Seq<SexpV>
    decreases s.len(),
{
    if s.len() == 0 {
        seq![]
    } else {
        let t = sort_d(s.drop_last());
        t.insert(insertion_point_d(t, s.last()) as int, s.last())
    }
}

proof fn lemma_insertion_point_d(sorted: Seq<SexpV>, x: SexpV)
    ensures
        insertion_point_d(sorted, x) <= sorted.len(),
    decreases sorted.len(),
{
    if sorted.len() > 0 {
        lemma_insertion_point_d(sorted.drop_last(), x);
    }
}

proof fn lemma_svs_insert(s: Seq<Sexp>, j: int, x: Sexp)
    requires
        0 <= j <= s.len(),
    ensures
        svs(s.insert(j, x)) == svs(s).insert(j, sv(x)),
{
    lemma_svs(s);
    lemma_svs(s.insert(j, x));
    assert(svs(s.insert(j, x)) =~= svs(s).insert(j, sv(x)));
}

/// Sorts datums in their order.
fn sort_sexps(items: Vec<Sexp>) -> (r: Vec<Sexp>)
    ensures
        svs(r@) == sort_d(svs(items@)),
{
    let ghost orig = items@;
    let ghost ov = svs(items@);
    proof {
        lemma_svs(items@);
    }
    let n = items.len();
    let mut pending = items;
    let mut rest: Vec<Sexp> = Vec::new();
    while pending.len() > 0
        invariant
            pending@.len() + rest@.len() == n,
            orig.len() == n,
            forall|j: int| 0 <= j < pending@.len() ==> pending@[j] == orig[j],
            forall|j: int| 0 <= j < rest@.len() ==> rest@[j] == orig[n - 1 - j],
        decreases pending@.len(),
    {
        let x = pending.pop().unwrap();
        rest.push(x);
    }
    let mut sorted: Vec<Sexp> = Vec::new();
    let mut k: usize = 0;
    assert(ov.take(0) =~= Seq::<SexpV>::empty());
    assert(svs(sorted@) =~= Seq::<SexpV>::empty());
    while k < n
        invariant
            ov == svs(orig),
            ov.len() == n,
            orig.len() == n,
            forall|j: int| 0 <= j < n ==> #[trigger] ov[j] == sv(orig[j]),
            rest@.len() == n - k,
            forall|j: int| 0 <= j < rest@.len() ==> rest@[j] == orig[n - 1 - j],
            k <= n,
            svs(sorted@) == sort_d(ov.take(k as int)),
        decreases n - k,
    {
        let x = rest.pop().unwrap();
        assert(x == orig[k as int]);
        let ghost t = svs(sorted@);
        proof {
            lemma_svs(sorted@);
        }
        let mut j = sorted.len();
        assert(t.take(j as int) =~= t);
        while j > 0 && order_of(&x, &sorted[j - 1]) < 0
            invariant
                j <= sorted@.len(),
                t == svs(sorted@),
                t.len() == sorted@.len(),
                forall|i: int| 0 <= i < t.len() ==> #[trigger] t[i] == sv(sorted@[i]),
                insertion_point_d(t, sv(x)) == insertion_point_d(t.take(j as int), sv(x)),
            decreases j,
        {
            assert(t.take(j as int).drop_last() =~= t.take(j - 1));
            assert(t.take(j as int).last() == t[j - 1]);
            j -= 1;
        }
        proof {
            if j > 0 {
                assert(t.take(j as int).last() == t[j - 1]);
            }
        }
        assert(insertion_point_d(t, sv(x)) == j);
        proof {
            lemma_svs_insert(sorted@, j as int, x);
        }
        sorted.insert(j, x);
        assert(ov.take(k + 1).drop_last() =~= ov.take(k as int));
        assert(ov.take(k + 1).last() == sv(x));
        k += 1;
    }
    assert(ov.take(n as int) =~= ov);
    sorted
}

// ---------------------------------------------------------------------------
// The rewrites the formatter is allowed to make
// ---------------------------------------------------------------------------

/// Rules R3 and R5: a comment keeps its body and loses its marker, unless it
/// is a doc comment, whose marker is program text; a boolean keeps one
/// spelling.
pub open spec fn canon_atom_v(text: Seq<char>) -> Seq<char> {
    let b = if text == "#true"@ {
        "#t"@
    } else if text == "#false"@ {
        "#f"@
    } else {
        text
    };
    if b.len() > 0 && b[0] == ';' && !is_doc_marker_v(b) {
        seq![';'] + trim(strip_semicolons(b))
    } else {
        b
    }
}

/// Whether a clause makes the inside of a `require` or `provide` a sequence:
/// a positional `as`, or a comment.
pub open spec fn blocks_sort_d(item: SexpV) -> bool {
    match item {
        SexpV::Atom(t) => t == "as"@ || (t.len() > 0 && t[0] == ';') || has_prefix(t, "#|"@),
        SexpV::List(_, _) => false,
    }
}

/// Rules R1 and R2: the inside of a `require` or a `provide` is a set, unless
/// a positional `as` or a comment among the clauses makes it a sequence.
pub open spec fn sort_clauses_d(items: Seq<SexpV>) -> Seq<SexpV> {
    let sortable = items.len() > 0 && (items[0] == SexpV::Atom("require"@) || items[0] == SexpV::Atom(
        "provide"@,
    ));
    if !sortable || items.len() < 3 {
        items
    } else if exists|i: int| 1 <= i < items.len() && #[trigger] blocks_sort_d(items[i]) {
        items
    } else {
        seq![items[0]] + sort_d(items.skip(1))
    }
}

/// A datum with the allowed rewrites applied throughout.
pub open spec fn canon_d(s: SexpV) -> SexpV
    decreases s, 1nat, 0nat,
{
    match s {
        SexpV::Atom(t) => SexpV::Atom(canon_atom_v(t)),
        SexpV::List(close, items) => SexpV::List(close, sort_clauses_d(canon_each_d(items, items.len()))),
    }
}

/// The first `k` datums of `items`, each canonical.
pub open spec fn canon_each_d(items: Seq<SexpV>, k: nat) -> Seq<SexpV>
    decreases items, 0nat, k,
{
    if k == 0 || k > items.len() {
        seq![]
    } else {
        proof {
            assert(decreases_to!(items => items[k - 1]));
        }
        canon_each_d(items, (k - 1) as nat).push(canon_d(items[k - 1]))
    }
}

/// Whether a top-level datum is a `require`, `require-builtin` or
/// `#%require-dylib` form.
pub open spec fn is_require_d(s: SexpV) -> bool {
    match s {
        SexpV::List(_, items) => items.len() > 0 && (items[0] == SexpV::Atom("require"@) || items[0]
            == SexpV::Atom("require-builtin"@) || items[0] == SexpV::Atom("#%require-dylib"@)),
        SexpV::Atom(_) => false,
    }
}

/// Rule R1 at the top level: each run of adjacent require family forms
/// sorted. `run` holds the forms of the current run, `rest` what follows.
pub open spec fn sort_runs_d(run: Seq<SexpV>, rest: Seq<SexpV>) -> Seq<SexpV>
    decreases rest.len(),
{
    if rest.len() == 0 {
        sort_d(run)
    } else if is_require_d(rest[0]) {
        sort_runs_d(run.push(rest[0]), rest.drop_first())
    } else {
        sort_d(run) + seq![rest[0]] + sort_runs_d(seq![], rest.drop_first())
    }
}

/// Top-level datums with every allowed rewrite applied, on which the two
/// sides of a formatting run are compared.
pub open spec fn canonical_d(forms: Seq<SexpV>) -> Seq<SexpV> {
    sort_runs_d(seq![], canon_each_d(forms, forms.len()))
}


proof fn lemma_svs_concat(a: Seq<Sexp>, b: Seq<Sexp>)
    ensures
        svs(a + b) == svs(a) + svs(b),
{
    lemma_svs(a);
    lemma_svs(b);
    lemma_svs(a + b);
    assert(svs(a + b) =~= svs(a) + svs(b));
}

fn canon_atom(t: &[char]) -> (r: Vec<char>)
    ensures
        r@ == canon_atom_v(t@),
{
    let b = if eq_lit(t, "#true") {
        chars_of("#t")
    } else if eq_lit(t, "#false") {
        chars_of("#f")
    } else {
        copy_chars(t)
    };
    if b.len() > 0 && b[0] == ';' && !doc_marker(b.as_slice()) {
        let n = b.len();
        let mut k: usize = 0;
        assert(b@.skip(0) =~= b@);
        while k < n && b[k] == ';'
            invariant
                k <= n == b@.len(),
                strip_semicolons(b@) == strip_semicolons(b@.skip(k as int)),
            decreases n - k,
        {
            assert(b@.skip(k as int).drop_first() =~= b@.skip(k + 1));
            k += 1;
        }
        let body = &b.as_slice()[k..n];
        assert(body@ =~= strip_semicolons(b@));
        let a = trimmed_start_len(body);
        let rest = &body[a..body.len()];
        assert(rest@ =~= body@.skip(a as int));
        let e = trimmed_end_len(rest);
        let kept = &rest[0..e];
        assert(kept@ =~= trim(strip_semicolons(b@)));
        let mut out: Vec<char> = Vec::new();
        out.push(';');
        push_all(&mut out, kept);
        assert(out@ =~= seq![';'] + kept@);
        out
    } else {
        b
    }
}

fn blocks_sort(item: &Sexp) -> (r: bool)
    ensures
        r == blocks_sort_d(sv(*item)),
{
    match item {
        Sexp::Atom(t) => {
            let r = eq_lit(t.as_slice(), "as") || (t.len() > 0 && t[0] == ';') || starts_with_lit(
                t.as_slice(),
                "#|",
            );
            proof {
                reveal_strlit("#|");
                assert(has_prefix(t@, "#|"@) == (2 <= t@.len() && t@.subrange(0, 2) == "#|"@));
            }
            r
        },
        Sexp::List(_, _) => false,
    }
}

fn is_atom(s: &Sexp, lit: &str) -> (r: bool)
    ensures
        r == (sv(*s) == SexpV::Atom(lit@)),
{
    match s {
        Sexp::Atom(t) => eq_lit(t.as_slice(), lit),
        Sexp::List(_, _) => false,
    }
}

fn sort_clauses(items: Vec<Sexp>) -> (r: Vec<Sexp>)
    ensures
        svs(r@) == sort_clauses_d(svs(items@)),
{
    proof {
        lemma_svs(items@);
    }
    let ghost iv = svs(items@);
    if items.len() == 0 {
        return items;
    }
    let sortable = is_atom(&items[0], "require") || is_atom(&items[0], "provide");
    if !sortable || items.len() < 3 {
        return items;
    }
    let mut i: usize = 1;
    while i < items.len()
        invariant
            iv == svs(items@),
            iv.len() == items@.len(),
            forall|j: int| 0 <= j < items@.len() ==> #[trigger] iv[j] == sv(items@[j]),
            1 <= i <= items@.len(),
            forall|j: int| 1 <= j < i ==> !#[trigger] blocks_sort_d(iv[j]),
        decreases items@.len() - i,
    {
        if blocks_sort(&items[i]) {
            assert(blocks_sort_d(iv[i as int]));
            return items;
        }
        i += 1;
    }
    let mut items = items;
    let ghost whole = items@;
    let rest = items.split_off(1);
    assert(rest@ =~= whole.skip(1));
    let mut sorted = sort_sexps(rest);
    let ghost head = items@;
    let ghost tail = sorted@;
    items.append(&mut sorted);
    proof {
        lemma_svs_concat(head, tail);
        lemma_svs(head);
        lemma_svs(whole);
        assert(svs(whole.skip(1)) =~= iv.skip(1)) by {
            lemma_svs(whole.skip(1));
        }
        assert(svs(head) =~= seq![iv[0]]);
    }
    items
}

/// A datum with the allowed rewrites applied throughout.
fn canon(s: &Sexp) -> (r: Sexp)
    ensures
        sv(r) == canon_d(sv(*s)),
    decreases s,
{
    match s {
        Sexp::Atom(t) => Sexp::Atom(canon_atom(t.as_slice())),
        Sexp::List(close, items) => {
            let ghost iv = svs(items@);
            proof {
                lemma_svs(items@);
            }
            let mut done: Vec<Sexp> = Vec::new();
            let mut i: usize = 0;
            assert(svs(done@) =~= Seq::<SexpV>::empty());
            while i < items.len()
                invariant
                    *s == Sexp::List(*close, *items),
                    iv == svs(items@),
                    iv.len() == items@.len(),
                    forall|j: int| 0 <= j < items@.len() ==> #[trigger] iv[j] == sv(items@[j]),
                    i <= items@.len(),
                    svs(done@) == canon_each_d(iv, i as nat),
                decreases items@.len() - i,
            {
                proof {
                    assert(decreases_to!(*s => s->List_1));
                    assert(decreases_to!(s->List_1 => s->List_1@));
                    assert(decreases_to!(s->List_1@ => items@[i as int]));
                }
                let c = canon(&items[i]);
                let ghost before = done@;
                done.push(c);
                proof {
                    lemma_svs_push(before, c);
                }
                i += 1;
            }
            Sexp::List(*close, sort_clauses(done))
        },
    }
}

fn is_require(s: &Sexp) -> (r: bool)
    ensures
        r == is_require_d(sv(*s)),
{
    match s {
        Sexp::Atom(_) => false,
        Sexp::List(_, items) => {
            proof {
                lemma_svs(items@);
            }
            items.len() > 0 && (is_atom(&items[0], "require") || is_atom(&items[0], "require-builtin")
                || is_atom(&items[0], "#%require-dylib"))
        },
    }
}

/// Applies the rewrites the formatter is allowed to perform, so that the
/// comparison ignores them on both sides.
fn canonicalize(forms: &Vec<Sexp>) -> (r: Vec<Sexp>)
    ensures
        svs(r@) == canonical_d(svs(forms@)),
{
    let ghost fv = svs(forms@);
    proof {
        lemma_svs(forms@);
    }
    let mut each: Vec<Sexp> = Vec::new();
    let mut i: usize = 0;
    assert(svs(each@) =~= Seq::<SexpV>::empty());
    while i < forms.len()
        invariant
            fv == svs(forms@),
            fv.len() == forms@.len(),
            forall|j: int| 0 <= j < forms@.len() ==> #[trigger] fv[j] == sv(forms@[j]),
            i <= forms@.len(),
            svs(each@) == canon_each_d(fv, i as nat),
        decreases forms@.len() - i,
    {
        let c = canon(&forms[i]);
        let ghost before = each@;
        each.push(c);
        proof {
            lemma_svs_push(before, c);
        }
        i += 1;
    }
    let ghost ev = svs(each@);
    proof {
        lemma_svs(each@);
    }
    let n = each.len();
    let mut pending = each;
    let mut rest: Vec<Sexp> = Vec::new();
    let ghost orig = pending@;
    while pending.len() > 0
        invariant
            pending@.len() + rest@.len() == n,
            orig.len() == n,
            forall|j: int| 0 <= j < pending@.len() ==> pending@[j] == orig[j],
            forall|j: int| 0 <= j < rest@.len() ==> rest@[j] == orig[n - 1 - j],
        decreases pending@.len(),
    {
        let x = pending.pop().unwrap();
        rest.push(x);
    }
    let mut out: Vec<Sexp> = Vec::new();
    let mut run: Vec<Sexp> = Vec::new();
    let mut k: usize = 0;
    assert(svs(out@) =~= Seq::<SexpV>::empty());
    assert(svs(run@) =~= Seq::<SexpV>::empty());
    assert(ev.skip(0) =~= ev);
    while k < n
        invariant
            ev == svs(orig),
            ev.len() == n,
            orig.len() == n,
            forall|j: int| 0 <= j < n ==> #[trigger] ev[j] == sv(orig[j]),
            rest@.len() == n - k,
            forall|j: int| 0 <= j < rest@.len() ==> rest@[j] == orig[n - 1 - j],
            k <= n,
            sort_runs_d(seq![], ev) == svs(out@) + sort_runs_d(svs(run@), ev.skip(k as int)),
        decreases n - k,
    {
        let x = rest.pop().unwrap();
        assert(x == orig[k as int]);
        assert(ev.skip(k as int)[0] == sv(x));
        assert(ev.skip(k as int).drop_first() =~= ev.skip(k + 1));
        if is_require(&x) {
            let ghost before = run@;
            run.push(x);
            proof {
                lemma_svs_push(before, x);
            }
        } else {
            let ghost before = out@;
            let mut sorted = sort_sexps(run);
            let ghost sorted_v = sorted@;
            out.append(&mut sorted);
            let ghost mid = out@;
            out.push(x);
            run = Vec::new();
            proof {
                lemma_svs_concat(before, sorted_v);
                lemma_svs_push(mid, x);
                assert(svs(run@) =~= Seq::<SexpV>::empty());
            }
        }
        k += 1;
    }
    let mut sorted = sort_sexps(run);
    let ghost before = out@;
    let ghost sorted_v = sorted@;
    out.append(&mut sorted);
    proof {
        lemma_svs_concat(before, sorted_v);
        assert(ev.skip(n as int) =~= Seq::<SexpV>::empty());
        assert(canon_each_d(fv, fv.len()) == ev);
    }
    out
}


// ---------------------------------------------------------------------------
// The oracle
// ---------------------------------------------------------------------------

/// Whether two lists of datums are the same.
fn same_forms(a: &Vec<Sexp>, b: &Vec<Sexp>) -> (r: bool)
    ensures
        r == (svs(a@) == svs(b@)),
{
    proof {
        lemma_svs(a@);
        lemma_svs(b@);
    }
    if a.len() != b.len() {
        return false;
    }
    let mut i: usize = 0;
    while i < a.len()
        invariant
            a@.len() == b@.len(),
            svs(a@).len() == a@.len(),
            svs(b@).len() == b@.len(),
            forall|j: int| 0 <= j < a@.len() ==> #[trigger] svs(a@)[j] == sv(a@[j]),
            forall|j: int| 0 <= j < b@.len() ==> #[trigger] svs(b@)[j] == sv(b@[j]),
            i <= a@.len(),
            forall|j: int| 0 <= j < i ==> svs(a@)[j] == svs(b@)[j],
        decreases a@.len() - i,
    {
        let o = order_of(&a[i], &b[i]);
        proof {
            lemma_order_zero(sv(a@[i as int]), sv(b@[i as int]));
        }
        if o != 0 {
            assert(svs(a@)[i as int] != svs(b@)[i as int]);
            return false;
        }
        i += 1;
    }
    assert(svs(a@) =~= svs(b@));
    true
}

/// A unit result as a plain value.
pub open spec fn unit_view(r: Result<(), Error>) -> Result<(), ErrorV> {
    match r {
        Ok(()) => Ok(()),
        Err(e) => Err(error_view(e)),
    }
}

/// Rule V1: the two texts lex into the same datum trees once the allowed
/// rewrites are applied to both.
pub open spec fn equivalence_v(before: Seq<char>, after: Seq<char>) -> Result<(), ErrorV> {
    match datums_v(before) {
        Err(e) => Err(e),
        Ok((input, _)) => match datums_v(after) {
            Err(e) => Err(e),
            Ok((formatted, _)) => if canonical_d(input) == canonical_d(formatted) {
                Ok(())
            } else {
                Err(ErrorV::ProgramChanged)
            },
        },
    }
}

/// Fails when the formatted output is not the same program as the input: the
/// two sides are lexed into span free datum trees, comments included, and
/// compared after the allowed rewrites (rule V1). Whether the Steel parser
/// still accepts the output (rule V2) is judged by `check_verdicts`, from
/// verdicts the caller obtains by running the parser.
pub fn check_equivalence(before: &str, after: &str) -> (r: Result<(), Error>)
    ensures
        unit_view(r) == equivalence_v(before@, after@),
{
    let (input, _) = datums(before)?;
    let (formatted, _) = datums(after)?;
    let input_forms = canonicalize(&input);
    let formatted_forms = canonicalize(&formatted);
    if !same_forms(&input_forms, &formatted_forms) {
        return Err(Error::ProgramChanged);
    }
    Ok(())
}

/// What the Steel parser made of a text: the number of top-level forms, its
/// message, or `None` when it panicked.
pub open spec fn verdict_view(v: Option<Result<usize, String>>) -> Option<Result<usize, Seq<char>>> {
    match v {
        Some(Ok(n)) => Some(Ok(n)),
        Some(Err(message)) => Some(Err(message@)),
        None => None,
    }
}

/// Rule V2: where the Steel parser accepted the input, it must accept the
/// output and see as many top-level forms. A long form `(quasiquote ...)` in
/// the input exempts it, for the pinned parser can misread what follows one.
pub open spec fn verdicts_v(
    long_quasiquote: bool,
    before: Option<Result<usize, Seq<char>>>,
    after: Option<Result<usize, Seq<char>>>,
) -> Result<(), ErrorV> {
    match before {
        Some(Ok(before_forms)) => if after == Some(Ok::<usize, Seq<char>>(before_forms)) || long_quasiquote {
            Ok(())
        } else {
            match after {
                Some(Ok(after_forms)) => Err(
                    ErrorV::OutputRejected(
                        decimal(before_forms as nat) + " top level forms became "@ + decimal(after_forms as nat),
                    ),
                ),
                Some(Err(message)) => Err(ErrorV::OutputRejected(message)),
                None => Err(ErrorV::OutputRejected("the Steel parser panicked on the output"@)),
            }
        },
        _ => Ok(()),
    }
}

/// Judges the Steel parser's verdicts on the input `before` and on its
/// formatted output (rule V2). The verdicts come from the caller, which runs
/// the parser.
pub fn check_verdicts(
    before: &str,
    before_verdict: Option<Result<usize, String>>,
    after_verdict: Option<Result<usize, String>>,
) -> (r: Result<(), Error>)
    ensures
        unit_view(r) == match datums_v(before@) {
            Err(e) => Err(e),
            Ok((_, long_quasiquote)) => verdicts_v(
                long_quasiquote,
                verdict_view(before_verdict),
                verdict_view(after_verdict),
            ),
        },
{
    let (_, long_quasiquote) = datums(before)?;
    let before_forms = match before_verdict {
        Some(Ok(n)) => n,
        _ => {
            return Ok(());
        },
    };
    match after_verdict {
        Some(Ok(after_forms)) => {
            if after_forms == before_forms || long_quasiquote {
                return Ok(());
            }
            let mut message: Vec<char> = Vec::new();
            push_decimal(&mut message, before_forms);
            push_lit(&mut message, " top level forms became ");
            push_decimal(&mut message, after_forms);
            Err(Error::OutputRejected(string_of(message.as_slice())))
        },
        Some(Err(message)) => {
            if long_quasiquote {
                return Ok(());
            }
            Err(Error::OutputRejected(message))
        },
        None => {
            if long_quasiquote {
                return Ok(());
            }
            Err(Error::OutputRejected(String::from_str("the Steel parser panicked on the output")))
        },
    }
}


/// Formatting twice gives what formatting once gave.
pub open spec fn idempotence_v(source: Seq<char>, config: Config) -> Result<Seq<char>, ErrorV> {
    match format_v(source, config) {
        Err(e) => Err(e),
        Ok(once) => match format_v(once, config) {
            Err(e) => Err(e),
            Ok(twice) => if once == twice {
                Ok(once)
            } else {
                Err(ErrorV::NotIdempotent)
            },
        },
    }
}

/// Fails when a second formatting pass would change the output again.
pub fn check_idempotence(source: &str, config: &Config) -> (r: Result<String, Error>)
    ensures
        match r {
            Ok(out) => idempotence_v(source@, *config) == Ok::<Seq<char>, ErrorV>(out@),
            Err(e) => idempotence_v(source@, *config) == Err::<Seq<char>, ErrorV>(error_view(e)),
        },
{
    let once = format_source(source, config)?;
    let twice = format_source(once.as_str(), config)?;
    if once != twice {
        return Err(Error::NotIdempotent);
    }
    Ok(once)
}


// ---------------------------------------------------------------------------
// Laws of the oracle
// ---------------------------------------------------------------------------

/// Every text the oracle can lex is the same program as itself.
pub proof fn lemma_equivalence_reflexive(s: Seq<char>)
    requires
        datums_v(s) is Ok,
    ensures
        equivalence_v(s, s) == Ok::<(), ErrorV>(()),
{
}

/// The oracle does not care which side is the input.
pub proof fn lemma_equivalence_symmetric(a: Seq<char>, b: Seq<char>)
    requires
        equivalence_v(a, b) == Ok::<(), ErrorV>(()),
    ensures
        equivalence_v(b, a) == Ok::<(), ErrorV>(()),
{
}

/// Rule R3: a line comment other than a doc comment is compared without its
/// marker, so two that differ only in how many semicolons open them compare
/// equal.
pub proof fn lemma_comment_marker_ignored(a: Seq<char>, b: Seq<char>)
    requires
        a.len() > 0 && a[0] == ';',
        b.len() > 0 && b[0] == ';',
        !is_doc_marker_v(a),
        strip_semicolons(a) == strip_semicolons(b),
    ensures
        canon_atom_v(a) == canon_atom_v(b),
{
    reveal_strlit("#true");
    reveal_strlit("#false");
    assert(a != "#true"@ && a != "#false"@);
    assert(b != "#true"@ && b != "#false"@);
    assert(trim_start(strip_semicolons(strip_semicolons(a))) == trim_start(strip_semicolons(strip_semicolons(b))));
    lemma_strip_twice(a);
    lemma_strip_twice(b);
}

proof fn lemma_strip_twice(a: Seq<char>)
    ensures
        strip_semicolons(strip_semicolons(a)) == strip_semicolons(a),
    decreases a.len(),
{
    if a.len() > 0 && a[0] == ';' {
        lemma_strip_twice(a.drop_first());
    }
}

/// Rule R5: the two spellings of each boolean compare equal.
pub proof fn lemma_boolean_spellings()
    ensures
        canon_atom_v("#true"@) == canon_atom_v("#t"@),
        canon_atom_v("#false"@) == canon_atom_v("#f"@),
{
    reveal_strlit("#true");
    reveal_strlit("#false");
    reveal_strlit("#t");
    reveal_strlit("#f");
    assert("#f"@.len() == 2 && "#t"@.len() == 2 && "#true"@.len() == 5 && "#false"@.len() == 6);
    assert("#f"@[0] == '#' && "#t"@[0] == '#');
    assert(canon_atom_v("#false"@) == "#f"@);
    assert(canon_atom_v("#f"@) == "#f"@);
}

/// Sorting datums keeps every datum, each as often as before.
pub proof fn lemma_sort_d_permutation(s: Seq<SexpV>)
    ensures
        sort_d(s).to_multiset() == s.to_multiset(),
    decreases s.len(),
{
    broadcast use vstd::seq_lib::group_to_multiset_ensures;

    if s.len() > 0 {
        let t = sort_d(s.drop_last());
        lemma_sort_d_permutation(s.drop_last());
        lemma_sort_d_len(s.drop_last());
        lemma_insertion_point_d(t, s.last());
        vstd::seq_lib::to_multiset_insert(t, insertion_point_d(t, s.last()) as int, s.last());
        assert(s =~= s.drop_last().push(s.last()));
    }
}

proof fn lemma_sort_d_len(s: Seq<SexpV>)
    ensures
        sort_d(s).len() == s.len(),
    decreases s.len(),
{
    if s.len() > 0 {
        lemma_sort_d_len(s.drop_last());
        lemma_insertion_point_d(sort_d(s.drop_last()), s.last());
    }
}

/// The output `check_idempotence` accepts is a fixed point of formatting.
pub proof fn lemma_idempotence_fixed_point(source: Seq<char>, config: Config)
    requires
        idempotence_v(source, config) is Ok,
    ensures
        format_v(idempotence_v(source, config)->Ok_0, config) == Ok::<Seq<char>, ErrorV>(
            idempotence_v(source, config)->Ok_0,
        ),
{
}


// ---------------------------------------------------------------------------
// Quoting prefixes
// ---------------------------------------------------------------------------

/// The four quoting prefixes and the long forms the reader takes them for.
pub open spec fn quoting_table() -> Seq<(Seq<char>, Seq<char>)> {
    seq![
        ("'"@, "quote"@),
        ("`"@, "quasiquote"@),
        (","@, "unquote"@),
        (",@"@, "unquote-splicing"@),
    ]
}

/// The oracle reads each quoting prefix as its own long form, so distinct
/// prefixes stand for distinct heads, and each reader shorthand the quote
/// sugar pass writes is read back as the long form it replaced.
pub proof fn lemma_prefixes_read_as_their_long_forms()
    ensures
        forall|i: int| 0 <= i < quoting_table().len()
            ==> prefix_head_v(#[trigger] quoting_table()[i].0) == quoting_table()[i].1,
        forall|i: int, j: int| 0 <= i < quoting_table().len() && 0 <= j < quoting_table().len() && i != j
            ==> prefix_head_v(#[trigger] quoting_table()[i].0) != prefix_head_v(#[trigger] quoting_table()[j].0),
        forall|i: int| 0 <= i < quoting_table().len()
            ==> crate::passes::shorthand_v(#[trigger] quoting_table()[i].1) == Some(quoting_table()[i].0),
{
    reveal_strlit("'");
    reveal_strlit("`");
    reveal_strlit(",");
    reveal_strlit(",@");
    reveal_strlit("quote");
    reveal_strlit("quasiquote");
    reveal_strlit("unquote");
    reveal_strlit("unquote-splicing");
    let t = quoting_table();
    assert(t[0] == ("'"@, "quote"@));
    assert(t[1] == ("`"@, "quasiquote"@));
    assert(t[2] == (","@, "unquote"@));
    assert(t[3] == (",@"@, "unquote-splicing"@));
    assert("'"@.len() == 1 && "'"@[0] == '\'');
    assert("`"@.len() == 1 && "`"@[0] == '`');
    assert(","@.len() == 1 && ","@[0] == ',');
    assert(",@"@.len() == 2 && ",@"@[0] == ',');
    assert("quote"@.len() == 5 && "quasiquote"@.len() == 10);
    assert("unquote"@.len() == 7 && "unquote-splicing"@.len() == 16);
    assert(prefix_head_v(t[0].0) == t[0].1);
    assert(prefix_head_v(t[1].0) == t[1].1);
    assert(prefix_head_v(t[2].0) == t[2].1);
    assert(prefix_head_v(t[3].0) == t[3].1);
    assert forall|i: int| 0 <= i < t.len() implies prefix_head_v(#[trigger] t[i].0) == t[i].1 by {
        if i == 0 {
        } else if i == 1 {
        } else if i == 2 {
        } else {
        }
    }
    assert("quote"@ != "quasiquote"@ && "quote"@ != "unquote"@ && "quote"@ != "unquote-splicing"@);
    assert("quasiquote"@ != "unquote"@ && "quasiquote"@ != "unquote-splicing"@);
    assert("unquote"@ != "unquote-splicing"@);
    assert forall|i: int, j: int| 0 <= i < t.len() && 0 <= j < t.len() && i != j implies prefix_head_v(
        #[trigger] t[i].0,
    ) != prefix_head_v(#[trigger] t[j].0) by {
        assert(prefix_head_v(t[i].0) == t[i].1);
        assert(prefix_head_v(t[j].0) == t[j].1);
    }
}

} // verus!
