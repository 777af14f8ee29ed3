//! The layout engine. Two space indentation, hanging indents, one width knob.

use vstd::prelude::*;

use crate::config::Config;
use crate::cst::{
    atom_text_v, close_char, has_prefix, head_name_v, is_comment_v, is_line_comment_v, lemma_nvs, nv, nvs, open_char,
    strip_semicolons, Delim, KindV, List, Modifier, Node, NodeKind, NodeV,
};
use crate::text::{chars_of, copy_chars, eq_lit, push_all, starts_with_lit, string_of, trim_start, trimmed_start_len};

verus! {

/// Recognises the `;;@doc` marker that opens a documentation comment block.
pub open spec fn is_doc_marker_v(text: Seq<char>) -> bool {
    has_prefix(trim_start(strip_semicolons(text)), "@doc"@)
}

/// Recognises the `;;@doc` marker that opens a documentation comment block.
pub fn is_doc_marker(text: &str) -> (r: bool)
    ensures
        r == is_doc_marker_v(text@),
{
    let chars = chars_of(text);
    doc_marker(chars.as_slice())
}

pub fn doc_marker(chars: &[char]) -> (r: bool)
    ensures
        r == is_doc_marker_v(chars@),
{
    let n = chars.len();
    let mut k: usize = 0;
    assert(chars@.skip(0) =~= chars@);
    while k < n && chars[k] == ';'
        invariant
            k <= n == chars@.len(),
            strip_semicolons(chars@) == strip_semicolons(chars@.skip(k as int)),
        decreases n - k,
    {
        assert(chars@.skip(k as int).drop_first() =~= chars@.skip(k + 1));
        k += 1;
    }
    let body = &chars[k..n];
    assert(body@ =~= strip_semicolons(chars@));
    let a = trimmed_start_len(body);
    let rest = &body[a..body.len()];
    assert(rest@ =~= trim_start(strip_semicolons(chars@)));
    starts_with_lit(rest, "@doc")
}


/// Whether a top-level form is a `require`, `require-builtin` or
/// `#%require-dylib` form.
pub open spec fn require_family_v(n: NodeV) -> bool {
    match head_name_v(n) {
        Some(h) => h == "require"@ || h == "require-builtin"@ || h == "#%require-dylib"@,
        None => false,
    }
}

pub fn require_family(node: &Node) -> (r: bool)
    ensures
        r == require_family_v(nv(*node)),
{
    match node.head_name() {
        Some(h) => {
            let chars = chars_of(h);
            eq_lit(chars.as_slice(), "require") || eq_lit(chars.as_slice(), "require-builtin")
                || eq_lit(chars.as_slice(), "#%require-dylib")
        },
        None => false,
    }
}


// ---------------------------------------------------------------------------
// Columns and plain text
// ---------------------------------------------------------------------------

/// `n` spaces.
pub open spec fn spaces(n: nat) -> Seq<char> {
    Seq::new(n, |i: int| ' ')
}

/// A newline and `indent` spaces.
pub open spec fn newline_t(indent: usize) -> Seq<char> {
    seq!['\n'] + spaces(indent as nat)
}

/// A blank line and `indent` spaces.
pub open spec fn blank_t(indent: usize) -> Seq<char> {
    seq!['\n', '\n'] + spaces(indent as nat)
}

/// The column after writing `t` from column `col`.
pub open spec fn col_after(col: usize, t: Seq<char>) -> usize
    decreases t.len(),
{
    if t.len() == 0 {
        col
    } else if t.last() == '\n' {
        0
    } else {
        col_after(col, t.drop_last()).saturating_add(1)
    }
}

pub proof fn lemma_col_after_concat(col: usize, a: Seq<char>, b: Seq<char>)
    ensures
        col_after(col, a + b) == col_after(col_after(col, a), b),
    decreases b.len(),
{
    if b.len() == 0 {
        assert(a + b =~= a);
    } else {
        lemma_col_after_concat(col, a, b.drop_last());
        assert((a + b).drop_last() =~= a + b.drop_last());
    }
}

proof fn lemma_col_after_spaces(col: usize, n: nat)
    requires
        n <= usize::MAX,
    ensures
        col_after(0, spaces(n)) == n,
    decreases n,
{
    if n > 0 {
        assert(spaces(n).drop_last() =~= spaces((n - 1) as nat));
        lemma_col_after_spaces(col, (n - 1) as nat);
    }
}

proof fn lemma_col_after_newline(col: usize, indent: usize)
    ensures
        col_after(col, newline_t(indent)) == indent,
        col_after(col, blank_t(indent)) == indent,
{
    lemma_col_after_spaces(col, indent as nat);
    lemma_col_after_concat(col, seq!['\n'], spaces(indent as nat));
    lemma_col_after_concat(col, seq!['\n', '\n'], spaces(indent as nat));
    assert(seq!['\n'].drop_last() =~= Seq::<char>::empty());
    assert(seq!['\n', '\n'].last() == '\n');
}

// ---------------------------------------------------------------------------
// Special forms
// ---------------------------------------------------------------------------

/// How the parent lays a child out.
#[derive(Debug, Clone, Copy, PartialEq, Eq, Structural)]
pub enum Role {
    Normal,
    Bindings,
}

/// Items after the head that share the opening line of a broken form.
pub open spec fn special_form_v(name: Seq<char>) -> Option<usize> {
    if name == "begin"@ || name == "cond"@ || name == "case-lambda"@ {
        Some(0)
    } else if name == "define"@ || name == "define-values"@ || name == "define-syntax"@ || name
        == "define-record-type"@ || name == "struct"@ || name == "lambda"@ || name == "λ"@ || name
        == "fn"@ || name == "when"@ || name == "unless"@ || name == "while"@ || name
        == "syntax-rules"@ || name == "case"@ || name == "match"@ || name == "module"@ {
        Some(1)
    } else if name == "do"@ {
        Some(2)
    } else {
        None
    }
}

/// A `let` family head.
pub open spec fn is_let_family_v(name: Seq<char>) -> bool {
    name == "let"@ || name == "let*"@ || name == "letrec"@ || name == "letrec*"@ || name
        == "let-values"@ || name == "let*-values"@ || name == "let-syntax"@ || name
        == "letrec-syntax"@
}

/// The index of the binding list, accounting for a named `let`.
pub open spec fn bindings_index_v(items: Seq<NodeV>, name: Seq<char>) -> Option<usize> {
    if is_let_family_v(name) {
        if items.len() > 1 {
            if atom_text_v(items[1]) is Some {
                Some(2)
            } else {
                Some(1)
            }
        } else {
            None
        }
    } else if name == "parameterize"@ {
        Some(1)
    } else {
        None
    }
}

fn special_form(name: &[char]) -> (r: Option<usize>)
    ensures
        r == special_form_v(name@),
{
    if eq_lit(name, "begin") || eq_lit(name, "cond") || eq_lit(name, "case-lambda") {
        Some(0)
    } else if eq_lit(name, "define") || eq_lit(name, "define-values") || eq_lit(name, "define-syntax")
        || eq_lit(name, "define-record-type") || eq_lit(name, "struct") || eq_lit(name, "lambda")
        || eq_lit(name, "λ") || eq_lit(name, "fn") || eq_lit(name, "when") || eq_lit(name, "unless")
        || eq_lit(name, "while") || eq_lit(name, "syntax-rules") || eq_lit(name, "case") || eq_lit(
        name,
        "match",
    ) || eq_lit(name, "module") {
        Some(1)
    } else if eq_lit(name, "do") {
        Some(2)
    } else {
        None
    }
}

fn is_let_family(name: &[char]) -> (r: bool)
    ensures
        r == is_let_family_v(name@),
{
    eq_lit(name, "let") || eq_lit(name, "let*") || eq_lit(name, "letrec") || eq_lit(name, "letrec*")
        || eq_lit(name, "let-values") || eq_lit(name, "let*-values") || eq_lit(name, "let-syntax")
        || eq_lit(name, "letrec-syntax")
}

fn bindings_index(items: &Vec<Node>, name: &[char]) -> (r: Option<usize>)
    ensures
        r == bindings_index_v(nvs(items@), name@),
{
    proof {
        lemma_nvs(items@);
    }
    if is_let_family(name) {
        if items.len() > 1 {
            if items[1].atom_text().is_some() {
                Some(2)
            } else {
                Some(1)
            }
        } else {
            None
        }
    } else if eq_lit(name, "parameterize") {
        Some(1)
    } else {
        None
    }
}

// ---------------------------------------------------------------------------
// Single line renderings
// ---------------------------------------------------------------------------

/// The text of an opening delimiter, modifier included.
pub open spec fn open_text(open: Delim, modifier: Option<Modifier>) -> Seq<char> {
    match modifier {
        Some(Modifier::Vector) => "#"@ + seq![open_char(open)],
        Some(Modifier::Bytes) => "#u8"@ + seq![open_char(open)],
        None => seq![open_char(open)],
    }
}

/// The single line rendering of a node, or `None` when it must break.
pub open spec fn flat_t(n: NodeV) -> Option<Seq<char>>
    decreases n, 1nat,
{
    match n.kind {
        KindV::Atom(t) => Some(t),
        KindV::Verbatim(_) => None,
        KindV::Comment(t, block) => if block && !t.contains('\n') {
            Some(t)
        } else {
            None
        },
        KindV::Prefix(p, target) => match flat_t(*target) {
            Some(f) => Some(p + f),
            None => None,
        },
        KindV::List(open, modifier, items, force_break) => if force_break {
            None
        } else {
            match flat_items_t(items, items.len()) {
                Some(body) => Some(open_text(open, modifier) + body + seq![close_char(open)]),
                None => None,
            }
        },
    }
}

/// The single line rendering of the first `k` items, separated by single
/// spaces, or `None` when one must break or sits after a blank line.
pub open spec fn flat_items_t(items: Seq<NodeV>, k: nat) -> Option<Seq<char>>
    decreases items, 0nat, k,
{
    if k == 0 || k > items.len() {
        Some(seq![])
    } else {
        proof {
            assert(decreases_to!(items => items[k - 1]));
        }
        match flat_items_t(items, (k - 1) as nat) {
            None => None,
            Some(prev) => if k > 1 && items[k - 1].blank_before {
                None
            } else {
                match flat_t(items[k - 1]) {
                    None => None,
                    Some(f) => Some(
                        if k > 1 {
                            prev + seq![' '] + f
                        } else {
                            f
                        },
                    ),
                }
            },
        }
    }
}


fn push_open(out: &mut Vec<char>, open: Delim, modifier: Option<Modifier>)
    ensures
        final(out)@ == old(out)@ + open_text(open, modifier),
{
    match modifier {
        Some(Modifier::Vector) => {
            crate::text::push_lit(out, "#");
        },
        Some(Modifier::Bytes) => {
            crate::text::push_lit(out, "#u8");
        },
        None => {},
    }
    out.push(open.open());
}

fn has_newline(t: &[char]) -> (r: bool)
    ensures
        r == t@.contains('\n'),
{
    let mut i: usize = 0;
    while i < t.len()
        invariant
            i <= t@.len(),
            forall|j: int| 0 <= j < i ==> t@[j] != '\n',
        decreases t@.len() - i,
    {
        if t[i] == '\n' {
            assert(t@[i as int] == '\n');
            return true;
        }
        i += 1;
    }
    false
}

/// The single line rendering of a node, or `None` when it must break.
fn flat(node: &Node) -> (r: Option<Vec<char>>)
    ensures
        match r {
            Some(t) => flat_t(nv(*node)) == Some(t@),
            None => flat_t(nv(*node)) is None,
        },
    decreases node,
{
    match &node.kind {
        NodeKind::Atom(text) => Some(chars_of(text.as_str())),
        NodeKind::Verbatim(_) => None,
        NodeKind::Comment(comment) => {
            let t = chars_of(comment.text.as_str());
            if comment.block && !has_newline(t.as_slice()) {
                Some(t)
            } else {
                None
            }
        },
        NodeKind::Prefix(prefix) => {
            proof {
                assert(decreases_to!(*node => node.kind));
                assert(decreases_to!(node.kind => node.kind->Prefix_0));
            }
            match flat(&prefix.target) {
                Some(f) => {
                    let mut out = chars_of(prefix.text.as_str());
                    push_all(&mut out, f.as_slice());
                    Some(out)
                },
                None => None,
            }
        },
        NodeKind::List(list) => {
            if list.force_break {
                return None;
            }
            let ghost items = nvs(list.items@);
            proof {
                lemma_nvs(list.items@);
            }
            let mut body: Vec<char> = Vec::new();
            let mut i: usize = 0;
            while i < list.items.len()
                invariant
                    node.kind == NodeKind::List(*list),
                    items == nvs(list.items@),
                    items.len() == list.items@.len(),
                    forall|j: int| 0 <= j < items.len() ==> #[trigger] items[j] == nv(list.items@[j]),
                    i <= list.items@.len(),
                    flat_items_t(items, i as nat) == Some(body@),
                decreases list.items@.len() - i,
            {
                proof {
                    assert(decreases_to!(*node => node.kind));
                    assert(decreases_to!(node.kind => node.kind->List_0));
                    assert(decreases_to!(node.kind->List_0 => node.kind->List_0.items));
                    assert(decreases_to!(node.kind->List_0.items => node.kind->List_0.items@));
                    assert(decreases_to!(node.kind->List_0.items@ => list.items@[i as int]));
                }
                let item = &list.items[i];
                if i > 0 && item.blank_before {
                    proof {
                        lemma_flat_items_none(items, (i + 1) as nat, list.items@.len() as nat);
                    }
                    return None;
                }
                match flat(item) {
                    None => {
                        proof {
                            lemma_flat_items_none(items, (i + 1) as nat, list.items@.len() as nat);
                        }
                        return None;
                    },
                    Some(f) => {
                        if i > 0 {
                            body.push(' ');
                        }
                        push_all(&mut body, f.as_slice());
                        assert(flat_items_t(items, (i + 1) as nat) == Some(body@));
                    },
                }
                i += 1;
            }
            let mut out: Vec<char> = Vec::new();
            push_open(&mut out, list.open, list.modifier);
            push_all(&mut out, body.as_slice());
            out.push(list.open.close());
            Some(out)
        },
    }
}

proof fn lemma_flat_items_none(items: Seq<NodeV>, k: nat, m: nat)
    requires
        k <= m <= items.len(),
        flat_items_t(items, k) is None,
    ensures
        flat_items_t(items, m) is None,
    decreases m - k,
{
    if k < m {
        lemma_flat_items_none(items, k + 1, m);
    }
}


// ---------------------------------------------------------------------------
// Plans and overruns
// ---------------------------------------------------------------------------

/// A candidate layout: how many items share the opening line, and the indent
/// for everything after them.
#[derive(Debug, Clone, Copy, PartialEq, Eq, Structural)]
pub struct Plan {
    pub line_items: usize,
    pub indent: usize,
}

/// Candidate layouts in preference order. A hanging indent aligned with the
/// first argument is preferred, with the two space body indent as the fallback
/// for when that pushes arguments past the width.
pub open spec fn plans_t(items: Seq<NodeV>, c: Config, open_col: usize) -> Seq<Plan> {
    let body = Plan { line_items: 1, indent: open_col.saturating_add(2) };
    let plain = Plan { line_items: 1, indent: open_col.saturating_add(1) };
    if items.len() == 0 {
        seq![plain]
    } else {
        match atom_text_v(items[0]) {
            None => seq![plain],
            Some(name) => match bindings_index_v(items, name) {
                Some(index) => seq![Plan { line_items: 1usize.saturating_add(index), indent: body.indent }],
                None => match special_form_v(name) {
                    Some(d) => seq![Plan { line_items: 1usize.saturating_add(d), indent: body.indent }],
                    None => {
                        let aligned = open_col.saturating_add(1).saturating_add(name.len() as usize).saturating_add(1);
                        if aligned < c.width {
                            seq![Plan { line_items: 2, indent: aligned }, body]
                        } else {
                            seq![body]
                        }
                    },
                },
            },
        }
    }
}

/// How far one line overruns `width`: its length, plus the column the region
/// starts at on its first line, plus the closing delimiters still owed on its
/// last line.
pub open spec fn line_cost(len: nat, first: bool, last: bool, start_col: usize, reserved: usize, width: usize) -> usize {
    let column = len as usize;
    let column = if first {
        column.saturating_add(start_col)
    } else {
        column
    };
    let column = if last {
        column.saturating_add(reserved)
    } else {
        column
    };
    column.saturating_sub(width)
}

/// The overrun of the finished lines of `t`, the length of its unfinished
/// last line, and whether that line is the first.
pub open spec fn overflow_state(t: Seq<char>, start_col: usize, reserved: usize, width: usize) -> (usize, nat, bool)
    decreases t.len(),
{
    if t.len() == 0 {
        (0, 0, true)
    } else {
        let (total, len, first) = overflow_state(t.drop_last(), start_col, reserved, width);
        if t.last() == '\n' {
            (total.saturating_add(line_cost(len, first, false, start_col, reserved, width)), 0, false)
        } else {
            (total, len + 1, first)
        }
    }
}

/// Total number of columns by which the region overruns `width`, counting the
/// closing delimiters the enclosing forms still owe the last line.
pub open spec fn overflow_t(t: Seq<char>, start_col: usize, reserved: usize, width: usize) -> usize {
    let (total, len, first) = overflow_state(t, start_col, reserved, width);
    total.saturating_add(line_cost(len, first, true, start_col, reserved, width))
}

// ---------------------------------------------------------------------------
// The renderer
// ---------------------------------------------------------------------------

/// The items of a list node.
pub open spec fn items_of(n: NodeV) -> Seq<NodeV> {
    match n.kind {
        KindV::List(_, _, items, _) => items,
        _ => seq![],
    }
}

/// How a list lays out its `index`th item: a `let` binding list is laid out
/// as bindings.
pub open spec fn child_role_v(items: Seq<NodeV>, index: nat) -> Role {
    if items.len() > 0 && atom_text_v(items[0]) is Some && bindings_index_v(
        items,
        atom_text_v(items[0])->0,
    ) == Some(index as usize) {
        Role::Bindings
    } else {
        Role::Normal
    }
}

/// Where a list's emission has got to.
pub struct EmitState {
    pub text: Seq<char>,
    pub col: usize,
    pub broken: bool,
    pub ends_lc: bool,
}

/// The separator in front of the `k`th item of a broken list.
pub open spec fn item_sep(item: NodeV, k: nat, plan: Plan, st: EmitState) -> Seq<char> {
    let own_line_comment = is_line_comment_v(item) && item.own_line;
    let trailing_comment = is_line_comment_v(item) && !item.own_line;
    let forced = item.blank_before || own_line_comment;
    let inline = k < plan.line_items && !st.broken && !forced;
    let same_line = (trailing_comment && !st.ends_lc) || inline;
    if k == 0 {
        if own_line_comment {
            newline_t(plan.indent)
        } else {
            seq![]
        }
    } else if same_line {
        seq![' ']
    } else if item.blank_before {
        blank_t(plan.indent)
    } else {
        newline_t(plan.indent)
    }
}

/// How a node is written, starting at column `col` with `reserved` closing
/// delimiters owed to the end of its last line.
pub open spec fn render_t(n: NodeV, role: Role, col: usize, reserved: usize, c: Config) -> Seq<char>
    decreases n, 4nat, 0nat,
{
    match n.kind {
        KindV::Atom(t) => t,
        KindV::Comment(t, _) => t,
        KindV::Verbatim(t) => t,
        KindV::Prefix(p, target) => p + render_t(*target, Role::Normal, col_after(col, p), reserved, c),
        KindV::List(_, _, _, _) => list_t(n, role, col, reserved, c),
    }
}

/// How a list is written: on one line when it fits, otherwise by the first
/// plan that overruns nowhere, or else the one that overruns least.
pub open spec fn list_t(n: NodeV, role: Role, col: usize, reserved: usize, c: Config) -> Seq<char>
    decreases n, 3nat, 0nat,
{
    let one_per_line = role == Role::Bindings && c.passes.align_let_bindings;
    let flat = flat_t(n);
    if !one_per_line && flat is Some && col.saturating_add(flat->0.len() as usize).saturating_add(
        reserved,
    ) <= c.width {
        flat->0
    } else {
        choose_t(n, plans_t(items_of(n), c, col), 0, None, col, reserved, c)
    }
}

/// The first candidate from `i` on that overruns nowhere, or else the one that
/// overruns least, the earliest among equals.
pub open spec fn choose_t(
    n: NodeV,
    cands: Seq<Plan>,
    i: nat,
    best: Option<(usize, Seq<char>)>,
    col: usize,
    reserved: usize,
    c: Config,
) -> Seq<char>
    decreases n, 2nat, cands.len() - i,
{
    if i >= cands.len() {
        match best {
            Some((_, t)) => t,
            None => seq![],
        }
    } else {
        let t = emit_t(n, cands[i as int], col, reserved, c);
        let cost = overflow_t(t, col, reserved, c.width);
        if cost == 0 {
            t
        } else {
            let better = match best {
                Some((lowest, _)) => cost < lowest,
                None => true,
            };
            let next = if better {
                Some((cost, t))
            } else {
                best
            };
            choose_t(n, cands, i + 1, next, col, reserved, c)
        }
    }
}

/// A list written by `plan`.
pub open spec fn emit_t(n: NodeV, plan: Plan, col: usize, reserved: usize, c: Config) -> Seq<char>
    decreases n, 1nat, 0nat,
{
    match n.kind {
        KindV::List(open, modifier, items, _) => {
            let head = open_text(open, modifier);
            if items.len() == 0 {
                head + seq![close_char(open)]
            } else {
                let st = items_t(
                    n,
                    plan,
                    0,
                    EmitState { text: seq![], col: col_after(col, head), broken: false, ends_lc: false },
                    reserved,
                    c,
                );
                let tail = if st.ends_lc {
                    newline_t(plan.indent)
                } else {
                    seq![]
                };
                head + st.text + tail + seq![close_char(open)]
            }
        },
        _ => seq![],
    }
}

/// The emission of a list's items from the `k`th on.
pub open spec fn items_t(n: NodeV, plan: Plan, k: nat, st: EmitState, reserved: usize, c: Config) -> EmitState
    decreases n, 0nat, items_of(n).len() - k,
{
    let items = items_of(n);
    if k >= items.len() {
        st
    } else {
        let item = items[k as int];
        proof {
            assert(decreases_to!(n => n.kind));
            assert(decreases_to!(n.kind => n.kind->List_2));
            assert(decreases_to!(n.kind->List_2 => item));
        }
        let sep = item_sep(item, k, plan, st);
        let col1 = col_after(st.col, sep);
        let res = if k + 1 == items.len() {
            reserved.saturating_add(1)
        } else {
            reserved
        };
        let body = render_t(item, child_role_v(items, k), col1, res, c);
        let ends = is_line_comment_v(item);
        items_t(
            n,
            plan,
            k + 1,
            EmitState {
                text: st.text + sep + body,
                col: col_after(col1, body),
                broken: st.broken || ends,
                ends_lc: ends,
            },
            reserved,
            c,
        )
    }
}


/// Output text, the column the next character lands in, and the closing
/// delimiters the enclosing forms will append to the current line.
struct Writer {
    out: Vec<char>,
    col: usize,
    reserved: usize,
}

fn wpush(w: &mut Writer, t: &[char])
    ensures
        final(w).out@ == old(w).out@ + t@,
        final(w).col == col_after(old(w).col, t@),
        final(w).reserved == old(w).reserved,
{
    let ghost o = w.out@;
    let ghost c0 = w.col;
    let mut i: usize = 0;
    while i < t.len()
        invariant
            i <= t@.len(),
            w.out@ == o + t@.take(i as int),
            w.col == col_after(c0, t@.take(i as int)),
            w.reserved == old(w).reserved,
        decreases t@.len() - i,
    {
        assert(t@.take(i + 1).drop_last() =~= t@.take(i as int));
        assert(o + t@.take(i + 1) =~= (o + t@.take(i as int)).push(t@[i as int]));
        let ch = t[i];
        w.out.push(ch);
        if ch == '\n' {
            w.col = 0;
        } else {
            w.col = w.col.saturating_add(1);
        }
        i += 1;
    }
    assert(t@.take(t@.len() as int) =~= t@);
}

fn wpush_char(w: &mut Writer, ch: char)
    requires
        ch != '\n',
    ensures
        final(w).out@ == old(w).out@ + seq![ch],
        final(w).col == col_after(old(w).col, seq![ch]),
        final(w).reserved == old(w).reserved,
{
    assert(seq![ch].drop_last() =~= Seq::<char>::empty());
    assert(seq![ch].last() == ch);
    assert(col_after(w.col, seq![ch]) == col_after(w.col, Seq::<char>::empty()).saturating_add(1));
    w.out.push(ch);
    w.col = w.col.saturating_add(1);
    assert(w.out@ =~= old(w).out@ + seq![ch]);
}

fn push_spaces(out: &mut Vec<char>, n: usize)
    ensures
        final(out)@ == old(out)@ + spaces(n as nat),
{
    let ghost o = out@;
    let mut i: usize = 0;
    while i < n
        invariant
            i <= n,
            out@ == o + spaces(i as nat),
        decreases n - i,
    {
        out.push(' ');
        i += 1;
        assert(out@ =~= o + spaces(i as nat));
    }
}

/// A line break followed by `indent` spaces.
fn wnewline(w: &mut Writer, indent: usize)
    ensures
        final(w).out@ == old(w).out@ + newline_t(indent),
        final(w).col == col_after(old(w).col, newline_t(indent)),
        final(w).reserved == old(w).reserved,
{
    proof {
        lemma_col_after_newline(w.col, indent);
    }
    w.out.push('\n');
    push_spaces(&mut w.out, indent);
    w.col = indent;
    assert(w.out@ =~= old(w).out@ + newline_t(indent));
}

/// A blank line followed by `indent` spaces.
fn wblank(w: &mut Writer, indent: usize)
    ensures
        final(w).out@ == old(w).out@ + blank_t(indent),
        final(w).col == col_after(old(w).col, blank_t(indent)),
        final(w).reserved == old(w).reserved,
{
    proof {
        lemma_col_after_newline(w.col, indent);
    }
    w.out.push('\n');
    w.out.push('\n');
    push_spaces(&mut w.out, indent);
    w.col = indent;
    assert(w.out@ =~= old(w).out@ + blank_t(indent));
}

fn line_cost_of(len: usize, first: bool, last: bool, start_col: usize, reserved: usize, width: usize) -> (r: usize)
    ensures
        r == line_cost(len as nat, first, last, start_col, reserved, width),
{
    let mut column = len;
    if first {
        column = column.saturating_add(start_col);
    }
    if last {
        column = column.saturating_add(reserved);
    }
    column.saturating_sub(width)
}

/// Total number of columns by which the region overruns `width`, counting the
/// closing delimiters the enclosing forms still owe the last line.
fn overflow(region: &[char], start_col: usize, reserved: usize, width: usize) -> (r: usize)
    ensures
        r == overflow_t(region@, start_col, reserved, width),
{
    let mut total: usize = 0;
    let mut len: usize = 0;
    let mut first = true;
    let mut i: usize = 0;
    while i < region.len()
        invariant
            i <= region@.len(),
            len <= i,
            overflow_state(region@.take(i as int), start_col, reserved, width) == (total, len as nat, first),
        decreases region@.len() - i,
    {
        assert(region@.take(i + 1).drop_last() =~= region@.take(i as int));
        if region[i] == '\n' {
            let cost = line_cost_of(len, first, false, start_col, reserved, width);
            total = total.saturating_add(cost);
            len = 0;
            first = false;
        } else {
            len += 1;
        }
        i += 1;
    }
    assert(region@.take(region@.len() as int) =~= region@);
    let cost = line_cost_of(len, first, true, start_col, reserved, width);
    total.saturating_add(cost)
}

fn plans(items: &Vec<Node>, config: &Config, open_col: usize) -> (r: Vec<Plan>)
    ensures
        r@ == plans_t(nvs(items@), *config, open_col),
{
    proof {
        lemma_nvs(items@);
    }
    let body = Plan { line_items: 1, indent: open_col.saturating_add(2) };
    let plain = Plan { line_items: 1, indent: open_col.saturating_add(1) };
    let mut r: Vec<Plan> = Vec::new();
    if items.len() == 0 {
        r.push(plain);
        return r;
    }
    match items[0].atom_text() {
        None => {
            r.push(plain);
        },
        Some(name) => {
            let chars = chars_of(name);
            match bindings_index(items, chars.as_slice()) {
                Some(index) => {
                    r.push(Plan { line_items: 1usize.saturating_add(index), indent: body.indent });
                },
                None => match special_form(chars.as_slice()) {
                    Some(d) => {
                        r.push(Plan { line_items: 1usize.saturating_add(d), indent: body.indent });
                    },
                    None => {
                        let aligned = open_col.saturating_add(1).saturating_add(chars.len()).saturating_add(1);
                        if aligned < config.width {
                            r.push(Plan { line_items: 2, indent: aligned });
                        }
                        r.push(body);
                    },
                },
            }
        },
    }
    r
}

fn child_role(items: &Vec<Node>, index: usize) -> (r: Role)
    ensures
        r == child_role_v(nvs(items@), index as nat),
{
    proof {
        lemma_nvs(items@);
    }
    if items.len() == 0 {
        return Role::Normal;
    }
    match items[0].atom_text() {
        None => Role::Normal,
        Some(name) => {
            let chars = chars_of(name);
            match bindings_index(items, chars.as_slice()) {
                Some(b) => if b == index {
                    Role::Bindings
                } else {
                    Role::Normal
                },
                None => Role::Normal,
            }
        },
    }
}


/// The best candidate so far, as plain values.
spec fn best_view(b: Option<(usize, Vec<char>)>) -> Option<(usize, Seq<char>)> {
    match b {
        Some((cost, t)) => Some((cost, t@)),
        None => None,
    }
}

fn render_node(w: &mut Writer, node: &Node, role: Role, config: &Config)
    ensures
        final(w).out@ == old(w).out@ + render_t(nv(*node), role, old(w).col, old(w).reserved, *config),
        final(w).col == col_after(old(w).col, render_t(nv(*node), role, old(w).col, old(w).reserved, *config)),
        final(w).reserved == old(w).reserved,
    decreases node, 4nat,
{
    match &node.kind {
        NodeKind::Atom(text) => {
            let t = chars_of(text.as_str());
            wpush(w, t.as_slice());
        },
        NodeKind::Comment(comment) => {
            let t = chars_of(comment.text.as_str());
            wpush(w, t.as_slice());
        },
        NodeKind::Verbatim(text) => {
            let t = chars_of(text.as_str());
            wpush(w, t.as_slice());
        },
        NodeKind::Prefix(prefix) => {
            let ghost c0 = w.col;
            let t = chars_of(prefix.text.as_str());
            wpush(w, t.as_slice());
            proof {
                assert(decreases_to!(*node => node.kind));
                assert(decreases_to!(node.kind => node.kind->Prefix_0));
            }
            let ghost c1 = w.col;
            render_node(w, &prefix.target, Role::Normal, config);
            proof {
                let body = render_t(nv(*prefix.target), Role::Normal, c1, w.reserved, *config);
                lemma_col_after_concat(c0, t@, body);
                assert(w.out@ =~= old(w).out@ + (t@ + body));
            }
        },
        NodeKind::List(_) => {
            render_list(w, node, role, config);
        },
    }
}

fn render_list(w: &mut Writer, node: &Node, role: Role, config: &Config)
    requires
        node.kind is List,
    ensures
        final(w).out@ == old(w).out@ + list_t(nv(*node), role, old(w).col, old(w).reserved, *config),
        final(w).col == col_after(old(w).col, list_t(nv(*node), role, old(w).col, old(w).reserved, *config)),
        final(w).reserved == old(w).reserved,
    decreases node, 3nat,
{
    let list = match &node.kind {
        NodeKind::List(list) => list,
        _ => {
            proof {
                assert(false);
            }
            return;
        },
    };
    let ghost n = nv(*node);
    let ghost o = w.out@;
    let open_col = w.col;
    let reserved = w.reserved;
    let one_per_line = role == Role::Bindings && config.passes.align_let_bindings;
    if !one_per_line {
        match flat(node) {
            Some(text) => {
                if open_col.saturating_add(text.len()).saturating_add(reserved) <= config.width {
                    wpush(w, text.as_slice());
                    return;
                }
            },
            None => {},
        }
    }
    let cands = plans(&list.items, config, open_col);
    let mark = w.out.len();
    let mut best: Option<(usize, Vec<char>)> = None;
    let mut i: usize = 0;
    while i < cands.len()
        invariant
            node.kind == NodeKind::List(*list),
            n == nv(*node),
            items_of(n) == nvs(list.items@),
            !(!one_per_line && flat_t(n) is Some && open_col.saturating_add(flat_t(n)->0.len() as usize).saturating_add(reserved) <= config.width),
            one_per_line == (role == Role::Bindings && config.passes.align_let_bindings),
            cands@ == plans_t(items_of(n), *config, open_col),
            i <= cands@.len(),
            mark == o.len(),
            o == old(w).out@,
            open_col == old(w).col,
            reserved == old(w).reserved,
            w.out@ == o,
            w.reserved == reserved,
            list_t(n, role, open_col, reserved, *config) == choose_t(
                n,
                cands@,
                i as nat,
                best_view(best),
                open_col,
                reserved,
                *config,
            ),
        decreases cands@.len() - i,
    {
        let ghost bestv = best_view(best);
        w.col = open_col;
        let plan = cands[i];
        emit(w, node, plan, config);
        let region = w.out.split_off(mark);
        let ghost t = emit_t(n, cands@[i as int], open_col, reserved, *config);
        assert(region@ =~= t);
        let cost = overflow(region.as_slice(), open_col, reserved, config.width);
        assert(w.out@ =~= o);
        if cost == 0 {
            push_all(&mut w.out, region.as_slice());
            assert(w.out@ =~= o + t);
            assert(choose_t(n, cands@, i as nat, bestv, open_col, reserved, *config) == t);
            return;
        }
        let better = match &best {
            Some((lowest, _)) => cost < *lowest,
            None => true,
        };
        if better {
            best = Some((cost, region));
        }
        proof {
            let nextv = best_view(best);
            let sb = match bestv {
                Some((lowest, _)) => cost < lowest,
                None => true,
            };
            assert(sb == better);
            assert(nextv == (if sb { Some((cost, t)) } else { bestv }));
            assert(choose_t(n, cands@, i as nat, bestv, open_col, reserved, *config) == choose_t(
                n,
                cands@,
                (i + 1) as nat,
                nextv,
                open_col,
                reserved,
                *config,
            ));
        }
        i += 1;
    }
    w.col = open_col;
    match best {
        Some((_, text)) => {
            wpush(w, text.as_slice());
        },
        None => {},
    }
}

/// Writes a list by `plan`.
fn emit(w: &mut Writer, node: &Node, plan: Plan, config: &Config)
    requires
        node.kind is List,
    ensures
        final(w).out@ == old(w).out@ + emit_t(nv(*node), plan, old(w).col, old(w).reserved, *config),
        final(w).col == col_after(old(w).col, emit_t(nv(*node), plan, old(w).col, old(w).reserved, *config)),
        final(w).reserved == old(w).reserved,
    decreases node, 1nat,
{
    let list = match &node.kind {
        NodeKind::List(list) => list,
        _ => {
            proof {
                assert(false);
            }
            return;
        },
    };
    let ghost n = nv(*node);
    let ghost o = w.out@;
    let ghost c0 = w.col;
    let reserved = w.reserved;
    let mut head: Vec<char> = Vec::new();
    push_open(&mut head, list.open, list.modifier);
    wpush(w, head.as_slice());
    let close = list.open.close();
    proof {
        lemma_nvs(list.items@);
    }
    if list.items.len() == 0 {
        wpush_char(w, close);
        proof {
            lemma_col_after_concat(c0, head@, seq![close]);
            assert(w.out@ =~= o + (head@ + seq![close]));
        }
        return;
    }
    proof {
        lemma_nvs(list.items@);
    }
    let ghost base = w.out@.len();
    let ghost c1 = w.col;
    let ghost st0 = EmitState { text: seq![], col: c1, broken: false, ends_lc: false };
    let mut broken = false;
    let mut ends = false;
    let mut index: usize = 0;
    assert(w.out@.skip(base as int) =~= Seq::<char>::empty());
    while index < list.items.len()
        invariant
            node.kind == NodeKind::List(*list),
            n == nv(*node),
            items_of(n) == nvs(list.items@),
            items_of(n).len() == list.items@.len(),
            forall|j: int| 0 <= j < list.items@.len() ==> #[trigger] items_of(n)[j] == nv(list.items@[j]),
            index <= list.items@.len(),
            base == o.len() + head@.len(),
            w.out@.len() >= base,
            w.out@.take(base as int) == o + head@,
            w.reserved == reserved,
            c1 == col_after(c0, head@),
            w.col == col_after(c1, w.out@.skip(base as int)),
            !broken ==> !ends,
            items_t(n, plan, 0, st0, reserved, *config) == items_t(
                n,
                plan,
                index as nat,
                EmitState { text: w.out@.skip(base as int), col: w.col, broken, ends_lc: ends },
                reserved,
                *config,
            ),
        decreases list.items@.len() - index,
    {
        let ghost before = w.out@;
        let ghost st = EmitState { text: w.out@.skip(base as int), col: w.col, broken, ends_lc: ends };
        let item = &list.items[index];
        let is_lc = item.is_line_comment();
        let own_line_comment = is_lc && item.own_line;
        let trailing_comment = is_lc && !item.own_line;
        let forced = item.blank_before || own_line_comment;
        let inline = index < plan.line_items && !broken && !forced;
        let same_line = (trailing_comment && !ends) || inline;
        if index == 0 {
            if own_line_comment {
                wnewline(w, plan.indent);
            }
        } else if same_line {
            wpush_char(w, ' ');
        } else if item.blank_before {
            wblank(w, plan.indent);
        } else {
            wnewline(w, plan.indent);
        }
        let ghost sep = item_sep(nv(*item), index as nat, plan, st);
        assert(w.out@ == before + sep);
        let ghost col1 = w.col;
        let role = child_role(&list.items, index);
        proof {
            assert(decreases_to!(*node => node.kind));
            assert(decreases_to!(node.kind => node.kind->List_0));
            assert(decreases_to!(node.kind->List_0 => node.kind->List_0.items));
            assert(decreases_to!(node.kind->List_0.items => node.kind->List_0.items@));
            assert(decreases_to!(node.kind->List_0.items@ => list.items@[index as int]));
        }
        if index + 1 == list.items.len() {
            w.reserved = reserved.saturating_add(1);
            render_node(w, item, role, config);
            w.reserved = reserved;
        } else {
            render_node(w, item, role, config);
        }
        proof {
            let res = if index + 1 == list.items@.len() {
                reserved.saturating_add(1)
            } else {
                reserved
            };
            let body = render_t(nv(*item), role, col1, res, *config);
            assert(w.out@ == before + sep + body);
            assert(w.out@.skip(base as int) =~= st.text + sep + body);
            lemma_col_after_concat(c1, st.text, sep);
            lemma_col_after_concat(c1, st.text + sep, body);
            assert(w.out@.take(base as int) =~= before.take(base as int));
        }
        ends = is_lc;
        broken = broken || ends;
        index += 1;
    }
    let ghost fin = EmitState { text: w.out@.skip(base as int), col: w.col, broken, ends_lc: ends };
    assert(items_t(n, plan, index as nat, fin, reserved, *config) == fin);
    let ghost c2 = w.col;
    assert(w.out@ =~= w.out@.take(base as int) + w.out@.skip(base as int));
    assert(w.out@ =~= o + head@ + fin.text);
    if ends {
        wnewline(w, plan.indent);
    }
    let ghost tail = if ends {
        newline_t(plan.indent)
    } else {
        Seq::<char>::empty()
    };
    wpush_char(w, close);
    proof {
        lemma_col_after_concat(c0, head@, fin.text);
        lemma_col_after_concat(c0, head@ + fin.text, tail);
        lemma_col_after_concat(c0, head@ + fin.text + tail, seq![close]);
        assert(w.out@ =~= o + (head@ + fin.text + tail + seq![close]));
    }
}


// ---------------------------------------------------------------------------
// Top level
// ---------------------------------------------------------------------------

/// What stands between two top-level forms.
#[derive(Debug, Clone, Copy, PartialEq, Eq, Structural)]
pub enum Separator {
    Space,
    Line,
    Blank,
}

/// The separator between two neighbouring top-level nodes. `doc_run` says
/// that `previous` ends a run of comments opened by a `;;@doc` marker.
pub open spec fn separator_v(previous: NodeV, current: NodeV, doc_run: bool, c: Config) -> Separator {
    let current_is_comment = is_comment_v(current);
    if current_is_comment && !current.own_line {
        Separator::Space
    } else if is_comment_v(previous) && !current.blank_before {
        Separator::Line
    } else if is_comment_v(previous) && doc_run && c.passes.attach_doc_comments && !current_is_comment {
        Separator::Line
    } else if c.passes.blank_lines {
        if require_family_v(previous) && require_family_v(current) {
            Separator::Line
        } else {
            Separator::Blank
        }
    } else if current.blank_before {
        Separator::Blank
    } else {
        Separator::Line
    }
}

pub open spec fn separator_text(s: Separator) -> Seq<char> {
    match s {
        Separator::Space => seq![' '],
        Separator::Line => newline_t(0),
        Separator::Blank => blank_t(0),
    }
}

/// Whether a run of comments opened by a `;;@doc` marker continues past `n`.
pub open spec fn doc_run_after(n: NodeV, doc_run: bool) -> bool {
    match n.kind {
        KindV::Comment(t, _) => if n.blank_before {
            is_doc_marker_v(t)
        } else {
            doc_run || is_doc_marker_v(t)
        },
        _ => false,
    }
}

/// The top-level nodes written one after another: the text, the column it
/// ends in, and whether a doc comment run is open at its end.
pub open spec fn top_t(nodes: Seq<NodeV>, c: Config) -> (Seq<char>, usize, bool)
    decreases nodes.len(),
{
    if nodes.len() == 0 {
        (seq![], 0, false)
    } else {
        let (text, col, doc_run) = top_t(nodes.drop_last(), c);
        let k = nodes.len() - 1;
        let sep = if k > 0 {
            separator_text(separator_v(nodes[k - 1], nodes[k], doc_run, c))
        } else {
            seq![]
        };
        let col1 = col_after(col, sep);
        let body = render_t(nodes[k], Role::Normal, col1, 0, c);
        (text + sep + body, col_after(col1, body), doc_run_after(nodes[k], doc_run))
    }
}

/// The formatted text of a sequence of top-level nodes: each laid out, the
/// whole ending in exactly one newline unless it is empty.
pub open spec fn render_v(nodes: Seq<NodeV>, c: Config) -> Seq<char> {
    let text = top_t(nodes, c).0;
    if text.len() == 0 {
        text
    } else {
        text.push('\n')
    }
}

fn separator(previous: &Node, current: &Node, doc_run: bool, config: &Config) -> (r: Separator)
    ensures
        r == separator_v(nv(*previous), nv(*current), doc_run, *config),
{
    let current_is_comment = current.is_comment();
    if current_is_comment && !current.own_line {
        return Separator::Space;
    }
    if previous.is_comment() {
        if !current.blank_before {
            return Separator::Line;
        }
        if doc_run && config.passes.attach_doc_comments && !current_is_comment {
            return Separator::Line;
        }
    }
    if config.passes.blank_lines {
        if require_family(previous) && require_family(current) {
            return Separator::Line;
        }
        return Separator::Blank;
    }
    if current.blank_before {
        Separator::Blank
    } else {
        Separator::Line
    }
}

/// Lays out the top-level nodes.
pub fn render(nodes: &[Node], config: &Config) -> (out: String)
    ensures
        out@ == render_v(nvs(nodes@), *config),
{
    let ghost ns = nvs(nodes@);
    proof {
        lemma_nvs(nodes@);
    }
    let mut w = Writer { out: Vec::new(), col: 0, reserved: 0 };
    let mut doc_run = false;
    let mut index: usize = 0;
    assert(ns.take(0) =~= Seq::<NodeV>::empty());
    while index < nodes.len()
        invariant
            ns == nvs(nodes@),
            ns.len() == nodes@.len(),
            forall|j: int| 0 <= j < nodes@.len() ==> #[trigger] ns[j] == nv(nodes@[j]),
            index <= nodes@.len(),
            w.reserved == 0,
            top_t(ns.take(index as int), *config) == (w.out@, w.col, doc_run),
        decreases nodes@.len() - index,
    {
        let ghost before = w.out@;
        let ghost c0 = w.col;
        let ghost d0 = doc_run;
        let node = &nodes[index];
        assert(ns.take(index + 1).drop_last() =~= ns.take(index as int));
        let ghost sep = if index > 0 {
            separator_text(separator_v(ns[index - 1], ns[index as int], d0, *config))
        } else {
            Seq::<char>::empty()
        };
        if index > 0 {
            match separator(&nodes[index - 1], node, doc_run, config) {
                Separator::Space => wpush_char(&mut w, ' '),
                Separator::Line => wnewline(&mut w, 0),
                Separator::Blank => wblank(&mut w, 0),
            }
        }
        assert(w.out@ == before + sep);
        let ghost c1 = w.col;
        render_node(&mut w, node, Role::Normal, config);
        doc_run = match &node.kind {
            NodeKind::Comment(comment) => {
                let marker = is_doc_marker(comment.text.as_str());
                if node.blank_before {
                    marker
                } else {
                    doc_run || marker
                }
            },
            _ => false,
        };
        proof {
            let body = render_t(ns[index as int], Role::Normal, c1, 0, *config);
            assert(w.out@ =~= before + sep + body);
        }
        index += 1;
    }
    assert(ns.take(nodes@.len() as int) =~= ns);
    if w.out.len() > 0 {
        w.out.push('\n');
    }
    string_of(w.out.as_slice())
}


// ---------------------------------------------------------------------------
// Laws of layout
// ---------------------------------------------------------------------------

/// Rule L6: a form that is not a binding list under an aligned `let` is
/// written on one line when its single line rendering fits, counting the
/// column it starts at and the closing delimiters still owed to its line.
pub proof fn lemma_fitting_form_stays_flat(n: NodeV, role: Role, col: usize, reserved: usize, c: Config)
    requires
        n.kind is List,
        !(role == Role::Bindings && c.passes.align_let_bindings),
        flat_t(n) is Some,
        col.saturating_add(flat_t(n)->0.len() as usize).saturating_add(reserved) <= c.width,
    ensures
        render_t(n, role, col, reserved, c) == flat_t(n)->0,
{
    assert(render_t(n, role, col, reserved, c) == list_t(n, role, col, reserved, c));
}

/// Rule L11: among the candidate plans from the `i`th on, and the best one
/// kept so far, the layout chosen overruns the width by no more than any of
/// them.
pub proof fn lemma_choice_overruns_least(
    n: NodeV,
    cands: Seq<Plan>,
    i: nat,
    best: Option<(usize, Seq<char>)>,
    col: usize,
    reserved: usize,
    c: Config,
)
    requires
        best matches Some((cost, t)) ==> cost == overflow_t(t, col, reserved, c.width),
    ensures
        forall|j: int|
            i <= j < cands.len() ==> overflow_t(choose_t(n, cands, i, best, col, reserved, c), col, reserved, c.width)
                <= overflow_t(#[trigger] emit_t(n, cands[j], col, reserved, c), col, reserved, c.width),
        best matches Some((cost, t)) ==> overflow_t(choose_t(n, cands, i, best, col, reserved, c), col, reserved, c.width)
            <= cost,
    decreases cands.len() - i,
{
    if i < cands.len() {
        let t = emit_t(n, cands[i as int], col, reserved, c);
        let cost = overflow_t(t, col, reserved, c.width);
        if cost != 0 {
            let better = match best {
                Some((lowest, _)) => cost < lowest,
                None => true,
            };
            let next = if better {
                Some((cost, t))
            } else {
                best
            };
            lemma_choice_overruns_least(n, cands, i + 1, next, col, reserved, c);
        }
    }
}


/// Whether a node is written ending in something other than a newline: its
/// text, or the text of the datum a prefix applies to, is not empty and does
/// not end in a newline. A list always ends in its closing delimiter.
pub open spec fn ends_clean(n: NodeV) -> bool
    decreases n,
{
    match n.kind {
        KindV::Atom(t) => t.len() > 0 && t.last() != '\n',
        KindV::Comment(t, _) => t.len() > 0 && t.last() != '\n',
        KindV::Verbatim(t) => t.len() > 0 && t.last() != '\n',
        KindV::Prefix(_, target) => ends_clean(*target),
        KindV::List(_, _, _, _) => true,
    }
}

/// Whether every atom, comment and verbatim text in a node is non-empty and
/// does not end in a newline.
pub open spec fn deep_clean(n: NodeV) -> bool
    decreases n,
{
    match n.kind {
        KindV::Atom(t) => t.len() > 0 && t.last() != '\n',
        KindV::Comment(t, _) => t.len() > 0 && t.last() != '\n',
        KindV::Verbatim(t) => t.len() > 0 && t.last() != '\n',
        KindV::Prefix(_, target) => deep_clean(*target),
        KindV::List(_, _, items, _) => each_clean(items),
    }
}

/// Every node of `nodes` is clean throughout.
pub open spec fn each_clean(nodes: Seq<NodeV>) -> bool
    decreases nodes,
{
    if nodes.len() == 0 {
        true
    } else {
        proof {
            assert(decreases_to!(nodes => nodes[nodes.len() - 1]));
        }
        each_clean(nodes.drop_last()) && deep_clean(nodes.last())
    }
}

/// Every node of `nodes` is clean throughout, node by node.
pub open spec fn all_clean(nodes: Seq<NodeV>) -> bool {
    forall|i: int| 0 <= i < nodes.len() ==> #[trigger] deep_clean(nodes[i])
}

/// The two ways of saying that every node is clean agree.
pub proof fn lemma_each_clean(nodes: Seq<NodeV>)
    ensures
        each_clean(nodes) == all_clean(nodes),
    decreases nodes.len(),
{
    if nodes.len() > 0 {
        let rest = nodes.drop_last();
        lemma_each_clean(rest);
        if all_clean(nodes) {
            assert forall|i: int| 0 <= i < rest.len() implies #[trigger] deep_clean(rest[i]) by {
                assert(rest[i] == nodes[i]);
            }
            assert(deep_clean(nodes[nodes.len() - 1]));
        }
        if each_clean(nodes) {
            assert forall|i: int| 0 <= i < nodes.len() implies #[trigger] deep_clean(nodes[i]) by {
                if i < rest.len() {
                    assert(rest[i] == nodes[i]);
                }
            }
        }
    }
}

/// A node clean throughout ends clean.
pub proof fn lemma_deep_clean_ends_clean(n: NodeV)
    requires
        deep_clean(n),
    ensures
        ends_clean(n),
    decreases n,
{
    if let KindV::Prefix(_, target) = n.kind {
        lemma_deep_clean_ends_clean(*target);
    }
}

proof fn lemma_emit_ends_with_close(n: NodeV, plan: Plan, col: usize, reserved: usize, c: Config)
    requires
        n.kind is List,
    ensures
        emit_t(n, plan, col, reserved, c).len() > 0,
        emit_t(n, plan, col, reserved, c).last() == close_char(n.kind->List_0),
{
}

proof fn lemma_choice_ends_clean(
    n: NodeV,
    cands: Seq<Plan>,
    i: nat,
    best: Option<(usize, Seq<char>)>,
    col: usize,
    reserved: usize,
    c: Config,
)
    requires
        n.kind is List,
        best matches Some((_, t)) ==> t.len() > 0 && t.last() != '\n',
        best is None ==> i < cands.len(),
    ensures
        choose_t(n, cands, i, best, col, reserved, c).len() > 0,
        choose_t(n, cands, i, best, col, reserved, c).last() != '\n',
    decreases cands.len() - i,
{
    if i < cands.len() {
        let t = emit_t(n, cands[i as int], col, reserved, c);
        lemma_emit_ends_with_close(n, cands[i as int], col, reserved, c);
        let cost = overflow_t(t, col, reserved, c.width);
        if cost != 0 {
            let better = match best {
                Some((lowest, _)) => cost < lowest,
                None => true,
            };
            let next = if better {
                Some((cost, t))
            } else {
                best
            };
            lemma_choice_ends_clean(n, cands, i + 1, next, col, reserved, c);
        }
    }
}

/// A node that ends clean is written as a non-empty text that does not end
/// in a newline.
pub proof fn lemma_render_ends_clean(n: NodeV, role: Role, col: usize, reserved: usize, c: Config)
    requires
        ends_clean(n),
    ensures
        render_t(n, role, col, reserved, c).len() > 0,
        render_t(n, role, col, reserved, c).last() != '\n',
    decreases n,
{
    match n.kind {
        KindV::Prefix(p, target) => {
            lemma_render_ends_clean(*target, Role::Normal, col_after(col, p), reserved, c);
            let r = render_t(*target, Role::Normal, col_after(col, p), reserved, c);
            assert((p + r).last() == r.last());
        },
        KindV::List(open, modifier, items, fb) => {
            assert(render_t(n, role, col, reserved, c) == list_t(n, role, col, reserved, c));
            let cands = plans_t(items_of(n), c, col);
            assert(cands.len() > 0);
            lemma_choice_ends_clean(n, cands, 0, None, col, reserved, c);
        },
        _ => {},
    }
}

/// Rule L3: the top-level nodes are written ending in exactly one newline,
/// or as nothing when there are none, provided the last of them ends clean.
pub proof fn lemma_render_ends_with_one_newline(nodes: Seq<NodeV>, c: Config)
    requires
        nodes.len() > 0 ==> ends_clean(nodes.last()),
    ensures
        nodes.len() == 0 ==> render_v(nodes, c).len() == 0,
        nodes.len() > 0 ==> render_v(nodes, c).len() >= 2 && render_v(nodes, c).last() == '\n'
            && render_v(nodes, c)[render_v(nodes, c).len() - 2] != '\n',
{
    if nodes.len() > 0 {
        let (text, col, doc_run) = top_t(nodes.drop_last(), c);
        let k = nodes.len() - 1;
        let sep = if k > 0 {
            separator_text(separator_v(nodes[k - 1], nodes[k], doc_run, c))
        } else {
            seq![]
        };
        let col1 = col_after(col, sep);
        let body = render_t(nodes[k], Role::Normal, col1, 0, c);
        lemma_render_ends_clean(nodes[k], Role::Normal, col1, 0, c);
        let all = text + sep + body;
        assert(top_t(nodes, c).0 == all);
        assert(all.last() == body.last());
        let out = render_v(nodes, c);
        assert(out == all.push('\n'));
        assert(out[out.len() - 2] == all.last());
    }
}


// ---------------------------------------------------------------------------
// No line ends in white space
// ---------------------------------------------------------------------------

/// White space other than a newline.
pub open spec fn blank_char(c: char) -> bool {
    c == ' ' || c == '\t' || c == '\r'
}

/// A text that leaves no white space at the end of a line wherever it is
/// put between separators: it is not empty, does not start with a newline,
/// does not end in white space, and has no white space right before a
/// newline.
pub open spec fn tidy(t: Seq<char>) -> bool {
    &&& t.len() > 0
    &&& t[0] != '\n'
    &&& !blank_char(t.last())
    &&& forall|i: int| 1 <= i < t.len() && #[trigger] t[i] == '\n' ==> !blank_char(t[i - 1])
}

/// A separator that puts a newline only at its start or right after another
/// newline.
pub open spec fn sep_ok(s: Seq<char>) -> bool {
    forall|i: int| 0 <= i < s.len() && #[trigger] s[i] == '\n' ==> i == 0 || s[i - 1] == '\n'
}

/// Whether every text in a node is tidy: its atoms, comments, verbatim
/// regions and prefixes, and a line comment holds no newline.
pub open spec fn deep_tidy(n: NodeV) -> bool
    decreases n,
{
    match n.kind {
        KindV::Atom(t) => tidy(t),
        KindV::Comment(t, block) => tidy(t) && (!block ==> !t.contains('\n')),
        KindV::Verbatim(t) => tidy(t),
        KindV::Prefix(p, target) => tidy(p) && deep_tidy(*target),
        KindV::List(_, _, items, _) => each_tidy(items),
    }
}

/// Every node of `nodes` is tidy throughout.
pub open spec fn each_tidy(nodes: Seq<NodeV>) -> bool
    decreases nodes,
{
    if nodes.len() == 0 {
        true
    } else {
        proof {
            assert(decreases_to!(nodes => nodes[nodes.len() - 1]));
        }
        each_tidy(nodes.drop_last()) && deep_tidy(nodes.last())
    }
}

/// Every node of `nodes` is tidy throughout, node by node.
pub open spec fn all_tidy(nodes: Seq<NodeV>) -> bool {
    forall|i: int| 0 <= i < nodes.len() ==> #[trigger] deep_tidy(nodes[i])
}

/// The two ways of saying that every node is tidy agree.
pub proof fn lemma_each_tidy(nodes: Seq<NodeV>)
    ensures
        each_tidy(nodes) == all_tidy(nodes),
    decreases nodes.len(),
{
    if nodes.len() > 0 {
        let rest = nodes.drop_last();
        lemma_each_tidy(rest);
        if all_tidy(nodes) {
            assert forall|i: int| 0 <= i < rest.len() implies #[trigger] deep_tidy(rest[i]) by {
                assert(rest[i] == nodes[i]);
            }
            assert(deep_tidy(nodes[nodes.len() - 1]));
        }
        if each_tidy(nodes) {
            assert forall|i: int| 0 <= i < nodes.len() implies #[trigger] deep_tidy(nodes[i]) by {
                if i < rest.len() {
                    assert(rest[i] == nodes[i]);
                }
            }
        }
    }
}

/// Two tidy texts joined by a separator make a tidy text.
pub proof fn lemma_join(a: Seq<char>, s: Seq<char>, b: Seq<char>)
    requires
        tidy(a),
        tidy(b),
        sep_ok(s),
    ensures
        tidy(a + s + b),
{
    let t = a + s + b;
    assert forall|i: int| 1 <= i < t.len() && #[trigger] t[i] == '\n' implies !blank_char(t[i - 1]) by {
        if i < a.len() {
            assert(t[i] == a[i] && t[i - 1] == a[i - 1]);
        } else if i < a.len() + s.len() {
            let j = i - a.len();
            assert(t[i] == s[j]);
            if j == 0 {
                assert(t[i - 1] == a[a.len() - 1]);
            } else {
                assert(t[i - 1] == s[j - 1]);
            }
        } else {
            let j = i - a.len() - s.len();
            assert(t[i] == b[j]);
            if j > 0 {
                assert(t[i - 1] == b[j - 1]);
            }
        }
    }
    assert(t[0] == a[0]);
    assert(t[t.len() - 1] == b[b.len() - 1]);
}

proof fn lemma_separators_ok(indent: usize)
    ensures
        sep_ok(seq![]),
        sep_ok(seq![' ']),
        sep_ok(newline_t(indent)),
        sep_ok(blank_t(indent)),
{
    let n = newline_t(indent);
    assert forall|i: int| 0 <= i < n.len() && #[trigger] n[i] == '\n' implies i == 0 || n[i - 1] == '\n' by {
        if i > 0 {
            assert(n[i] == spaces(indent as nat)[i - 1]);
        }
    }
    let b = blank_t(indent);
    assert forall|i: int| 0 <= i < b.len() && #[trigger] b[i] == '\n' implies i == 0 || b[i - 1] == '\n' by {
        if i > 1 {
            assert(b[i] == spaces(indent as nat)[i - 2]);
        }
    }
}

proof fn lemma_item_sep_ok(item: NodeV, k: nat, plan: Plan, st: EmitState)
    ensures
        sep_ok(item_sep(item, k, plan, st)),
{
    lemma_separators_ok(plan.indent);
}

proof fn lemma_open_text_tidy(open: Delim, modifier: Option<Modifier>)
    ensures
        tidy(open_text(open, modifier)),
        tidy(seq![close_char(open)]),
{
    reveal_strlit("#");
    reveal_strlit("#u8");
    let t = open_text(open, modifier);
    assert(forall|i: int| 0 <= i < t.len() ==> t[i] != '\n');
}

proof fn lemma_flat_tidy(n: NodeV)
    requires
        deep_tidy(n),
        flat_t(n) is Some,
    ensures
        tidy(flat_t(n)->0),
    decreases n, 1nat,
{
    match n.kind {
        KindV::Prefix(p, target) => {
            lemma_flat_tidy(*target);
            lemma_separators_ok(0);
            lemma_join(p, seq![], flat_t(*target)->0);
            assert(p + seq![] + flat_t(*target)->0 =~= p + flat_t(*target)->0);
        },
        KindV::List(open, modifier, items, _) => {
            lemma_each_tidy(items);
            lemma_flat_items_tidy(items, items.len());
            lemma_open_text_tidy(open, modifier);
            lemma_separators_ok(0);
            let body = flat_items_t(items, items.len())->0;
            if items.len() == 0 {
                lemma_join(open_text(open, modifier), seq![], seq![close_char(open)]);
                assert(open_text(open, modifier) + body + seq![close_char(open)] =~= open_text(open, modifier)
                    + seq![] + seq![close_char(open)]);
            } else {
                lemma_join(open_text(open, modifier), seq![], body);
                assert(open_text(open, modifier) + seq![] + body =~= open_text(open, modifier) + body);
                lemma_join(open_text(open, modifier) + body, seq![], seq![close_char(open)]);
                assert(open_text(open, modifier) + body + seq![] + seq![close_char(open)] =~= open_text(open, modifier)
                    + body + seq![close_char(open)]);
            }
        },
        _ => {},
    }
}

proof fn lemma_flat_items_tidy(items: Seq<NodeV>, k: nat)
    requires
        all_tidy(items),
        flat_items_t(items, k) is Some,
    ensures
        (k == 0 || k > items.len()) ==> flat_items_t(items, k)->0.len() == 0,
        (0 < k <= items.len()) ==> tidy(flat_items_t(items, k)->0),
    decreases items, 0nat, k,
{
    if 0 < k <= items.len() {
        assert(decreases_to!(items => items[k - 1]));
        lemma_flat_items_tidy(items, (k - 1) as nat);
        assert(deep_tidy(items[k - 1]));
        lemma_flat_tidy(items[k - 1]);
        if k > 1 {
            lemma_separators_ok(0);
            lemma_join(flat_items_t(items, (k - 1) as nat)->0, seq![' '], flat_t(items[k - 1])->0);
        }
    }
}

proof fn lemma_render_tidy(n: NodeV, role: Role, col: usize, reserved: usize, c: Config)
    requires
        deep_tidy(n),
    ensures
        tidy(render_t(n, role, col, reserved, c)),
    decreases n, 4nat, 0nat,
{
    match n.kind {
        KindV::Prefix(p, target) => {
            lemma_render_tidy(*target, Role::Normal, col_after(col, p), reserved, c);
            let r = render_t(*target, Role::Normal, col_after(col, p), reserved, c);
            lemma_separators_ok(0);
            lemma_join(p, seq![], r);
            assert(p + seq![] + r =~= p + r);
        },
        KindV::List(_, _, _, _) => {
            lemma_list_tidy(n, role, col, reserved, c);
        },
        _ => {},
    }
}

proof fn lemma_list_tidy(n: NodeV, role: Role, col: usize, reserved: usize, c: Config)
    requires
        deep_tidy(n),
        n.kind is List,
    ensures
        tidy(list_t(n, role, col, reserved, c)),
    decreases n, 3nat, 0nat,
{
    let one_per_line = role == Role::Bindings && c.passes.align_let_bindings;
    let flat = flat_t(n);
    if !one_per_line && flat is Some && col.saturating_add(flat->0.len() as usize).saturating_add(reserved)
        <= c.width {
        lemma_flat_tidy(n);
    } else {
        let cands = plans_t(items_of(n), c, col);
        assert(cands.len() > 0);
        lemma_choose_tidy(n, cands, 0, None, col, reserved, c);
    }
}

proof fn lemma_choose_tidy(
    n: NodeV,
    cands: Seq<Plan>,
    i: nat,
    best: Option<(usize, Seq<char>)>,
    col: usize,
    reserved: usize,
    c: Config,
)
    requires
        deep_tidy(n),
        n.kind is List,
        best matches Some((_, t)) ==> tidy(t),
        best is None ==> i < cands.len(),
    ensures
        tidy(choose_t(n, cands, i, best, col, reserved, c)),
    decreases n, 2nat, cands.len() - i,
{
    if i < cands.len() {
        let t = emit_t(n, cands[i as int], col, reserved, c);
        lemma_emit_tidy(n, cands[i as int], col, reserved, c);
        let cost = overflow_t(t, col, reserved, c.width);
        if cost != 0 {
            let better = match best {
                Some((lowest, _)) => cost < lowest,
                None => true,
            };
            let next = if better {
                Some((cost, t))
            } else {
                best
            };
            lemma_choose_tidy(n, cands, i + 1, next, col, reserved, c);
        }
    }
}

proof fn lemma_emit_tidy(n: NodeV, plan: Plan, col: usize, reserved: usize, c: Config)
    requires
        deep_tidy(n),
        n.kind is List,
    ensures
        tidy(emit_t(n, plan, col, reserved, c)),
    decreases n, 1nat, 0nat,
{
    if let KindV::List(open, modifier, items, _) = n.kind {
        let head = open_text(open, modifier);
        lemma_open_text_tidy(open, modifier);
        lemma_separators_ok(plan.indent);
        if items.len() == 0 {
            lemma_join(head, seq![], seq![close_char(open)]);
            assert(head + seq![] + seq![close_char(open)] =~= head + seq![close_char(open)]);
        } else {
            let st0 = EmitState { text: seq![], col: col_after(col, head), broken: false, ends_lc: false };
            assert(head + st0.text =~= head);
            lemma_items_tidy(n, plan, 0, st0, reserved, c, head);
            let st = items_t(n, plan, 0, st0, reserved, c);
            let tail = if st.ends_lc {
                newline_t(plan.indent)
            } else {
                seq![]
            };
            lemma_join(head + st.text, tail, seq![close_char(open)]);
        }
    }
}

proof fn lemma_items_tidy(
    n: NodeV,
    plan: Plan,
    k: nat,
    st: EmitState,
    reserved: usize,
    c: Config,
    head: Seq<char>,
)
    requires
        deep_tidy(n),
        n.kind is List,
        tidy(head + st.text),
    ensures
        tidy(head + items_t(n, plan, k, st, reserved, c).text),
    decreases n, 0nat, items_of(n).len() - k,
{
    let items = items_of(n);
    if k < items.len() {
        let item = items[k as int];
        assert(decreases_to!(n => n.kind));
        assert(decreases_to!(n.kind => n.kind->List_2));
        assert(decreases_to!(n.kind->List_2 => item));
        lemma_each_tidy(n.kind->List_2);
        assert(deep_tidy(item));
        let sep = item_sep(item, k, plan, st);
        let col1 = col_after(st.col, sep);
        let res = if k + 1 == items.len() {
            reserved.saturating_add(1)
        } else {
            reserved
        };
        let body = render_t(item, child_role_v(items, k), col1, res, c);
        lemma_render_tidy(item, child_role_v(items, k), col1, res, c);
        lemma_item_sep_ok(item, k, plan, st);
        lemma_join(head + st.text, sep, body);
        let ends = is_line_comment_v(item);
        let next = EmitState {
            text: st.text + sep + body,
            col: col_after(col1, body),
            broken: st.broken || ends,
            ends_lc: ends,
        };
        assert(head + st.text + sep + body =~= head + next.text);
        lemma_items_tidy(n, plan, k + 1, next, reserved, c, head);
    }
}

proof fn lemma_top_tidy(nodes: Seq<NodeV>, c: Config)
    requires
        all_tidy(nodes),
        nodes.len() > 0,
    ensures
        tidy(top_t(nodes, c).0),
    decreases nodes.len(),
{
    let (text, col, doc_run) = top_t(nodes.drop_last(), c);
    let k = nodes.len() - 1;
    assert(deep_tidy(nodes[k]));
    lemma_separators_ok(0);
    if k > 0 {
        let rest = nodes.drop_last();
        assert forall|i: int| 0 <= i < rest.len() implies #[trigger] deep_tidy(rest[i]) by {
            assert(rest[i] == nodes[i]);
        }
        lemma_top_tidy(rest, c);
        let sep = separator_text(separator_v(nodes[k - 1], nodes[k], doc_run, c));
        let col1 = col_after(col, sep);
        lemma_render_tidy(nodes[k], Role::Normal, col1, 0, c);
        lemma_join(text, sep, render_t(nodes[k], Role::Normal, col1, 0, c));
    } else {
        lemma_render_tidy(nodes[k], Role::Normal, 0, 0, c);
        assert(text + seq![] + render_t(nodes[k], Role::Normal, 0, 0, c) =~= render_t(nodes[k], Role::Normal, 0, 0, c));
    }
}

/// Rule L4: when every text of the top-level nodes is tidy, no line of
/// their rendering ends in white space: every newline in it follows a
/// character other than white space.
pub proof fn lemma_render_has_no_trailing_whitespace(nodes: Seq<NodeV>, c: Config)
    requires
        all_tidy(nodes),
    ensures
        forall|i: int| 0 <= i < render_v(nodes, c).len() && #[trigger] render_v(nodes, c)[i] == '\n'
            ==> i > 0 && !blank_char(render_v(nodes, c)[i - 1]),
{
    if nodes.len() > 0 {
        lemma_top_tidy(nodes, c);
        let text = top_t(nodes, c).0;
        let out = render_v(nodes, c);
        assert(out == text.push('\n'));
        assert forall|i: int| 0 <= i < out.len() && #[trigger] out[i] == '\n' implies i > 0 && !blank_char(out[i - 1]) by {
            if i < text.len() {
                assert(out[i] == text[i]);
                assert(i > 0);
                assert(out[i - 1] == text[i - 1]);
            } else {
                assert(out[i - 1] == text[text.len() - 1]);
            }
        }
    }
}


// ---------------------------------------------------------------------------
// No tab of its own
// ---------------------------------------------------------------------------

/// A text without a tab.
pub open spec fn tabless(t: Seq<char>) -> bool {
    forall|i: int| 0 <= i < t.len() ==> #[trigger] t[i] != '\t'
}

/// Whether no text in a node holds a tab.
pub open spec fn deep_tabless(n: NodeV) -> bool
    decreases n,
{
    match n.kind {
        KindV::Atom(t) => tabless(t),
        KindV::Comment(t, _) => tabless(t),
        KindV::Verbatim(t) => tabless(t),
        KindV::Prefix(p, target) => tabless(p) && deep_tabless(*target),
        KindV::List(_, _, items, _) => each_tabless(items),
    }
}

/// No text of any node of `nodes` holds a tab.
pub open spec fn each_tabless(nodes: Seq<NodeV>) -> bool
    decreases nodes,
{
    if nodes.len() == 0 {
        true
    } else {
        proof {
            assert(decreases_to!(nodes => nodes[nodes.len() - 1]));
        }
        each_tabless(nodes.drop_last()) && deep_tabless(nodes.last())
    }
}

/// No text of any node of `nodes` holds a tab, node by node.
pub open spec fn all_tabless(nodes: Seq<NodeV>) -> bool {
    forall|i: int| 0 <= i < nodes.len() ==> #[trigger] deep_tabless(nodes[i])
}

/// The two ways of saying that no node holds a tab agree.
pub proof fn lemma_each_tabless(nodes: Seq<NodeV>)
    ensures
        each_tabless(nodes) == all_tabless(nodes),
    decreases nodes.len(),
{
    if nodes.len() > 0 {
        let rest = nodes.drop_last();
        lemma_each_tabless(rest);
        if all_tabless(nodes) {
            assert forall|i: int| 0 <= i < rest.len() implies #[trigger] deep_tabless(rest[i]) by {
                assert(rest[i] == nodes[i]);
            }
            assert(deep_tabless(nodes[nodes.len() - 1]));
        }
        if each_tabless(nodes) {
            assert forall|i: int| 0 <= i < nodes.len() implies #[trigger] deep_tabless(nodes[i]) by {
                if i < rest.len() {
                    assert(rest[i] == nodes[i]);
                }
            }
        }
    }
}

proof fn lemma_join_tabless(a: Seq<char>, s: Seq<char>, b: Seq<char>)
    requires
        tabless(a),
        tabless(s),
        tabless(b),
    ensures
        tabless(a + s + b),
{
    let t = a + s + b;
    assert forall|i: int| 0 <= i < t.len() implies #[trigger] t[i] != '\t' by {
        if i < a.len() {
            assert(t[i] == a[i]);
        } else if i < a.len() + s.len() {
            assert(t[i] == s[i - a.len()]);
        } else {
            assert(t[i] == b[i - a.len() - s.len()]);
        }
    }
}

proof fn lemma_separators_tabless(indent: usize)
    ensures
        tabless(seq![]),
        tabless(seq![' ']),
        tabless(newline_t(indent)),
        tabless(blank_t(indent)),
{
    let n = newline_t(indent);
    assert forall|i: int| 0 <= i < n.len() implies #[trigger] n[i] != '\t' by {
        if i > 0 {
            assert(n[i] == spaces(indent as nat)[i - 1]);
        }
    }
    let b = blank_t(indent);
    assert forall|i: int| 0 <= i < b.len() implies #[trigger] b[i] != '\t' by {
        if i > 1 {
            assert(b[i] == spaces(indent as nat)[i - 2]);
        }
    }
}

proof fn lemma_open_text_tabless(open: Delim, modifier: Option<Modifier>)
    ensures
        tabless(open_text(open, modifier)),
        tabless(seq![close_char(open)]),
{
    reveal_strlit("#");
    reveal_strlit("#u8");
}

proof fn lemma_flat_tabless(n: NodeV)
    requires
        deep_tabless(n),
        flat_t(n) is Some,
    ensures
        tabless(flat_t(n)->0),
    decreases n, 1nat,
{
    lemma_separators_tabless(0);
    match n.kind {
        KindV::Prefix(p, target) => {
            lemma_flat_tabless(*target);
            lemma_join_tabless(p, seq![], flat_t(*target)->0);
            assert(p + seq![] + flat_t(*target)->0 =~= p + flat_t(*target)->0);
        },
        KindV::List(open, modifier, items, _) => {
            lemma_each_tabless(items);
            lemma_flat_items_tabless(items, items.len());
            lemma_open_text_tabless(open, modifier);
            let body = flat_items_t(items, items.len())->0;
            lemma_join_tabless(open_text(open, modifier), body, seq![close_char(open)]);
        },
        _ => {},
    }
}

proof fn lemma_flat_items_tabless(items: Seq<NodeV>, k: nat)
    requires
        all_tabless(items),
        flat_items_t(items, k) is Some,
    ensures
        tabless(flat_items_t(items, k)->0),
    decreases items, 0nat, k,
{
    if 0 < k <= items.len() {
        assert(decreases_to!(items => items[k - 1]));
        lemma_flat_items_tabless(items, (k - 1) as nat);
        assert(deep_tabless(items[k - 1]));
        lemma_flat_tabless(items[k - 1]);
        lemma_separators_tabless(0);
        lemma_join_tabless(flat_items_t(items, (k - 1) as nat)->0, seq![' '], flat_t(items[k - 1])->0);
    } else {
        assert(flat_items_t(items, k)->0 =~= Seq::<char>::empty());
    }
}

proof fn lemma_render_tabless(n: NodeV, role: Role, col: usize, reserved: usize, c: Config)
    requires
        deep_tabless(n),
    ensures
        tabless(render_t(n, role, col, reserved, c)),
    decreases n, 4nat, 0nat,
{
    match n.kind {
        KindV::Prefix(p, target) => {
            lemma_render_tabless(*target, Role::Normal, col_after(col, p), reserved, c);
            let r = render_t(*target, Role::Normal, col_after(col, p), reserved, c);
            lemma_separators_tabless(0);
            lemma_join_tabless(p, seq![], r);
            assert(p + seq![] + r =~= p + r);
        },
        KindV::List(_, _, _, _) => {
            lemma_list_tabless(n, role, col, reserved, c);
        },
        _ => {},
    }
}

proof fn lemma_list_tabless(n: NodeV, role: Role, col: usize, reserved: usize, c: Config)
    requires
        deep_tabless(n),
        n.kind is List,
    ensures
        tabless(list_t(n, role, col, reserved, c)),
    decreases n, 3nat, 0nat,
{
    let one_per_line = role == Role::Bindings && c.passes.align_let_bindings;
    let flat = flat_t(n);
    if !one_per_line && flat is Some && col.saturating_add(flat->0.len() as usize).saturating_add(reserved)
        <= c.width {
        lemma_flat_tabless(n);
    } else {
        let cands = plans_t(items_of(n), c, col);
        assert(cands.len() > 0);
        lemma_choose_tabless(n, cands, 0, None, col, reserved, c);
    }
}

proof fn lemma_choose_tabless(
    n: NodeV,
    cands: Seq<Plan>,
    i: nat,
    best: Option<(usize, Seq<char>)>,
    col: usize,
    reserved: usize,
    c: Config,
)
    requires
        deep_tabless(n),
        n.kind is List,
        best matches Some((_, t)) ==> tabless(t),
    ensures
        tabless(choose_t(n, cands, i, best, col, reserved, c)),
    decreases n, 2nat, cands.len() - i,
{
    if i < cands.len() {
        let t = emit_t(n, cands[i as int], col, reserved, c);
        lemma_emit_tabless(n, cands[i as int], col, reserved, c);
        let cost = overflow_t(t, col, reserved, c.width);
        if cost != 0 {
            let better = match best {
                Some((lowest, _)) => cost < lowest,
                None => true,
            };
            let next = if better {
                Some((cost, t))
            } else {
                best
            };
            lemma_choose_tabless(n, cands, i + 1, next, col, reserved, c);
        }
    } else if best is None {
        assert(choose_t(n, cands, i, best, col, reserved, c) =~= Seq::<char>::empty());
    }
}

proof fn lemma_emit_tabless(n: NodeV, plan: Plan, col: usize, reserved: usize, c: Config)
    requires
        deep_tabless(n),
        n.kind is List,
    ensures
        tabless(emit_t(n, plan, col, reserved, c)),
    decreases n, 1nat, 0nat,
{
    if let KindV::List(open, modifier, items, _) = n.kind {
        let head = open_text(open, modifier);
        lemma_open_text_tabless(open, modifier);
        lemma_separators_tabless(plan.indent);
        if items.len() == 0 {
            lemma_join_tabless(head, seq![], seq![close_char(open)]);
            assert(head + seq![] + seq![close_char(open)] =~= head + seq![close_char(open)]);
        } else {
            let st0 = EmitState { text: seq![], col: col_after(col, head), broken: false, ends_lc: false };
            lemma_items_tabless(n, plan, 0, st0, reserved, c);
            let st = items_t(n, plan, 0, st0, reserved, c);
            let tail = if st.ends_lc {
                newline_t(plan.indent)
            } else {
                seq![]
            };
            lemma_join_tabless(head, st.text, tail);
            lemma_join_tabless(head + st.text + tail, seq![], seq![close_char(open)]);
            assert(head + st.text + tail + seq![] + seq![close_char(open)] =~= head + st.text + tail + seq![
                close_char(open),
            ]);
        }
    }
}

proof fn lemma_items_tabless(n: NodeV, plan: Plan, k: nat, st: EmitState, reserved: usize, c: Config)
    requires
        deep_tabless(n),
        n.kind is List,
        tabless(st.text),
    ensures
        tabless(items_t(n, plan, k, st, reserved, c).text),
    decreases n, 0nat, items_of(n).len() - k,
{
    let items = items_of(n);
    if k < items.len() {
        let item = items[k as int];
        assert(decreases_to!(n => n.kind));
        assert(decreases_to!(n.kind => n.kind->List_2));
        assert(decreases_to!(n.kind->List_2 => item));
        lemma_each_tabless(n.kind->List_2);
        assert(deep_tabless(item));
        let sep = item_sep(item, k, plan, st);
        let col1 = col_after(st.col, sep);
        let res = if k + 1 == items.len() {
            reserved.saturating_add(1)
        } else {
            reserved
        };
        let body = render_t(item, child_role_v(items, k), col1, res, c);
        lemma_render_tabless(item, child_role_v(items, k), col1, res, c);
        lemma_separators_tabless(plan.indent);
        assert(tabless(sep));
        lemma_join_tabless(st.text, sep, body);
        let ends = is_line_comment_v(item);
        let next = EmitState {
            text: st.text + sep + body,
            col: col_after(col1, body),
            broken: st.broken || ends,
            ends_lc: ends,
        };
        lemma_items_tabless(n, plan, k + 1, next, reserved, c);
    }
}

proof fn lemma_top_tabless(nodes: Seq<NodeV>, c: Config)
    requires
        all_tabless(nodes),
    ensures
        tabless(top_t(nodes, c).0),
    decreases nodes.len(),
{
    if nodes.len() > 0 {
        let (text, col, doc_run) = top_t(nodes.drop_last(), c);
        let k = nodes.len() - 1;
        let rest = nodes.drop_last();
        assert forall|i: int| 0 <= i < rest.len() implies #[trigger] deep_tabless(rest[i]) by {
            assert(rest[i] == nodes[i]);
        }
        lemma_top_tabless(rest, c);
        assert(deep_tabless(nodes[k]));
        lemma_separators_tabless(0);
        let sep = if k > 0 {
            separator_text(separator_v(nodes[k - 1], nodes[k], doc_run, c))
        } else {
            seq![]
        };
        let col1 = col_after(col, sep);
        lemma_render_tabless(nodes[k], Role::Normal, col1, 0, c);
        lemma_join_tabless(text, sep, render_t(nodes[k], Role::Normal, col1, 0, c));
    } else {
        assert(top_t(nodes, c).0 =~= Seq::<char>::empty());
    }
}

/// Rule L5: the layout writes no tab of its own: when no text of the
/// top-level nodes holds a tab, their rendering holds none.
pub proof fn lemma_render_writes_no_tab(nodes: Seq<NodeV>, c: Config)
    requires
        all_tabless(nodes),
    ensures
        tabless(render_v(nodes, c)),
{
    lemma_top_tabless(nodes, c);
    let text = top_t(nodes, c).0;
    if text.len() > 0 {
        let out = render_v(nodes, c);
        assert forall|i: int| 0 <= i < out.len() implies #[trigger] out[i] != '\t' by {
            if i < text.len() {
                assert(out[i] == text[i]);
            }
        }
    }
}


// ---------------------------------------------------------------------------
// The special forms
// ---------------------------------------------------------------------------

/// Rule L9's table: each special form and how many items after its head it
/// keeps on the opening line when it breaks.
pub open spec fn special_form_table() -> Seq<(Seq<char>, usize)> {
    seq![
        ("begin"@, 0usize), ("cond"@, 0usize), ("case-lambda"@, 0usize),
        ("define"@, 1usize), ("define-values"@, 1usize), ("define-syntax"@, 1usize),
        ("define-record-type"@, 1usize), ("struct"@, 1usize), ("lambda"@, 1usize),
        ("λ"@, 1usize), ("fn"@, 1usize), ("when"@, 1usize), ("unless"@, 1usize),
        ("while"@, 1usize), ("syntax-rules"@, 1usize), ("case"@, 1usize),
        ("match"@, 1usize), ("module"@, 1usize), ("do"@, 2usize),
    ]
}

/// Rule L9: every special form keeps the number of items its row of the
/// table gives on its opening line: none for `begin`, `cond` and
/// `case-lambda`, one for `define`, `lambda`, `when` and the rest, two for
/// `do`.
pub proof fn lemma_special_forms_follow_the_table()
    ensures
        forall|i: int| 0 <= i < special_form_table().len()
            ==> special_form_v(#[trigger] special_form_table()[i].0) == Some(special_form_table()[i].1),
{
    reveal_strlit("begin");
    reveal_strlit("cond");
    reveal_strlit("case-lambda");
    reveal_strlit("define");
    reveal_strlit("define-values");
    reveal_strlit("define-syntax");
    reveal_strlit("define-record-type");
    reveal_strlit("struct");
    reveal_strlit("lambda");
    reveal_strlit("λ");
    reveal_strlit("fn");
    reveal_strlit("when");
    reveal_strlit("unless");
    reveal_strlit("while");
    reveal_strlit("syntax-rules");
    reveal_strlit("case");
    reveal_strlit("match");
    reveal_strlit("module");
    reveal_strlit("do");
    assert("begin"@.len() == 5 && "begin"@[0] == 'b' && "begin"@[1] == 'e');
    assert("cond"@.len() == 4 && "cond"@[0] == 'c' && "cond"@[1] == 'o');
    assert("case-lambda"@.len() == 11 && "case-lambda"@[0] == 'c' && "case-lambda"@[1] == 'a' && "case-lambda"@[7] == 'm');
    assert("define"@.len() == 6 && "define"@[0] == 'd' && "define"@[1] == 'e');
    assert("define-values"@.len() == 13 && "define-values"@[0] == 'd' && "define-values"@[1] == 'e' && "define-values"@[7] == 'v');
    assert("define-syntax"@.len() == 13 && "define-syntax"@[0] == 'd' && "define-syntax"@[1] == 'e' && "define-syntax"@[7] == 's');
    assert("define-record-type"@.len() == 18 && "define-record-type"@[0] == 'd' && "define-record-type"@[1] == 'e' && "define-record-type"@[7] == 'r');
    assert("struct"@.len() == 6 && "struct"@[0] == 's' && "struct"@[1] == 't');
    assert("lambda"@.len() == 6 && "lambda"@[0] == 'l' && "lambda"@[1] == 'a');
    assert("λ"@.len() == 1 && "λ"@[0] == 'λ');
    assert("fn"@.len() == 2 && "fn"@[0] == 'f' && "fn"@[1] == 'n');
    assert("when"@.len() == 4 && "when"@[0] == 'w' && "when"@[1] == 'h');
    assert("unless"@.len() == 6 && "unless"@[0] == 'u' && "unless"@[1] == 'n');
    assert("while"@.len() == 5 && "while"@[0] == 'w' && "while"@[1] == 'h');
    assert("syntax-rules"@.len() == 12 && "syntax-rules"@[0] == 's' && "syntax-rules"@[1] == 'y' && "syntax-rules"@[7] == 'r');
    assert("case"@.len() == 4 && "case"@[0] == 'c' && "case"@[1] == 'a');
    assert("match"@.len() == 5 && "match"@[0] == 'm' && "match"@[1] == 'a');
    assert("module"@.len() == 6 && "module"@[0] == 'm' && "module"@[1] == 'o');
    assert("do"@.len() == 2 && "do"@[0] == 'd' && "do"@[1] == 'o');
    let t = special_form_table();
    assert forall|i: int| 0 <= i < t.len() implies special_form_v(#[trigger] t[i].0) == Some(t[i].1) by {
        if i == 0 {
            assert(t[i] == ("begin"@, 0usize));
        } else if i == 1 {
            assert(t[i] == ("cond"@, 0usize));
        } else if i == 2 {
            assert(t[i] == ("case-lambda"@, 0usize));
        } else if i == 3 {
            assert(t[i] == ("define"@, 1usize));
        } else if i == 4 {
            assert(t[i] == ("define-values"@, 1usize));
        } else if i == 5 {
            assert(t[i] == ("define-syntax"@, 1usize));
        } else if i == 6 {
            assert(t[i] == ("define-record-type"@, 1usize));
        } else if i == 7 {
            assert(t[i] == ("struct"@, 1usize));
        } else if i == 8 {
            assert(t[i] == ("lambda"@, 1usize));
        } else if i == 9 {
            assert(t[i] == ("λ"@, 1usize));
        } else if i == 10 {
            assert(t[i] == ("fn"@, 1usize));
        } else if i == 11 {
            assert(t[i] == ("when"@, 1usize));
        } else if i == 12 {
            assert(t[i] == ("unless"@, 1usize));
        } else if i == 13 {
            assert(t[i] == ("while"@, 1usize));
        } else if i == 14 {
            assert(t[i] == ("syntax-rules"@, 1usize));
        } else if i == 15 {
            assert(t[i] == ("case"@, 1usize));
        } else if i == 16 {
            assert(t[i] == ("match"@, 1usize));
        } else if i == 17 {
            assert(t[i] == ("module"@, 1usize));
        } else if i == 18 {
            assert(t[i] == ("do"@, 2usize));
        }
    }
}

/// Rule L9 read the other way: a name outside the table is no special form.
pub proof fn lemma_other_names_are_no_special_forms(name: Seq<char>)
    requires
        forall|i: int| 0 <= i < special_form_table().len() ==> #[trigger] special_form_table()[i].0 != name,
    ensures
        special_form_v(name) is None,
{
    let t = special_form_table();
    assert(t[0].0 != name && t[1].0 != name && t[2].0 != name && t[3].0 != name && t[4].0 != name);
    assert(t[5].0 != name && t[6].0 != name && t[7].0 != name && t[8].0 != name && t[9].0 != name);
    assert(t[10].0 != name && t[11].0 != name && t[12].0 != name && t[13].0 != name && t[14].0 != name);
    assert(t[15].0 != name && t[16].0 != name && t[17].0 != name && t[18].0 != name);
}

} // verus!
