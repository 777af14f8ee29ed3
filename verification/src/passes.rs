//! Named passes, each a boolean in `[passes]`, each defaulting to on.

use vstd::prelude::*;

use crate::config::{Config, Passes};
use crate::cst::{
    atom_text_v, has_prefix, is_comment_v, lemma_nvs, lemma_nvs_push, nv, nvs, strip_semicolons, Comment,
    Delim, KindV, List, Node, NodeKind, NodeV, Prefix,
};
use crate::layout::{
    all_clean, all_tabless, all_tidy, deep_clean, deep_tabless, deep_tidy, doc_marker, lemma_each_clean,
    lemma_each_tabless, lemma_each_tidy, tabless, tidy, is_doc_marker_v, require_family, require_family_v};
use crate::text::{chars_of, eq_lit, push_all, push_lit, starts_with_lit, string_of, trim_start, trimmed_start_len};

verus! {

// ---------------------------------------------------------------------------
// Rewrites of one atom or comment
// ---------------------------------------------------------------------------

/// `#true` becomes `#t` and `#false` becomes `#f`.
pub open spec fn boolean_spelling_v(text: Seq<char>) -> Seq<char> {
    if text == "#true"@ {
        "#t"@
    } else if text == "#false"@ {
        "#f"@
    } else {
        text
    }
}

/// Two semicolons on a comment that owns its line, one on a comment that
/// follows code, then one space before the body unless it already starts
/// with white space. Block and doc comments are left alone.
pub open spec fn comment_style_v(text: Seq<char>, block: bool, own_line: bool) -> Seq<char> {
    if block || is_doc_marker_v(text) {
        text
    } else {
        let marker = if own_line {
            ";;"@
        } else {
            ";"@
        };
        let body = strip_semicolons(text);
        if body.len() == 0 {
            marker
        } else if body[0] == ' ' || body[0] == '\t' {
            marker + body
        } else {
            marker + " "@ + body
        }
    }
}

/// The reader shorthand for a quoting form's head.
pub open spec fn shorthand_v(head: Seq<char>) -> Option<Seq<char>> {
    if head == "quote"@ {
        Some("'"@)
    } else if head == "quasiquote"@ {
        Some("`"@)
    } else if head == "unquote"@ {
        Some(","@)
    } else if head == "unquote-splicing"@ {
        Some(",@"@)
    } else {
        None
    }
}

/// A two item quoting form with no comment and no modifier becomes its reader
/// shorthand, which reads as the same datum.
pub open spec fn quote_sugar_v(n: NodeV) -> NodeV {
    match n.kind {
        KindV::List(open, modifier, items, _) => {
            if open == Delim::Round && modifier is None && items.len() == 2 && !is_comment_v(items[0])
                && !is_comment_v(items[1]) && atom_text_v(items[0]) is Some && shorthand_v(
                atom_text_v(items[0])->0,
            ) is Some {
                NodeV {
                    kind: KindV::Prefix(
                        shorthand_v(atom_text_v(items[0])->0)->0,
                        Box::new(items[1]),
                    ),
                    ..n
                }
            } else {
                n
            }
        },
        _ => n,
    }
}

fn boolean_spelling(text: String) -> (r: String)
    ensures
        r@ == boolean_spelling_v(text@),
{
    let chars = chars_of(text.as_str());
    if eq_lit(chars.as_slice(), "#true") {
        let v = chars_of("#t");
        string_of(v.as_slice())
    } else if eq_lit(chars.as_slice(), "#false") {
        let v = chars_of("#f");
        string_of(v.as_slice())
    } else {
        text
    }
}

fn comment_style(comment: Comment, own_line: bool) -> (r: Comment)
    ensures
        r.block == comment.block,
        r.text@ == comment_style_v(comment.text@, comment.block, own_line),
{
    let chars = chars_of(comment.text.as_str());
    if comment.block || doc_marker(chars.as_slice()) {
        return comment;
    }
    let n = chars.len();
    let mut k: usize = 0;
    assert(chars@.skip(0) =~= chars@);
    while k < n && chars[k] == ';'
        invariant
            k <= n == chars@.len(),
            strip_semicolons(chars@) == strip_semicolons(chars@.skip(k as int)),
        decreases n - k,
    {
        assert(chars@.skip(k as int).drop_first() =~= chars@.skip(k + 1));
        k += 1;
    }
    let body = &chars.as_slice()[k..n];
    assert(body@ =~= strip_semicolons(chars@));
    let mut out: Vec<char> = Vec::new();
    if own_line {
        push_lit(&mut out, ";;");
    } else {
        push_lit(&mut out, ";");
    }
    if body.len() > 0 && !(body[0] == ' ' || body[0] == '\t') {
        push_lit(&mut out, " ");
    }
    push_all(&mut out, body);
    Comment { text: string_of(out.as_slice()), block: false }
}

fn shorthand(head: &[char]) -> (r: Option<&'static str>)
    ensures
        match r {
            Some(m) => shorthand_v(head@) == Some(m@),
            None => shorthand_v(head@) is None,
        },
{
    if eq_lit(head, "quote") {
        Some("'")
    } else if eq_lit(head, "quasiquote") {
        Some("`")
    } else if eq_lit(head, "unquote") {
        Some(",")
    } else if eq_lit(head, "unquote-splicing") {
        Some(",@")
    } else {
        None
    }
}


fn quote_sugar(node: Node) -> (r: Node)
    ensures
        nv(r) == quote_sugar_v(nv(node)),
{
    let ghost orig = nv(node);
    let Node { kind, span, own_line, blank_before } = node;
    match kind {
        NodeKind::List(list) => {
            proof {
                lemma_nvs(list.items@);
            }
            let applies = list.open == Delim::Round && list.modifier.is_none() && list.items.len() == 2
                && !list.items[0].is_comment() && !list.items[1].is_comment();
            let marker = if applies {
                match list.items[0].atom_text() {
                    Some(head) => {
                        let chars = chars_of(head);
                        shorthand(chars.as_slice())
                    },
                    None => None,
                }
            } else {
                None
            };
            match marker {
                Some(m) => {
                    let mut items = list.items;
                    let ghost all = items@;
                    let target = items.pop().unwrap();
                    assert(target == all[1]);
                    let text = chars_of(m);
                    Node {
                        kind: NodeKind::Prefix(Prefix { text: string_of(text.as_slice()), target: Box::new(target) }),
                        span,
                        own_line,
                        blank_before,
                    }
                },
                None => Node { kind: NodeKind::List(list), span, own_line, blank_before },
            }
        },
        kind => Node { kind, span, own_line, blank_before },
    }
}

// ---------------------------------------------------------------------------
// Sort keys
// ---------------------------------------------------------------------------

/// A node rendered on one line, the key the sorting passes compare.
pub open spec fn flat_key_v(n: NodeV) -> Seq<char>
    decreases n,
{
    match n.kind {
        KindV::Atom(t) => t,
        KindV::Verbatim(t) => t,
        KindV::Comment(t, _) => t,
        KindV::Prefix(p, target) => p + flat_key_v(*target),
        KindV::List(open, _, items, _) => seq![crate::cst::open_char(open)] + joined_keys(items)
            + seq![crate::cst::close_char(open)],
    }
}

/// The keys of `items` separated by single spaces.
pub open spec fn joined_keys(items: Seq<NodeV>) -> Seq<char>
    decreases items,
{
    if items.len() == 0 {
        seq![]
    } else if items.len() == 1 {
        flat_key_v(items[0])
    } else {
        joined_keys(items.drop_last()) + seq![' '] + flat_key_v(items.last())
    }
}

fn write_flat(out: &mut Vec<char>, node: &Node)
    ensures
        final(out)@ == old(out)@ + flat_key_v(nv(*node)),
    decreases node,
{
    match &node.kind {
        NodeKind::Atom(text) => {
            let t = chars_of(text.as_str());
            push_all(out, t.as_slice());
        },
        NodeKind::Verbatim(text) => {
            let t = chars_of(text.as_str());
            push_all(out, t.as_slice());
        },
        NodeKind::Comment(comment) => {
            let t = chars_of(comment.text.as_str());
            push_all(out, t.as_slice());
        },
        NodeKind::Prefix(prefix) => {
            let t = chars_of(prefix.text.as_str());
            push_all(out, t.as_slice());
            proof {
                assert(decreases_to!(*node => node.kind));
                assert(decreases_to!(node.kind => node.kind->Prefix_0));
            }
            write_flat(out, &prefix.target);
            assert(out@ =~= old(out)@ + flat_key_v(nv(*node)));
        },
        NodeKind::List(list) => {
            let ghost items = nvs(list.items@);
            proof {
                lemma_nvs(list.items@);
            }
            out.push(list.open.open());
            let ghost start = out@;
            let mut i: usize = 0;
            assert(joined_keys(items.take(0)) =~= Seq::<char>::empty());
            while i < list.items.len()
                invariant
                    node.kind == NodeKind::List(*list),
                    items == nvs(list.items@),
                    items.len() == list.items@.len(),
                    forall|j: int| 0 <= j < items.len() ==> #[trigger] items[j] == nv(list.items@[j]),
                    i <= list.items@.len(),
                    out@ == start + joined_keys(items.take(i as int)),
                decreases list.items@.len() - i,
            {
                if i > 0 {
                    out.push(' ');
                }
                proof {
                    assert(decreases_to!(*node => node.kind));
                    assert(decreases_to!(node.kind => node.kind->List_0));
                    assert(decreases_to!(node.kind->List_0 => node.kind->List_0.items));
                    assert(decreases_to!(node.kind->List_0.items => node.kind->List_0.items@));
                    assert(decreases_to!(node.kind->List_0.items@ => list.items@[i as int]));
                }
                write_flat(out, &list.items[i]);
                assert(items.take(i + 1).drop_last() =~= items.take(i as int));
                assert(out@ =~= start + joined_keys(items.take(i + 1)));
                i += 1;
            }
            out.push(list.open.close());
            assert(items.take(list.items@.len() as int) =~= items);
            assert(out@ =~= old(out)@ + flat_key_v(nv(*node)));
        },
    }
}

/// A stable sort key: the node rendered on one line.
fn flat_key(node: &Node) -> (key: Vec<char>)
    ensures
        key@ == flat_key_v(nv(*node)),
{
    let mut out: Vec<char> = Vec::new();
    write_flat(&mut out, node);
    assert(out@ =~= flat_key_v(nv(*node)));
    out
}

// ---------------------------------------------------------------------------
// Sorting
// ---------------------------------------------------------------------------

/// Whether `a` sorts before `b`, comparing characters by code point, which is
/// the bytewise order of their UTF-8 encodings.
pub open spec fn key_lt(a: Seq<char>, b: Seq<char>) -> bool
    decreases a.len(),
{
    if a.len() == 0 {
        b.len() > 0
    } else if b.len() == 0 {
        false
    } else if a[0] != b[0] {
        (a[0] as u32) < (b[0] as u32)
    } else {
        key_lt(a.drop_first(), b.drop_first())
    }
}

/// Where a stable insertion sort puts `x` among the already sorted `sorted`:
/// after every element whose key is not greater.
pub open spec fn insertion_point(sorted: Seq<NodeV>, x: NodeV) -> nat
    decreases sorted.len(),
{
    if sorted.len() == 0 {
        0
    } else if !key_lt(flat_key_v(x), flat_key_v(sorted.last())) {
        sorted.len()
    } else {
        insertion_point(sorted.drop_last(), x)
    }
}

/// `s` stably sorted by flat key.
pub open spec fn sort_v(s: Seq<NodeV>) -> Seq<NodeV>
    decreases s.len(),
{
    if s.len() == 0 {
        seq![]
    } else {
        let t = sort_v(s.drop_last());
        t.insert(insertion_point(t, s.last()) as int, s.last())
    }
}

proof fn lemma_insertion_point(sorted: Seq<NodeV>, x: NodeV)
    ensures
        insertion_point(sorted, x) <= sorted.len(),
    decreases sorted.len(),
{
    if sorted.len() > 0 {
        lemma_insertion_point(sorted.drop_last(), x);
    }
}

pub proof fn lemma_sort_len(s: Seq<NodeV>)
    ensures
        sort_v(s).len() == s.len(),
    decreases s.len(),
{
    if s.len() > 0 {
        lemma_sort_len(s.drop_last());
        lemma_insertion_point(sort_v(s.drop_last()), s.last());
    }
}

pub fn less(a: &[char], b: &[char]) -> (r: bool)
    ensures
        r == key_lt(a@, b@),
{
    let mut i: usize = 0;
    assert(a@.skip(0) =~= a@ && b@.skip(0) =~= b@);
    loop
        invariant
            i <= a@.len(),
            i <= b@.len(),
            key_lt(a@, b@) == key_lt(a@.skip(i as int), b@.skip(i as int)),
        decreases a@.len() - i,
    {
        if i == a.len() {
            return i < b.len();
        }
        if i == b.len() {
            return false;
        }
        if a[i] != b[i] {
            return (a[i] as u32) < (b[i] as u32);
        }
        assert(a@.skip(i as int).drop_first() =~= a@.skip(i + 1));
        assert(b@.skip(i as int).drop_first() =~= b@.skip(i + 1));
        i += 1;
    }
}

proof fn lemma_nvs_insert(s: Seq<Node>, j: int, x: Node)
    requires
        0 <= j <= s.len(),
    ensures
        nvs(s.insert(j, x)) == nvs(s).insert(j, nv(x)),
{
    lemma_nvs(s);
    lemma_nvs(s.insert(j, x));
    assert(nvs(s.insert(j, x)) =~= nvs(s).insert(j, nv(x)));
}

/// Stably sorts `items` by flat key.
fn sort_nodes(items: Vec<Node>) -> (r: Vec<Node>)
    ensures
        nvs(r@) == sort_v(nvs(items@)),
{
    let ghost orig = items@;
    let ghost ov = nvs(items@);
    proof {
        lemma_nvs(items@);
    }
    let n = items.len();
    let mut pending = items;
    let mut rest: Vec<Node> = Vec::new();
    while pending.len() > 0
        invariant
            pending@.len() + rest@.len() == n,
            orig.len() == n,
            forall|j: int| 0 <= j < pending@.len() ==> pending@[j] == orig[j],
            forall|j: int| 0 <= j < rest@.len() ==> rest@[j] == orig[n - 1 - j],
        decreases pending@.len(),
    {
        let node = pending.pop().unwrap();
        rest.push(node);
    }
    let mut sorted: Vec<Node> = Vec::new();
    let mut keys: Vec<Vec<char>> = Vec::new();
    let mut k: usize = 0;
    assert(ov.take(0) =~= Seq::<NodeV>::empty());
    assert(nvs(sorted@) =~= Seq::<NodeV>::empty());
    while k < n
        invariant
            ov == nvs(orig),
            ov.len() == n,
            orig.len() == n,
            forall|j: int| 0 <= j < n ==> #[trigger] ov[j] == nv(orig[j]),
            rest@.len() == n - k,
            forall|j: int| 0 <= j < rest@.len() ==> rest@[j] == orig[n - 1 - j],
            k <= n,
            nvs(sorted@) == sort_v(ov.take(k as int)),
            keys@.len() == sorted@.len(),
            forall|j: int| 0 <= j < keys@.len() ==> #[trigger] keys@[j]@ == flat_key_v(nv(sorted@[j])),
        decreases n - k,
    {
        let node = rest.pop().unwrap();
        assert(node == orig[k as int]);
        let key = flat_key(&node);
        let ghost t = nvs(sorted@);
        proof {
            lemma_nvs(sorted@);
        }
        let mut j = sorted.len();
        assert(t.take(j as int) =~= t);
        while j > 0 && less(key.as_slice(), keys[j - 1].as_slice())
            invariant
                j <= sorted@.len(),
                t == nvs(sorted@),
                t.len() == sorted@.len(),
                forall|i: int| 0 <= i < t.len() ==> #[trigger] t[i] == nv(sorted@[i]),
                keys@.len() == sorted@.len(),
                forall|i: int| 0 <= i < keys@.len() ==> #[trigger] keys@[i]@ == flat_key_v(nv(sorted@[i])),
                key@ == flat_key_v(nv(node)),
                insertion_point(t, nv(node)) == insertion_point(t.take(j as int), nv(node)),
            decreases j,
        {
            assert(t.take(j as int).drop_last() =~= t.take(j - 1));
            assert(t.take(j as int).last() == t[j - 1]);
            j -= 1;
        }
        proof {
            if j > 0 {
                assert(t.take(j as int).last() == t[j - 1]);
            }
        }
        assert(insertion_point(t, nv(node)) == j);
        proof {
            lemma_nvs_insert(sorted@, j as int, node);
        }
        let ghost old_keys = keys@;
        let ghost old_sorted = sorted@;
        sorted.insert(j, node);
        keys.insert(j, key);
        assert(ov.take(k + 1).drop_last() =~= ov.take(k as int));
        assert(ov.take(k + 1).last() == nv(node));
        assert forall|i: int| 0 <= i < keys@.len() implies #[trigger] keys@[i]@ == flat_key_v(
            nv(sorted@[i]),
        ) by {
            if i < j {
                assert(keys@[i] == old_keys[i] && sorted@[i] == old_sorted[i]);
            } else if i > j {
                assert(keys@[i] == old_keys[i - 1] && sorted@[i] == old_sorted[i - 1]);
            }
        }
        k += 1;
    }
    assert(ov.take(n as int) =~= ov);
    sorted
}


// ---------------------------------------------------------------------------
// The passes a form's head selects
// ---------------------------------------------------------------------------

/// Whether a clause blocks sorting: a positional `as`, or a comment, whose
/// position carries meaning.
pub open spec fn blocks_sort(n: NodeV) -> bool {
    atom_text_v(n) == Some("as"@) || is_comment_v(n)
}

/// The clauses after the head sorted, unless there are fewer than two or one
/// of them blocks sorting.
pub open spec fn sort_clauses_v(items: Seq<NodeV>) -> Seq<NodeV> {
    if items.len() < 3 || exists|i: int| 1 <= i < items.len() && #[trigger] blocks_sort(items[i]) {
        items
    } else {
        seq![items[0]] + sort_v(items.skip(1))
    }
}

/// Whether `items` starts with the atom `name`.
pub open spec fn headed_by(items: Seq<NodeV>, name: Seq<char>) -> bool {
    items.len() > 0 && atom_text_v(items[0]) == Some(name)
}

/// A list after the passes its head selects: clause sorting for `require`
/// and `provide`, one name per line for a `provide` of more than one name.
pub open spec fn head_passes_v(items: Seq<NodeV>, force_break: bool, c: Passes) -> (Seq<NodeV>, bool) {
    let sort = if headed_by(items, "require"@) {
        c.sort_require
    } else if headed_by(items, "provide"@) {
        c.sort_provide
    } else {
        false
    };
    let sorted = if sort {
        sort_clauses_v(items)
    } else {
        items
    };
    let fb = if headed_by(items, "provide"@) && c.provide_one_per_line {
        sorted.len() > 2
    } else {
        force_break
    };
    (sorted, fb)
}

/// A node after every rewriting pass, innermost form first.
pub open spec fn walk_v(n: NodeV, c: Passes) -> NodeV
    decreases n,
{
    let rewritten = match n.kind {
        KindV::Atom(t) => NodeV {
            kind: KindV::Atom(
                if c.boolean_spelling {
                    boolean_spelling_v(t)
                } else {
                    t
                },
            ),
            ..n
        },
        KindV::Comment(t, block) => NodeV {
            kind: KindV::Comment(
                if c.comment_style {
                    comment_style_v(t, block, n.own_line)
                } else {
                    t
                },
                block,
            ),
            ..n
        },
        KindV::Prefix(p, target) => NodeV { kind: KindV::Prefix(p, Box::new(walk_v(*target, c))), ..n },
        KindV::Verbatim(t) => n,
        KindV::List(open, modifier, items, force_break) => {
            let (items2, fb) = head_passes_v(walk_all_v(items, c), force_break, c);
            NodeV { kind: KindV::List(open, modifier, items2, fb), ..n }
        },
    };
    if c.quote_sugar {
        quote_sugar_v(rewritten)
    } else {
        rewritten
    }
}

/// Every node of `items` after every rewriting pass.
pub open spec fn walk_all_v(items: Seq<NodeV>, c: Passes) -> Seq<NodeV>
    decreases items,
{
    if items.len() == 0 {
        seq![]
    } else {
        walk_all_v(items.drop_last(), c).push(walk_v(items.last(), c))
    }
}

fn is_atom(node: &Node, name: &str) -> (r: bool)
    ensures
        r == (atom_text_v(nv(*node)) == Some(name@)),
{
    match node.atom_text() {
        Some(t) => {
            let chars = chars_of(t);
            eq_lit(chars.as_slice(), name)
        },
        None => false,
    }
}

fn sort_clauses(items: Vec<Node>) -> (r: Vec<Node>)
    ensures
        nvs(r@) == sort_clauses_v(nvs(items@)),
{
    let ghost iv = nvs(items@);
    proof {
        lemma_nvs(items@);
    }
    if items.len() < 3 {
        return items;
    }
    let mut i: usize = 1;
    while i < items.len()
        invariant
            iv == nvs(items@),
            iv.len() == items@.len(),
            forall|j: int| 0 <= j < iv.len() ==> #[trigger] iv[j] == nv(items@[j]),
            1 <= i <= items@.len(),
            forall|j: int| 1 <= j < i ==> !#[trigger] blocks_sort(iv[j]),
        decreases items@.len() - i,
    {
        if is_atom(&items[i], "as") || items[i].is_comment() {
            assert(blocks_sort(iv[i as int]));
            return items;
        }
        i += 1;
    }
    let mut items = items;
    let ghost all = items@;
    let clauses = items.split_off(1);
    assert(clauses@ =~= all.skip(1));
    assert(nvs(clauses@) =~= iv.skip(1)) by {
        lemma_nvs(clauses@);
    }
    let sorted = sort_nodes(clauses);
    let mut out = items;
    let mut k: usize = 0;
    let ghost head = nvs(out@);
    proof {
        lemma_nvs(out@);
        lemma_nvs(sorted@);
        lemma_sort_len(iv.skip(1));
    }
    assert(head =~= seq![iv[0]]);
    let mut sorted = sorted;
    let mut rest: Vec<Node> = Vec::new();
    let m = sorted.len();
    let ghost sv = sorted@;
    while sorted.len() > 0
        invariant
            sorted@.len() + rest@.len() == m,
            sv.len() == m,
            forall|j: int| 0 <= j < sorted@.len() ==> sorted@[j] == sv[j],
            forall|j: int| 0 <= j < rest@.len() ==> rest@[j] == sv[m - 1 - j],
        decreases sorted@.len(),
    {
        let node = sorted.pop().unwrap();
        rest.push(node);
    }
    while k < m
        invariant
            rest@.len() == m - k,
            sv.len() == m,
            forall|j: int| 0 <= j < rest@.len() ==> rest@[j] == sv[m - 1 - j],
            k <= m,
            nvs(out@) == head + nvs(sv.take(k as int)),
        decreases m - k,
    {
        let node = rest.pop().unwrap();
        assert(node == sv[k as int]);
        let ghost before = out@;
        out.push(node);
        proof {
            lemma_nvs_push(before, node);
            assert(sv.take(k + 1) =~= sv.take(k as int).push(node));
            lemma_nvs_push(sv.take(k as int), node);
        }
        k += 1;
    }
    assert(sv.take(m as int) =~= sv);
    assert(nvs(out@) =~= sort_clauses_v(iv));
    out
}


fn head_passes(items: Vec<Node>, force_break: bool, c: &Passes) -> (r: (Vec<Node>, bool))
    ensures
        (nvs(r.0@), r.1) == head_passes_v(nvs(items@), force_break, *c),
{
    proof {
        lemma_nvs(items@);
    }
    let is_require = items.len() > 0 && is_atom(&items[0], "require");
    let is_provide = items.len() > 0 && is_atom(&items[0], "provide");
    let sort = if is_require {
        c.sort_require
    } else if is_provide {
        c.sort_provide
    } else {
        false
    };
    let sorted = if sort {
        sort_clauses(items)
    } else {
        items
    };
    let fb = if is_provide && c.provide_one_per_line {
        proof {
            lemma_nvs(sorted@);
        }
        sorted.len() > 2
    } else {
        force_break
    };
    (sorted, fb)
}

fn walk(node: Node, c: &Passes) -> (r: Node)
    ensures
        nv(r) == walk_v(nv(node), *c),
    decreases node,
{
    let ghost n0 = node;
    let Node { kind, span, own_line, blank_before } = node;
    let rewritten = match kind {
        NodeKind::Atom(text) => {
            let text = if c.boolean_spelling {
                boolean_spelling(text)
            } else {
                text
            };
            Node { kind: NodeKind::Atom(text), span, own_line, blank_before }
        },
        NodeKind::Comment(comment) => {
            let comment = if c.comment_style {
                comment_style(comment, own_line)
            } else {
                comment
            };
            Node { kind: NodeKind::Comment(comment), span, own_line, blank_before }
        },
        NodeKind::Prefix(prefix) => {
            let Prefix { text, target } = prefix;
            proof {
                assert(decreases_to!(n0 => n0.kind));
                assert(decreases_to!(n0.kind => n0.kind->Prefix_0));
                assert(decreases_to!(n0.kind->Prefix_0 => n0.kind->Prefix_0.target));
            }
            let walked = walk(*target, c);
            Node {
                kind: NodeKind::Prefix(Prefix { text, target: Box::new(walked) }),
                span,
                own_line,
                blank_before,
            }
        },
        NodeKind::Verbatim(text) => Node { kind: NodeKind::Verbatim(text), span, own_line, blank_before },
        NodeKind::List(list) => {
            let List { open, modifier, items, force_break } = list;
            proof {
                assert(decreases_to!(n0 => n0.kind));
                assert(decreases_to!(n0.kind => n0.kind->List_0));
                assert(decreases_to!(n0.kind->List_0 => n0.kind->List_0.items));
                assert(decreases_to!(n0.kind->List_0.items => n0.kind->List_0.items@));
            }
            let walked = walk_items(items, c);
            let (items, fb) = head_passes(walked, force_break, c);
            Node {
                kind: NodeKind::List(List { open, modifier, items, force_break: fb }),
                span,
                own_line,
                blank_before,
            }
        },
    };
    if c.quote_sugar {
        quote_sugar(rewritten)
    } else {
        rewritten
    }
}

fn walk_items(items: Vec<Node>, c: &Passes) -> (r: Vec<Node>)
    ensures
        nvs(r@) == walk_all_v(nvs(items@), *c),
    decreases items@,
{
    let ghost all = items@;
    let mut items = items;
    match items.pop() {
        None => {
            assert(nvs(all) =~= Seq::<NodeV>::empty());
            Vec::new()
        },
        Some(last) => {
            proof {
                assert(items@ =~= all.drop_last());
                assert(decreases_to!(all => all.subrange(0, all.len() - 1)));
                assert(all.subrange(0, all.len() - 1) =~= items@);
                assert(decreases_to!(all => all[all.len() - 1]));
            }
            let mut rest = walk_items(items, c);
            let walked = walk(last, c);
            let ghost before = rest@;
            rest.push(walked);
            proof {
                lemma_nvs_push(before, walked);
                lemma_nvs(all);
                assert(nvs(all).drop_last() =~= nvs(all.drop_last())) by {
                    lemma_nvs(all.drop_last());
                }
            }
            rest
        },
    }
}

// ---------------------------------------------------------------------------
// Require blocks
// ---------------------------------------------------------------------------

/// The end of the run of require forms that continues at `i`.
pub open spec fn run_end(nodes: Seq<NodeV>, i: nat) -> nat
    decreases nodes.len() - i,
{
    if i < nodes.len() && require_family_v(nodes[i as int]) {
        run_end(nodes, i + 1)
    } else {
        i
    }
}

/// A sorted run of require forms: no blank line between them, and the blank
/// line before the run, if any, kept.
pub open spec fn sorted_run(run: Seq<NodeV>) -> Seq<NodeV> {
    let sorted = sort_v(run);
    Seq::new(
        sorted.len(),
        |i: int|
            NodeV {
                blank_before: if i == 0 {
                    run[0].blank_before
                } else {
                    false
                },
                ..sorted[i]
            },
    )
}

/// The forms from `start` on, with each run of more than one adjacent require
/// form sorted.
pub open spec fn require_blocks_from(nodes: Seq<NodeV>, start: nat) -> Seq<NodeV>
    decreases nodes.len() - start,
{
    if start >= nodes.len() {
        seq![]
    } else if !require_family_v(nodes[start as int]) {
        seq![nodes[start as int]] + require_blocks_from(nodes, start + 1)
    } else {
        let end = run_end(nodes, start + 1);
        proof {
            lemma_run_end(nodes, start + 1);
        }
        let run = nodes.subrange(start as int, end as int);
        (if end - start > 1 {
            sorted_run(run)
        } else {
            run
        }) + require_blocks_from(nodes, end)
    }
}

pub proof fn lemma_run_end(nodes: Seq<NodeV>, i: nat)
    ensures
        run_end(nodes, i) >= i,
        i <= nodes.len() ==> run_end(nodes, i) <= nodes.len(),
        forall|j: int| i <= j < run_end(nodes, i) ==> #[trigger] require_family_v(nodes[j]),
        run_end(nodes, i) < nodes.len() ==> !require_family_v(nodes[run_end(nodes, i) as int]),
    decreases nodes.len() - i,
{
    if i < nodes.len() && require_family_v(nodes[i as int]) {
        lemma_run_end(nodes, i + 1);
    }
}

/// Every rewriting pass over every form, then the require blocks sorted.
pub open spec fn passes_v(nodes: Seq<NodeV>, c: Passes) -> Seq<NodeV> {
    let walked = walk_all_v(nodes, c);
    if c.sort_require {
        require_blocks_from(walked, 0)
    } else {
        walked
    }
}

/// Moves the nodes of `from`, in order, onto the end of `to`.
fn append_nodes(to: &mut Vec<Node>, from: Vec<Node>)
    ensures
        nvs(final(to)@) == nvs(old(to)@) + nvs(from@),
{
    let ghost fv0 = from@;
    let m = from.len();
    let mut from = from;
    let mut rest: Vec<Node> = Vec::new();
    while from.len() > 0
        invariant
            from@.len() + rest@.len() == m,
            fv0.len() == m,
            forall|j: int| 0 <= j < from@.len() ==> from@[j] == fv0[j],
            forall|j: int| 0 <= j < rest@.len() ==> rest@[j] == fv0[m - 1 - j],
        decreases from@.len(),
    {
        let node = from.pop().unwrap();
        rest.push(node);
    }
    let mut k: usize = 0;
    assert(fv0.take(0) =~= Seq::<Node>::empty());
    assert(nvs(old(to)@) + nvs(fv0.take(0)) =~= nvs(old(to)@));
    while k < m
        invariant
            rest@.len() == m - k,
            fv0.len() == m,
            forall|j: int| 0 <= j < rest@.len() ==> rest@[j] == fv0[m - 1 - j],
            k <= m,
            nvs(to@) == nvs(old(to)@) + nvs(fv0.take(k as int)),
        decreases m - k,
    {
        let node = rest.pop().unwrap();
        assert(node == fv0[k as int]);
        let ghost before = to@;
        to.push(node);
        proof {
            lemma_nvs_push(before, node);
            assert(fv0.take(k + 1) =~= fv0.take(k as int).push(node));
            lemma_nvs_push(fv0.take(k as int), node);
        }
        k += 1;
    }
    assert(fv0.take(m as int) =~= fv0);
}

/// Sorts `run` and keeps only the blank line before its first form.
fn sort_run(run: Vec<Node>) -> (r: Vec<Node>)
    requires
        run@.len() > 0,
    ensures
        nvs(r@) == sorted_run(nvs(run@)),
{
    proof {
        lemma_nvs(run@);
    }
    let leading_blank = run[0].blank_before;
    let sorted = sort_nodes(run);
    let ghost sv = nvs(sorted@);
    proof {
        lemma_nvs(sorted@);
        lemma_sort_len(nvs(run@));
    }
    let mut sorted = sorted;
    let m = sorted.len();
    let mut out_rev: Vec<Node> = Vec::new();
    while sorted.len() > 0
        invariant
            sorted@.len() + out_rev@.len() == m,
            sv.len() == m,
            forall|j: int| 0 <= j < sorted@.len() ==> #[trigger] nv(sorted@[j]) == sv[j],
            forall|j: int|
                0 <= j < out_rev@.len() ==> #[trigger] nv(out_rev@[j]) == (NodeV {
                    blank_before: if m - 1 - j == 0 {
                        leading_blank
                    } else {
                        false
                    },
                    ..sv[m - 1 - j]
                }),
        decreases sorted@.len(),
    {
        let ghost idx = sorted@.len() - 1;
        let ghost before = out_rev@;
        let node = sorted.pop().unwrap();
        assert(nv(node) == sv[idx]);
        let last = sorted.len() == 0;
        let Node { kind, span, own_line, blank_before: _ } = node;
        let fresh = Node { kind, span, own_line, blank_before: if last { leading_blank } else { false } };
        assert(nv(fresh) == (NodeV {
            blank_before: if idx == 0 {
                leading_blank
            } else {
                false
            },
            ..sv[idx]
        }));
        out_rev.push(fresh);
        assert(idx == m - 1 - before.len());
        assert forall|j: int| 0 <= j < out_rev@.len() implies #[trigger] nv(out_rev@[j]) == (NodeV {
            blank_before: if m - 1 - j == 0 {
                leading_blank
            } else {
                false
            },
            ..sv[m - 1 - j]
        }) by {
            if j < before.len() {
                assert(out_rev@[j] == before[j]);
            }
        }
    }
    let mut out: Vec<Node> = Vec::new();
    let mut k: usize = 0;
    while k < m
        invariant
            out_rev@.len() == m - k,
            out@.len() == k,
            sv.len() == m,
            forall|j: int|
                0 <= j < out_rev@.len() ==> #[trigger] nv(out_rev@[j]) == (NodeV {
                    blank_before: if m - 1 - j == 0 {
                        leading_blank
                    } else {
                        false
                    },
                    ..sv[m - 1 - j]
                }),
            forall|j: int|
                0 <= j < k ==> #[trigger] nv(out@[j]) == (NodeV {
                    blank_before: if j == 0 {
                        leading_blank
                    } else {
                        false
                    },
                    ..sv[j]
                }),
            k <= m,
        decreases m - k,
    {
        let node = out_rev.pop().unwrap();
        out.push(node);
        k += 1;
    }
    proof {
        lemma_nvs(out@);
    }
    assert(nvs(out@) =~= sorted_run(nvs(run@)));
    out
}

/// Sorts each run of adjacent top-level require forms.
fn sort_require_block(nodes: Vec<Node>) -> (r: Vec<Node>)
    ensures
        nvs(r@) == require_blocks_from(nvs(nodes@), 0),
{
    let ghost orig = nodes@;
    let ghost ns = nvs(nodes@);
    proof {
        lemma_nvs(nodes@);
    }
    let n = nodes.len();
    let mut pending = nodes;
    let mut rest: Vec<Node> = Vec::new();
    while pending.len() > 0
        invariant
            pending@.len() + rest@.len() == n,
            orig.len() == n,
            forall|j: int| 0 <= j < pending@.len() ==> pending@[j] == orig[j],
            forall|j: int| 0 <= j < rest@.len() ==> rest@[j] == orig[n - 1 - j],
        decreases pending@.len(),
    {
        let node = pending.pop().unwrap();
        rest.push(node);
    }
    let mut out: Vec<Node> = Vec::new();
    let mut k: usize = 0;
    assert(nvs(out@) + require_blocks_from(ns, 0) =~= require_blocks_from(ns, 0));
    while k < n
        invariant
            ns == nvs(orig),
            ns.len() == n,
            orig.len() == n,
            forall|j: int| 0 <= j < n ==> #[trigger] ns[j] == nv(orig[j]),
            rest@.len() == n - k,
            forall|j: int| 0 <= j < rest@.len() ==> rest@[j] == orig[n - 1 - j],
            k <= n,
            nvs(out@) + require_blocks_from(ns, k as nat) == require_blocks_from(ns, 0),
        decreases n - k,
    {
        let node = rest.pop().unwrap();
        assert(node == orig[k as int]);
        if !require_family(&node) {
            let ghost before = out@;
            out.push(node);
            proof {
                lemma_nvs_push(before, node);
            }
            assert(nvs(out@) + require_blocks_from(ns, (k + 1) as nat) =~= nvs(before)
                + require_blocks_from(ns, k as nat));
            k += 1;
        } else {
            let mut run: Vec<Node> = Vec::new();
            run.push(node);
            let mut end = k + 1;
            proof {
                lemma_nvs_push(Seq::<Node>::empty(), node);
                assert(ns.subrange(k as int, end as int) =~= seq![ns[k as int]]);
                assert(nvs(Seq::<Node>::empty()) =~= Seq::<NodeV>::empty());
            }
            while end < n && require_family(&rest[rest.len() - 1])
                invariant
                    ns == nvs(orig),
                    ns.len() == n,
                    orig.len() == n,
                    forall|j: int| 0 <= j < n ==> #[trigger] ns[j] == nv(orig[j]),
                    rest@.len() == n - end,
                    forall|j: int| 0 <= j < rest@.len() ==> rest@[j] == orig[n - 1 - j],
                    k < end <= n,
                    nvs(run@) == ns.subrange(k as int, end as int),
                    run_end(ns, (k + 1) as nat) == run_end(ns, end as nat),
                decreases n - end,
            {
                let next = rest.pop().unwrap();
                assert(next == orig[end as int]);
                let ghost before = run@;
                run.push(next);
                proof {
                    lemma_nvs_push(before, next);
                    assert(ns.subrange(k as int, end + 1) =~= ns.subrange(k as int, end as int).push(
                        ns[end as int],
                    ));
                }
                end += 1;
            }
            proof {
                if end < n {
                    assert(rest@[rest@.len() - 1] == orig[end as int]);
                }
                assert(run_end(ns, end as nat) == end);
            }
            let ghost before = nvs(out@);
            if end - k > 1 {
                let sorted = sort_run(run);
                append_nodes(&mut out, sorted);
            } else {
                append_nodes(&mut out, run);
            }
            assert(nvs(out@) + require_blocks_from(ns, end as nat) =~= before + require_blocks_from(
                ns,
                k as nat,
            ));
            k = end;
        }
    }
    assert(require_blocks_from(ns, n as nat) =~= Seq::<NodeV>::empty());
    assert(nvs(out@) =~= nvs(out@) + Seq::<NodeV>::empty());
    out
}

/// Runs every enabled pass over the top-level forms: the rewrites bottom up,
/// innermost form first, then the top-level require runs.
pub fn apply(nodes: &mut Vec<Node>, config: &Config)
    ensures
        nvs(final(nodes)@) == passes_v(nvs(old(nodes)@), config.passes),
{
    let mut taken: Vec<Node> = Vec::new();
    std::mem::swap(&mut taken, nodes);
    let walked = walk_items(taken, &config.passes);
    let result = if config.passes.sort_require {
        sort_require_block(walked)
    } else {
        walked
    };
    *nodes = result;
}


// ---------------------------------------------------------------------------
// Laws of sorting
// ---------------------------------------------------------------------------

proof fn lemma_key_lt_asymmetric(a: Seq<char>, b: Seq<char>)
    ensures
        key_lt(a, b) ==> !key_lt(b, a),
    decreases a.len(),
{
    if a.len() > 0 && b.len() > 0 && a[0] == b[0] {
        lemma_key_lt_asymmetric(a.drop_first(), b.drop_first());
    }
}

proof fn lemma_key_lt_transitive(a: Seq<char>, b: Seq<char>, c: Seq<char>)
    ensures
        key_lt(a, b) && key_lt(b, c) ==> key_lt(a, c),
    decreases a.len(),
{
    if a.len() > 0 && b.len() > 0 && c.len() > 0 && a[0] == b[0] && b[0] == c[0] {
        lemma_key_lt_transitive(a.drop_first(), b.drop_first(), c.drop_first());
    }
}

proof fn lemma_key_lt_total(a: Seq<char>, b: Seq<char>)
    ensures
        a != b ==> key_lt(a, b) || key_lt(b, a),
    decreases a.len(),
{
    if a.len() == 0 && b.len() == 0 {
        assert(a =~= b);
    }
    if a.len() > 0 && b.len() > 0 && a[0] != b[0] {
        let x = a[0];
        let y = b[0];
        vstd::utf8::char_u32_cast(x, x as u32);
        vstd::utf8::char_u32_cast(y, y as u32);
        assert((x as u32) != (y as u32));
    }
    if a.len() > 0 && b.len() > 0 && a[0] == b[0] {
        lemma_key_lt_total(a.drop_first(), b.drop_first());
        if a.drop_first() == b.drop_first() {
            assert(a =~= seq![a[0]] + a.drop_first());
            assert(b =~= seq![b[0]] + b.drop_first());
        }
    }
}

/// Not after: the order a stable sort leaves keys in.
proof fn lemma_not_after_transitive(a: Seq<char>, b: Seq<char>, c: Seq<char>)
    requires
        !key_lt(b, a),
        !key_lt(c, b),
    ensures
        !key_lt(c, a),
{
    lemma_key_lt_total(a, b);
    lemma_key_lt_transitive(c, a, b);
}

/// Whether nodes are in the order of their flat keys.
pub open spec fn sorted_by_key(s: Seq<NodeV>) -> bool {
    forall|i: int, j: int| 0 <= i < j < s.len() ==> !key_lt(flat_key_v(#[trigger] s[j]), flat_key_v(#[trigger] s[i]))
}

proof fn lemma_insertion_point_bounds(t: Seq<NodeV>, x: NodeV)
    requires
        sorted_by_key(t),
    ensures
        insertion_point(t, x) <= t.len(),
        forall|k: int| 0 <= k < insertion_point(t, x) ==> !key_lt(flat_key_v(x), flat_key_v(#[trigger] t[k])),
        forall|k: int| insertion_point(t, x) <= k < t.len() ==> key_lt(flat_key_v(x), flat_key_v(#[trigger] t[k])),
    decreases t.len(),
{
    if t.len() > 0 {
        let last = t.last();
        if !key_lt(flat_key_v(x), flat_key_v(last)) {
            assert forall|k: int| 0 <= k < t.len() implies !key_lt(flat_key_v(x), flat_key_v(#[trigger] t[k])) by {
                if k < t.len() - 1 {
                    lemma_not_after_transitive(flat_key_v(t[k]), flat_key_v(last), flat_key_v(x));
                }
            }
        } else {
            let d = t.drop_last();
            assert forall|i: int, j: int| 0 <= i < j < d.len() implies !key_lt(flat_key_v(#[trigger] d[j]), flat_key_v(#[trigger] d[i])) by {
                assert(d[i] == t[i] && d[j] == t[j]);
            }
            lemma_insertion_point_bounds(d, x);
            assert forall|k: int| insertion_point(t, x) <= k < t.len() implies key_lt(flat_key_v(x), flat_key_v(#[trigger] t[k])) by {
                if k < t.len() - 1 {
                    assert(d[k] == t[k]);
                }
            }
            assert forall|k: int| 0 <= k < insertion_point(t, x) implies !key_lt(flat_key_v(x), flat_key_v(#[trigger] t[k])) by {
                assert(d[k] == t[k]);
            }
        }
    }
}

/// The `sort-require` and `sort-provide` sort puts clauses in the order of
/// their flat keys.
pub proof fn lemma_sort_sorts(s: Seq<NodeV>)
    ensures
        sorted_by_key(sort_v(s)),
    decreases s.len(),
{
    if s.len() > 0 {
        let t = sort_v(s.drop_last());
        let x = s.last();
        lemma_sort_sorts(s.drop_last());
        lemma_insertion_point_bounds(t, x);
        let p = insertion_point(t, x) as int;
        let r = t.insert(p, x);
        assert forall|i: int, j: int| 0 <= i < j < r.len() implies !key_lt(flat_key_v(#[trigger] r[j]), flat_key_v(#[trigger] r[i])) by {
            if j < p {
                assert(r[i] == t[i] && r[j] == t[j]);
            } else if j == p {
                assert(r[i] == t[i] && r[j] == x);
            } else if i > p {
                assert(r[i] == t[i - 1] && r[j] == t[j - 1]);
            } else if i == p {
                assert(r[i] == x && r[j] == t[j - 1]);
                lemma_key_lt_asymmetric(flat_key_v(x), flat_key_v(t[j - 1]));
            } else {
                assert(r[i] == t[i] && r[j] == t[j - 1]);
            }
        }
    }
}

/// The sort keeps every node, each as often as before.
pub proof fn lemma_sort_permutes(s: Seq<NodeV>)
    ensures
        sort_v(s).to_multiset() == s.to_multiset(),
    decreases s.len(),
{
    broadcast use vstd::seq_lib::group_to_multiset_ensures;

    if s.len() > 0 {
        let t = sort_v(s.drop_last());
        lemma_sort_permutes(s.drop_last());
        lemma_insertion_point(t, s.last());
        vstd::seq_lib::to_multiset_insert(t, insertion_point(t, s.last()) as int, s.last());
        assert(s =~= s.drop_last().push(s.last()));
    }
}


// ---------------------------------------------------------------------------
// Laws of the comment pass
// ---------------------------------------------------------------------------

proof fn lemma_strip_marker(marker: Seq<char>, x: Seq<char>)
    requires
        forall|i: int| 0 <= i < marker.len() ==> marker[i] == ';',
        x.len() == 0 || x[0] != ';',
    ensures
        strip_semicolons(marker + x) == x,
    decreases marker.len(),
{
    if marker.len() == 0 {
        assert(marker + x =~= x);
    } else {
        assert((marker + x).drop_first() =~= marker.drop_first() + x);
        lemma_strip_marker(marker.drop_first(), x);
    }
}

proof fn lemma_strip_no_semicolon(x: Seq<char>)
    ensures
        strip_semicolons(x).len() == 0 || strip_semicolons(x)[0] != ';',
    decreases x.len(),
{
    if x.len() > 0 && x[0] == ';' {
        lemma_strip_no_semicolon(x.drop_first());
    }
}

/// Rule P6 is stable: restyling a restyled comment changes nothing.
pub proof fn lemma_comment_style_idempotent(text: Seq<char>, block: bool, own_line: bool)
    ensures
        comment_style_v(comment_style_v(text, block, own_line), block, own_line) == comment_style_v(
            text,
            block,
            own_line,
        ),
{
    if !block && !is_doc_marker_v(text) {
        reveal_strlit(";;");
        reveal_strlit(";");
        reveal_strlit(" ");
        let marker = if own_line {
            ";;"@
        } else {
            ";"@
        };
        let body = strip_semicolons(text);
        lemma_strip_no_semicolon(text);
        let rest = if body.len() == 0 {
            Seq::<char>::empty()
        } else if body[0] == ' ' || body[0] == '\t' {
            body
        } else {
            " "@ + body
        };
        let r = comment_style_v(text, block, own_line);
        assert(r =~= marker + rest);
        assert(rest.len() == 0 || rest[0] != ';');
        lemma_strip_marker(marker, rest);
        assert(strip_semicolons(r) == rest);
        if body.len() > 0 && !(body[0] == ' ' || body[0] == '\t') {
            assert(crate::text::is_white(' '));
            assert(rest[0] == ' ');
            assert(rest.drop_first() =~= body);
            assert(trim_start(rest) == trim_start(body));
        }
        assert(trim_start(rest) == trim_start(body));
        assert(is_doc_marker_v(r) == is_doc_marker_v(text));
    }
}


// ---------------------------------------------------------------------------
// The passes keep every text clean
// ---------------------------------------------------------------------------

proof fn lemma_strip_semicolons_suffix(t: Seq<char>)
    ensures
        strip_semicolons(t).len() > 0 ==> strip_semicolons(t).last() == t.last(),
    decreases t.len(),
{
    if t.len() > 0 && t[0] == ';' {
        lemma_strip_semicolons_suffix(t.drop_first());
    }
}

proof fn lemma_comment_style_clean(t: Seq<char>, block: bool, own_line: bool)
    requires
        t.len() > 0,
        t.last() != '\n',
    ensures
        comment_style_v(t, block, own_line).len() > 0,
        comment_style_v(t, block, own_line).last() != '\n',
{
    reveal_strlit(";;");
    reveal_strlit(";");
    reveal_strlit(" ");
    lemma_strip_semicolons_suffix(t);
}

proof fn lemma_boolean_spelling_clean(t: Seq<char>)
    requires
        t.len() > 0,
        t.last() != '\n',
    ensures
        boolean_spelling_v(t).len() > 0,
        boolean_spelling_v(t).last() != '\n',
{
    reveal_strlit("#t");
    reveal_strlit("#f");
}

proof fn lemma_permuted_clean(s: Seq<NodeV>, t: Seq<NodeV>)
    requires
        t.to_multiset() == s.to_multiset(),
        all_clean(s),
    ensures
        all_clean(t),
        t.len() == s.len(),
{
    broadcast use vstd::seq_lib::group_to_multiset_ensures;

    vstd::seq_lib::to_multiset_len(s);
    vstd::seq_lib::to_multiset_len(t);

    assert forall|i: int| 0 <= i < t.len() implies #[trigger] deep_clean(t[i]) by {
        assert(t.contains(t[i]));
        assert(s.to_multiset().count(t[i]) > 0);
        assert(s.contains(t[i]));
        let j = choose|j: int| 0 <= j < s.len() && s[j] == t[i];
    }
}

proof fn lemma_concat_clean(a: Seq<NodeV>, b: Seq<NodeV>)
    requires
        all_clean(a),
        all_clean(b),
    ensures
        all_clean(a + b),
{
    assert forall|i: int| 0 <= i < (a + b).len() implies #[trigger] deep_clean((a + b)[i]) by {
        if i < a.len() {
            assert((a + b)[i] == a[i]);
        } else {
            assert((a + b)[i] == b[i - a.len()]);
        }
    }
}

proof fn lemma_sort_clauses_clean(items: Seq<NodeV>)
    requires
        all_clean(items),
    ensures
        all_clean(sort_clauses_v(items)),
{
    if !(items.len() < 3 || exists|i: int| 1 <= i < items.len() && #[trigger] blocks_sort(items[i])) {
        let rest = items.skip(1);
        assert forall|i: int| 0 <= i < rest.len() implies #[trigger] deep_clean(rest[i]) by {
            assert(rest[i] == items[i + 1]);
        }
        lemma_sort_permutes(rest);
        lemma_permuted_clean(rest, sort_v(rest));
        assert(deep_clean(seq![items[0]][0]));
        lemma_concat_clean(seq![items[0]], sort_v(rest));
    }
}

proof fn lemma_quote_sugar_clean(n: NodeV)
    requires
        deep_clean(n),
    ensures
        deep_clean(quote_sugar_v(n)),
{
    if let KindV::List(_, _, items, _) = n.kind {
        lemma_each_clean(items);
        if items.len() == 2 {
            assert(deep_clean(items[1]));
        }
    }
}

proof fn lemma_walk_clean(n: NodeV, c: Passes)
    requires
        deep_clean(n),
    ensures
        deep_clean(walk_v(n, c)),
    decreases n,
{
    let rewritten = match n.kind {
        KindV::Atom(t) => {
            lemma_boolean_spelling_clean(t);
            NodeV { kind: KindV::Atom(if c.boolean_spelling { boolean_spelling_v(t) } else { t }), ..n }
        },
        KindV::Comment(t, block) => {
            lemma_comment_style_clean(t, block, n.own_line);
            NodeV {
                kind: KindV::Comment(if c.comment_style { comment_style_v(t, block, n.own_line) } else { t }, block),
                ..n
            }
        },
        KindV::Prefix(p, target) => {
            lemma_walk_clean(*target, c);
            NodeV { kind: KindV::Prefix(p, Box::new(walk_v(*target, c))), ..n }
        },
        KindV::Verbatim(t) => n,
        KindV::List(open, modifier, items, force_break) => {
            lemma_each_clean(items);
            lemma_walk_all_clean(items, c);
            let walked = walk_all_v(items, c);
            lemma_sort_clauses_clean(walked);
            let (items2, fb) = head_passes_v(walked, force_break, c);
            assert(all_clean(items2));
            lemma_each_clean(items2);
            NodeV { kind: KindV::List(open, modifier, items2, fb), ..n }
        },
    };
    assert(deep_clean(rewritten));
    lemma_quote_sugar_clean(rewritten);
}

proof fn lemma_walk_all_clean(items: Seq<NodeV>, c: Passes)
    requires
        all_clean(items),
    ensures
        all_clean(walk_all_v(items, c)),
        walk_all_v(items, c).len() == items.len(),
    decreases items,
{
    if items.len() > 0 {
        let rest = items.drop_last();
        assert forall|i: int| 0 <= i < rest.len() implies #[trigger] deep_clean(rest[i]) by {
            assert(rest[i] == items[i]);
        }
        lemma_walk_all_clean(rest, c);
        assert(deep_clean(items[items.len() - 1]));
        lemma_walk_clean(items.last(), c);
        let out = walk_all_v(items, c);
        assert forall|i: int| 0 <= i < out.len() implies #[trigger] deep_clean(out[i]) by {
            if i < rest.len() {
                assert(out[i] == walk_all_v(rest, c)[i]);
            }
        }
    }
}

proof fn lemma_require_blocks_clean(nodes: Seq<NodeV>, start: nat)
    requires
        all_clean(nodes),
    ensures
        all_clean(require_blocks_from(nodes, start)),
        start < nodes.len() ==> require_blocks_from(nodes, start).len() > 0,
    decreases nodes.len() - start,
{
    broadcast use vstd::seq_lib::group_to_multiset_ensures;

    if start < nodes.len() {
        if !require_family_v(nodes[start as int]) {
            lemma_require_blocks_clean(nodes, start + 1);
            assert(deep_clean(seq![nodes[start as int]][0]));
            lemma_concat_clean(seq![nodes[start as int]], require_blocks_from(nodes, start + 1));
        } else {
            let end = run_end(nodes, start + 1);
            lemma_run_end(nodes, start + 1);
            let run = nodes.subrange(start as int, end as int);
            assert forall|i: int| 0 <= i < run.len() implies #[trigger] deep_clean(run[i]) by {
                assert(run[i] == nodes[start + i]);
            }
            lemma_require_blocks_clean(nodes, end);
            if end - start > 1 {
                let sorted = sort_v(run);
                lemma_sort_permutes(run);
                lemma_permuted_clean(run, sorted);
                let out = sorted_run(run);
                assert forall|i: int| 0 <= i < out.len() implies #[trigger] deep_clean(out[i]) by {
                    assert(out[i].kind == sorted[i].kind);
                    assert(deep_clean(sorted[i]));
                }
                lemma_concat_clean(out, require_blocks_from(nodes, end));
            } else {
                lemma_concat_clean(run, require_blocks_from(nodes, end));
            }
        }
    }
}

/// The passes keep every text of the forms clean, and leave forms when
/// there were forms.
pub proof fn lemma_passes_keep_texts_clean(nodes: Seq<NodeV>, c: Passes)
    requires
        all_clean(nodes),
    ensures
        all_clean(passes_v(nodes, c)),
        nodes.len() > 0 ==> passes_v(nodes, c).len() > 0,
        nodes.len() == 0 ==> passes_v(nodes, c).len() == 0,
{
    lemma_walk_all_clean(nodes, c);
    lemma_require_blocks_clean(walk_all_v(nodes, c), 0);
}


// ---------------------------------------------------------------------------
// The passes keep every text tidy
// ---------------------------------------------------------------------------

proof fn lemma_strip_semicolons_lacks(t: Seq<char>, ch: char)
    requires
        !t.contains(ch),
    ensures
        !strip_semicolons(t).contains(ch),
    decreases t.len(),
{
    if t.len() > 0 && t[0] == ';' {
        assert forall|i: int| 0 <= i < t.drop_first().len() implies t.drop_first()[i] != ch by {
            assert(t.drop_first()[i] == t[i + 1]);
        }
        lemma_strip_semicolons_lacks(t.drop_first(), ch);
    }
}

proof fn lemma_comment_style_tidy(t: Seq<char>, block: bool, own_line: bool)
    requires
        tidy(t),
        !block ==> !t.contains('\n'),
    ensures
        tidy(comment_style_v(t, block, own_line)),
        !block ==> !comment_style_v(t, block, own_line).contains('\n'),
{
    reveal_strlit(";;");
    reveal_strlit(";");
    reveal_strlit(" ");
    if !(block || is_doc_marker_v(t)) {
        lemma_strip_semicolons_suffix(t);
        lemma_strip_semicolons_lacks(t, '\n');
        let r = comment_style_v(t, block, own_line);
        let marker = if own_line {
            ";;"@
        } else {
            ";"@
        };
        let body = strip_semicolons(t);
        assert forall|i: int| 0 <= i < r.len() implies r[i] != '\n' by {
            if body.len() == 0 {
                assert(r == marker);
            } else if body[0] == ' ' || body[0] == '\t' {
                assert(r == marker + body);
                if i >= marker.len() {
                    assert(r[i] == body[i - marker.len()]);
                }
            } else {
                assert(r == marker + " "@ + body);
                if i > marker.len() {
                    assert(r[i] == body[i - marker.len() - 1]);
                }
            }
        }
        assert(r[0] == ';');
    }
}

proof fn lemma_boolean_spelling_tidy(t: Seq<char>)
    requires
        tidy(t),
    ensures
        tidy(boolean_spelling_v(t)),
{
    reveal_strlit("#t");
    reveal_strlit("#f");
    reveal_strlit("#true");
    reveal_strlit("#false");
}

proof fn lemma_permuted_tidy(s: Seq<NodeV>, t: Seq<NodeV>)
    requires
        t.to_multiset() == s.to_multiset(),
        all_tidy(s),
    ensures
        all_tidy(t),
        t.len() == s.len(),
{
    broadcast use vstd::seq_lib::group_to_multiset_ensures;

    vstd::seq_lib::to_multiset_len(s);
    vstd::seq_lib::to_multiset_len(t);
    assert forall|i: int| 0 <= i < t.len() implies #[trigger] deep_tidy(t[i]) by {
        assert(t.contains(t[i]));
        assert(s.to_multiset().count(t[i]) > 0);
        assert(s.contains(t[i]));
        let j = choose|j: int| 0 <= j < s.len() && s[j] == t[i];
    }
}

proof fn lemma_concat_tidy(a: Seq<NodeV>, b: Seq<NodeV>)
    requires
        all_tidy(a),
        all_tidy(b),
    ensures
        all_tidy(a + b),
{
    assert forall|i: int| 0 <= i < (a + b).len() implies #[trigger] deep_tidy((a + b)[i]) by {
        if i < a.len() {
            assert((a + b)[i] == a[i]);
        } else {
            assert((a + b)[i] == b[i - a.len()]);
        }
    }
}

proof fn lemma_sort_clauses_tidy(items: Seq<NodeV>)
    requires
        all_tidy(items),
    ensures
        all_tidy(sort_clauses_v(items)),
{
    if !(items.len() < 3 || exists|i: int| 1 <= i < items.len() && #[trigger] blocks_sort(items[i])) {
        let rest = items.skip(1);
        assert forall|i: int| 0 <= i < rest.len() implies #[trigger] deep_tidy(rest[i]) by {
            assert(rest[i] == items[i + 1]);
        }
        lemma_sort_permutes(rest);
        lemma_permuted_tidy(rest, sort_v(rest));
        assert(deep_tidy(seq![items[0]][0]));
        lemma_concat_tidy(seq![items[0]], sort_v(rest));
    }
}

proof fn lemma_quote_sugar_tidy(n: NodeV)
    requires
        deep_tidy(n),
    ensures
        deep_tidy(quote_sugar_v(n)),
{
    reveal_strlit("'");
    reveal_strlit("`");
    reveal_strlit(",");
    reveal_strlit(",@");
    if let KindV::List(_, _, items, _) = n.kind {
        lemma_each_tidy(items);
        if items.len() == 2 {
            assert(deep_tidy(items[1]));
        }
    }
}

proof fn lemma_walk_tidy(n: NodeV, c: Passes)
    requires
        deep_tidy(n),
    ensures
        deep_tidy(walk_v(n, c)),
    decreases n,
{
    let rewritten = match n.kind {
        KindV::Atom(t) => {
            lemma_boolean_spelling_tidy(t);
            NodeV { kind: KindV::Atom(if c.boolean_spelling { boolean_spelling_v(t) } else { t }), ..n }
        },
        KindV::Comment(t, block) => {
            lemma_comment_style_tidy(t, block, n.own_line);
            NodeV {
                kind: KindV::Comment(if c.comment_style { comment_style_v(t, block, n.own_line) } else { t }, block),
                ..n
            }
        },
        KindV::Prefix(p, target) => {
            lemma_walk_tidy(*target, c);
            NodeV { kind: KindV::Prefix(p, Box::new(walk_v(*target, c))), ..n }
        },
        KindV::Verbatim(t) => n,
        KindV::List(open, modifier, items, force_break) => {
            lemma_each_tidy(items);
            lemma_walk_all_tidy(items, c);
            let walked = walk_all_v(items, c);
            lemma_sort_clauses_tidy(walked);
            let (items2, fb) = head_passes_v(walked, force_break, c);
            assert(all_tidy(items2));
            lemma_each_tidy(items2);
            NodeV { kind: KindV::List(open, modifier, items2, fb), ..n }
        },
    };
    assert(deep_tidy(rewritten));
    lemma_quote_sugar_tidy(rewritten);
}

proof fn lemma_walk_all_tidy(items: Seq<NodeV>, c: Passes)
    requires
        all_tidy(items),
    ensures
        all_tidy(walk_all_v(items, c)),
        walk_all_v(items, c).len() == items.len(),
    decreases items,
{
    if items.len() > 0 {
        let rest = items.drop_last();
        assert forall|i: int| 0 <= i < rest.len() implies #[trigger] deep_tidy(rest[i]) by {
            assert(rest[i] == items[i]);
        }
        lemma_walk_all_tidy(rest, c);
        assert(deep_tidy(items[items.len() - 1]));
        lemma_walk_tidy(items.last(), c);
        let out = walk_all_v(items, c);
        assert forall|i: int| 0 <= i < out.len() implies #[trigger] deep_tidy(out[i]) by {
            if i < rest.len() {
                assert(out[i] == walk_all_v(rest, c)[i]);
            }
        }
    }
}

proof fn lemma_require_blocks_tidy(nodes: Seq<NodeV>, start: nat)
    requires
        all_tidy(nodes),
    ensures
        all_tidy(require_blocks_from(nodes, start)),
    decreases nodes.len() - start,
{
    if start < nodes.len() {
        if !require_family_v(nodes[start as int]) {
            lemma_require_blocks_tidy(nodes, start + 1);
            assert(deep_tidy(seq![nodes[start as int]][0]));
            lemma_concat_tidy(seq![nodes[start as int]], require_blocks_from(nodes, start + 1));
        } else {
            let end = run_end(nodes, start + 1);
            lemma_run_end(nodes, start + 1);
            let run = nodes.subrange(start as int, end as int);
            assert forall|i: int| 0 <= i < run.len() implies #[trigger] deep_tidy(run[i]) by {
                assert(run[i] == nodes[start + i]);
            }
            lemma_require_blocks_tidy(nodes, end);
            if end - start > 1 {
                let sorted = sort_v(run);
                lemma_sort_permutes(run);
                lemma_permuted_tidy(run, sorted);
                let out = sorted_run(run);
                assert forall|i: int| 0 <= i < out.len() implies #[trigger] deep_tidy(out[i]) by {
                    assert(out[i].kind == sorted[i].kind);
                    assert(deep_tidy(sorted[i]));
                }
                lemma_concat_tidy(out, require_blocks_from(nodes, end));
            } else {
                lemma_concat_tidy(run, require_blocks_from(nodes, end));
            }
        }
    }
}

/// The passes keep every text of the forms tidy.
pub proof fn lemma_passes_keep_texts_tidy(nodes: Seq<NodeV>, c: Passes)
    requires
        all_tidy(nodes),
    ensures
        all_tidy(passes_v(nodes, c)),
{
    lemma_walk_all_tidy(nodes, c);
    lemma_require_blocks_tidy(walk_all_v(nodes, c), 0);
}


// ---------------------------------------------------------------------------
// The passes add no tab
// ---------------------------------------------------------------------------

proof fn lemma_comment_style_tabless(t: Seq<char>, block: bool, own_line: bool)
    requires
        tabless(t),
    ensures
        tabless(comment_style_v(t, block, own_line)),
{
    reveal_strlit(";;");
    reveal_strlit(";");
    reveal_strlit(" ");
    if !(block || is_doc_marker_v(t)) {
        assert(!t.contains('\t'));
        lemma_strip_semicolons_lacks(t, '\t');
        let r = comment_style_v(t, block, own_line);
        let marker = if own_line {
            ";;"@
        } else {
            ";"@
        };
        let body = strip_semicolons(t);
        assert forall|i: int| 0 <= i < r.len() implies #[trigger] r[i] != '\t' by {
            if body.len() == 0 {
                assert(r == marker);
            } else if body[0] == ' ' || body[0] == '\t' {
                assert(r == marker + body);
                if i >= marker.len() {
                    assert(r[i] == body[i - marker.len()]);
                }
            } else {
                assert(r == marker + " "@ + body);
                if i > marker.len() {
                    assert(r[i] == body[i - marker.len() - 1]);
                }
            }
        }
    }
}

proof fn lemma_permuted_tabless(s: Seq<NodeV>, t: Seq<NodeV>)
    requires
        t.to_multiset() == s.to_multiset(),
        all_tabless(s),
    ensures
        all_tabless(t),
{
    broadcast use vstd::seq_lib::group_to_multiset_ensures;

    assert forall|i: int| 0 <= i < t.len() implies #[trigger] deep_tabless(t[i]) by {
        assert(t.contains(t[i]));
        assert(s.to_multiset().count(t[i]) > 0);
        assert(s.contains(t[i]));
        let j = choose|j: int| 0 <= j < s.len() && s[j] == t[i];
    }
}

proof fn lemma_concat_tabless(a: Seq<NodeV>, b: Seq<NodeV>)
    requires
        all_tabless(a),
        all_tabless(b),
    ensures
        all_tabless(a + b),
{
    assert forall|i: int| 0 <= i < (a + b).len() implies #[trigger] deep_tabless((a + b)[i]) by {
        if i < a.len() {
            assert((a + b)[i] == a[i]);
        } else {
            assert((a + b)[i] == b[i - a.len()]);
        }
    }
}

proof fn lemma_sort_clauses_tabless(items: Seq<NodeV>)
    requires
        all_tabless(items),
    ensures
        all_tabless(sort_clauses_v(items)),
{
    if !(items.len() < 3 || exists|i: int| 1 <= i < items.len() && #[trigger] blocks_sort(items[i])) {
        let rest = items.skip(1);
        assert forall|i: int| 0 <= i < rest.len() implies #[trigger] deep_tabless(rest[i]) by {
            assert(rest[i] == items[i + 1]);
        }
        lemma_sort_permutes(rest);
        lemma_permuted_tabless(rest, sort_v(rest));
        assert(deep_tabless(seq![items[0]][0]));
        lemma_concat_tabless(seq![items[0]], sort_v(rest));
    }
}

proof fn lemma_quote_sugar_tabless(n: NodeV)
    requires
        deep_tabless(n),
    ensures
        deep_tabless(quote_sugar_v(n)),
{
    reveal_strlit("'");
    reveal_strlit("`");
    reveal_strlit(",");
    reveal_strlit(",@");
    if let KindV::List(_, _, items, _) = n.kind {
        lemma_each_tabless(items);
        if items.len() == 2 {
            assert(deep_tabless(items[1]));
        }
    }
}

proof fn lemma_walk_tabless(n: NodeV, c: Passes)
    requires
        deep_tabless(n),
    ensures
        deep_tabless(walk_v(n, c)),
    decreases n,
{
    reveal_strlit("#t");
    reveal_strlit("#f");
    let rewritten = match n.kind {
        KindV::Atom(t) => NodeV { kind: KindV::Atom(if c.boolean_spelling { boolean_spelling_v(t) } else { t }), ..n },
        KindV::Comment(t, block) => {
            lemma_comment_style_tabless(t, block, n.own_line);
            NodeV {
                kind: KindV::Comment(if c.comment_style { comment_style_v(t, block, n.own_line) } else { t }, block),
                ..n
            }
        },
        KindV::Prefix(p, target) => {
            lemma_walk_tabless(*target, c);
            NodeV { kind: KindV::Prefix(p, Box::new(walk_v(*target, c))), ..n }
        },
        KindV::Verbatim(t) => n,
        KindV::List(open, modifier, items, force_break) => {
            lemma_each_tabless(items);
            lemma_walk_all_tabless(items, c);
            let walked = walk_all_v(items, c);
            lemma_sort_clauses_tabless(walked);
            let (items2, fb) = head_passes_v(walked, force_break, c);
            assert(all_tabless(items2));
            lemma_each_tabless(items2);
            NodeV { kind: KindV::List(open, modifier, items2, fb), ..n }
        },
    };
    assert(deep_tabless(rewritten));
    lemma_quote_sugar_tabless(rewritten);
}

proof fn lemma_walk_all_tabless(items: Seq<NodeV>, c: Passes)
    requires
        all_tabless(items),
    ensures
        all_tabless(walk_all_v(items, c)),
        walk_all_v(items, c).len() == items.len(),
    decreases items,
{
    if items.len() > 0 {
        let rest = items.drop_last();
        assert forall|i: int| 0 <= i < rest.len() implies #[trigger] deep_tabless(rest[i]) by {
            assert(rest[i] == items[i]);
        }
        lemma_walk_all_tabless(rest, c);
        assert(deep_tabless(items[items.len() - 1]));
        lemma_walk_tabless(items.last(), c);
        let out = walk_all_v(items, c);
        assert forall|i: int| 0 <= i < out.len() implies #[trigger] deep_tabless(out[i]) by {
            if i < rest.len() {
                assert(out[i] == walk_all_v(rest, c)[i]);
            }
        }
    }
}

proof fn lemma_require_blocks_tabless(nodes: Seq<NodeV>, start: nat)
    requires
        all_tabless(nodes),
    ensures
        all_tabless(require_blocks_from(nodes, start)),
    decreases nodes.len() - start,
{
    if start < nodes.len() {
        if !require_family_v(nodes[start as int]) {
            lemma_require_blocks_tabless(nodes, start + 1);
            assert(deep_tabless(seq![nodes[start as int]][0]));
            lemma_concat_tabless(seq![nodes[start as int]], require_blocks_from(nodes, start + 1));
        } else {
            let end = run_end(nodes, start + 1);
            lemma_run_end(nodes, start + 1);
            let run = nodes.subrange(start as int, end as int);
            assert forall|i: int| 0 <= i < run.len() implies #[trigger] deep_tabless(run[i]) by {
                assert(run[i] == nodes[start + i]);
            }
            lemma_require_blocks_tabless(nodes, end);
            if end - start > 1 {
                let sorted = sort_v(run);
                lemma_sort_permutes(run);
                lemma_permuted_tabless(run, sorted);
                let out = sorted_run(run);
                assert forall|i: int| 0 <= i < out.len() implies #[trigger] deep_tabless(out[i]) by {
                    assert(out[i].kind == sorted[i].kind);
                    assert(deep_tabless(sorted[i]));
                }
                lemma_concat_tabless(out, require_blocks_from(nodes, end));
            } else {
                lemma_concat_tabless(run, require_blocks_from(nodes, end));
            }
        }
    }
}

/// The passes add no tab to the forms.
pub proof fn lemma_passes_add_no_tab(nodes: Seq<NodeV>, c: Passes)
    requires
        all_tabless(nodes),
    ensures
        all_tabless(passes_v(nodes, c)),
{
    lemma_walk_all_tabless(nodes, c);
    lemma_require_blocks_tabless(walk_all_v(nodes, c), 0);
}


// ---------------------------------------------------------------------------
// The sort key order is bytewise
// ---------------------------------------------------------------------------

/// The sort order puts a key before every longer key it begins: a proper
/// prefix sorts first, as in bytewise order.
pub proof fn lemma_prefix_sorts_first(a: Seq<char>, s: Seq<char>)
    requires
        s.len() > 0,
    ensures
        key_lt(a, a + s),
        !key_lt(a + s, a),
    decreases a.len(),
{
    if a.len() > 0 {
        assert((a + s)[0] == a[0]);
        assert((a + s).drop_first() =~= a.drop_first() + s);
        lemma_prefix_sorts_first(a.drop_first(), s);
    }
}

/// Past a shared beginning, the first character that differs decides the
/// order, by code point, which is the order of the UTF-8 bytes.
pub proof fn lemma_first_difference_decides(p: Seq<char>, x: char, y: char, s: Seq<char>, t: Seq<char>)
    requires
        (x as u32) < (y as u32),
    ensures
        key_lt(p + seq![x] + s, p + seq![y] + t),
        !key_lt(p + seq![y] + t, p + seq![x] + s),
    decreases p.len(),
{
    let a = p + seq![x] + s;
    let b = p + seq![y] + t;
    if p.len() == 0 {
        assert(a[0] == x);
        assert(b[0] == y);
    } else {
        assert(a[0] == p[0]);
        assert(b[0] == p[0]);
        assert(a.drop_first() =~= p.drop_first() + seq![x] + s);
        assert(b.drop_first() =~= p.drop_first() + seq![y] + t);
        lemma_first_difference_decides(p.drop_first(), x, y, s, t);
    }
}

} // verus!
