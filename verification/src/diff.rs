//! A dependency free unified diff, used by the `--diff` mode.

use vstd::prelude::*;

use crate::text::{chars_of, copy_chars, decimal, push_all, push_decimal, push_lit, string_of};

verus! {

/// Lines of context kept either side of a change.
pub const CONTEXT: usize = 3;

/// The largest longest common subsequence table the diff will allocate. Past
/// this the middle section is reported as one wholesale replacement, which is
/// still a correct diff, just a coarse one.
pub const MAX_CELLS: usize = 4000000;

// ---------------------------------------------------------------------------
// Lines
// ---------------------------------------------------------------------------

/// `t` cut at every newline; the pieces never contain a newline, and there is
/// always one more piece than there are newlines.
pub open spec fn segments(t: Seq<char>) -> Seq<Seq<char>>
    decreases t.len(),
{
    if t.len() == 0 {
        seq![Seq::<char>::empty()]
    } else {
        let prev = segments(t.drop_last());
        if t.last() == '\n' {
            prev.push(Seq::<char>::empty())
        } else {
            prev.update(prev.len() - 1, prev.last().push(t.last()))
        }
    }
}

/// The lines of `t` without their terminators, ignoring the empty line a
/// trailing newline would otherwise produce.
pub open spec fn split_lines(t: Seq<char>) -> Seq<Seq<char>> {
    if t.len() == 0 {
        seq![]
    } else if t.last() == '\n' {
        segments(t).drop_last()
    } else {
        segments(t)
    }
}

proof fn lemma_segments_nonempty(t: Seq<char>)
    ensures
        segments(t).len() >= 1,
        segments(t).last().len() == 0 <==> (t.len() == 0 || t.last() == '\n'),
    decreases t.len(),
{
    if t.len() > 0 {
        lemma_segments_nonempty(t.drop_last());
    }
}

/// The character sequences held by a vector of lines.
pub open spec fn views(s: Seq<Vec<char>>) -> Seq<Seq<char>> {
    s.map_values(|v: Vec<char>| v@)
}

fn lines(text: &Vec<char>) -> (ls: Vec<Vec<char>>)
    ensures
        views(ls@) == split_lines(text@),
{
    let mut done: Vec<Vec<char>> = Vec::new();
    let mut cur: Vec<char> = Vec::new();
    let mut i: usize = 0;
    assert(text@.take(0) =~= Seq::<char>::empty());
    assert(views(done@).push(cur@) =~= segments(text@.take(0)));
    while i < text.len()
        invariant
            i <= text@.len(),
            segments(text@.take(i as int)) == views(done@).push(cur@),
        decreases text@.len() - i,
    {
        let c = text[i];
        let ghost before = views(done@);
        proof {
            assert(text@.take(i + 1).drop_last() =~= text@.take(i as int));
            assert(text@.take(i + 1).last() == c);
        }
        if c == '\n' {
            done.push(cur);
            cur = Vec::new();
            assert(views(done@) =~= before.push(segments(text@.take(i as int)).last()));
            assert(segments(text@.take(i + 1)) =~= views(done@).push(cur@));
        } else {
            let ghost old_cur = cur@;
            cur.push(c);
            assert(views(done@) =~= before);
            assert(segments(text@.take(i + 1)) =~= views(done@).push(cur@));
        }
        i += 1;
    }
    assert(text@.take(text@.len() as int) =~= text@);
    proof {
        lemma_segments_nonempty(text@);
    }
    if cur.len() > 0 {
        let ghost before = views(done@);
        done.push(cur);
        assert(views(done@) =~= before.push(segments(text@).last()));
        assert(views(done@) =~= segments(text@));
    } else {
        assert(views(done@) =~= segments(text@).drop_last());
    }
    done
}


// ---------------------------------------------------------------------------
// Edit scripts
// ---------------------------------------------------------------------------

/// What an edit does with its line.
#[derive(Debug, Clone, Copy, PartialEq, Eq, Structural)]
pub enum EditKind {
    Keep,
    Remove,
    Insert,
}

/// One line of an edit script.
pub struct Edit {
    pub kind: EditKind,
    pub line: Vec<char>,
}

/// An edit as a plain value.
pub open spec fn edit_view(e: Edit) -> (EditKind, Seq<char>) {
    (e.kind, e.line@)
}

/// An edit script as plain values.
pub open spec fn edits_view(s: Seq<Edit>) -> Seq<(EditKind, Seq<char>)> {
    s.map_values(|e: Edit| edit_view(e))
}

/// Every line of `ls` under the same kind.
pub open spec fn tagged(k: EditKind, ls: Seq<Seq<char>>) -> Seq<(EditKind, Seq<char>)> {
    ls.map_values(|l: Seq<char>| (k, l))
}

/// The lines an edit script reads from the old text, in order.
pub open spec fn olds(es: Seq<(EditKind, Seq<char>)>) -> Seq<Seq<char>>
    decreases es.len(),
{
    if es.len() == 0 {
        seq![]
    } else if es.last().0 != EditKind::Insert {
        olds(es.drop_last()).push(es.last().1)
    } else {
        olds(es.drop_last())
    }
}

/// The lines an edit script writes to the new text, in order.
pub open spec fn news(es: Seq<(EditKind, Seq<char>)>) -> Seq<Seq<char>>
    decreases es.len(),
{
    if es.len() == 0 {
        seq![]
    } else if es.last().0 != EditKind::Remove {
        news(es.drop_last()).push(es.last().1)
    } else {
        news(es.drop_last())
    }
}

/// How many leading lines `a` and `b` share.
pub open spec fn common_prefix(a: Seq<Seq<char>>, b: Seq<Seq<char>>) -> nat
    decreases a.len(),
{
    if a.len() == 0 || b.len() == 0 || a[0] != b[0] {
        0
    } else {
        1 + common_prefix(a.drop_first(), b.drop_first())
    }
}

/// How many trailing lines `a` and `b` share.
pub open spec fn common_suffix(a: Seq<Seq<char>>, b: Seq<Seq<char>>) -> nat
    decreases a.len(),
{
    if a.len() == 0 || b.len() == 0 || a.last() != b.last() {
        0
    } else {
        1 + common_suffix(a.drop_last(), b.drop_last())
    }
}

/// The length of a longest common subsequence of `a.skip(r)` and `b.skip(c)`.
pub open spec fn lcs(a: Seq<Seq<char>>, b: Seq<Seq<char>>, r: nat, c: nat) -> nat
    decreases a.len() + b.len() - r - c,
{
    if r >= a.len() || c >= b.len() {
        0
    } else if a[r as int] == b[c as int] {
        1 + lcs(a, b, r + 1, c + 1)
    } else if lcs(a, b, r + 1, c) >= lcs(a, b, r, c + 1) {
        lcs(a, b, r + 1, c)
    } else {
        lcs(a, b, r, c + 1)
    }
}

/// The edit script that turns `a.skip(r)` into `b.skip(c)` along a longest
/// common subsequence, keeping a shared line, and otherwise preferring to
/// remove an old line whenever that loses nothing.
pub open spec fn lcs_script(a: Seq<Seq<char>>, b: Seq<Seq<char>>, r: nat, c: nat) -> Seq<
    (EditKind, Seq<char>),
>
    decreases a.len() + b.len() - r - c,
{
    if r >= a.len() {
        tagged(EditKind::Insert, b.skip(c as int))
    } else if c >= b.len() {
        tagged(EditKind::Remove, a.skip(r as int))
    } else if a[r as int] == b[c as int] {
        seq![(EditKind::Keep, a[r as int])] + lcs_script(a, b, r + 1, c + 1)
    } else if lcs(a, b, r + 1, c) >= lcs(a, b, r, c + 1) {
        seq![(EditKind::Remove, a[r as int])] + lcs_script(a, b, r + 1, c)
    } else {
        seq![(EditKind::Insert, b[c as int])] + lcs_script(a, b, r, c + 1)
    }
}

/// Whether the table for `a` against `b` is too large to build.
pub open spec fn too_large(a: Seq<Seq<char>>, b: Seq<Seq<char>>) -> bool {
    (a.len() + 1) * (b.len() + 1) > MAX_CELLS
}

/// The script for what is left once the common prefix and suffix are gone.
pub open spec fn middle_script(a: Seq<Seq<char>>, b: Seq<Seq<char>>) -> Seq<(EditKind, Seq<char>)> {
    if a.len() == 0 || b.len() == 0 || too_large(a, b) {
        tagged(EditKind::Remove, a) + tagged(EditKind::Insert, b)
    } else {
        lcs_script(a, b, 0, 0)
    }
}

/// The edit script the diff prints: shared leading and trailing lines kept,
/// the middle diffed along a longest common subsequence.
pub open spec fn edit_script(old: Seq<Seq<char>>, new: Seq<Seq<char>>) -> Seq<(EditKind, Seq<char>)> {
    let p = common_prefix(old, new);
    let s = common_suffix(old.skip(p as int), new.skip(p as int));
    tagged(EditKind::Keep, old.take(p as int)) + middle_script(
        old.subrange(p as int, old.len() - s),
        new.subrange(p as int, new.len() - s),
    ) + tagged(EditKind::Keep, old.skip(old.len() - s))
}


fn same_line(x: &Vec<char>, y: &Vec<char>) -> (r: bool)
    ensures
        r == (x@ == y@),
{
    if x.len() != y.len() {
        return false;
    }
    let mut i: usize = 0;
    while i < x.len()
        invariant
            x@.len() == y@.len(),
            i <= x@.len(),
            forall|j: int| 0 <= j < i ==> x@[j] == y@[j],
        decreases x@.len() - i,
    {
        if x[i] != y[i] {
            return false;
        }
        i += 1;
    }
    assert(x@ =~= y@);
    true
}

/// Appends every line of `ls` to `edits` under the kind `k`.
fn push_tagged(edits: &mut Vec<Edit>, k: EditKind, ls: &[Vec<char>])
    ensures
        edits_view(final(edits)@) == edits_view(old(edits)@) + tagged(k, views(ls@)),
{
    let mut i: usize = 0;
    while i < ls.len()
        invariant
            i <= ls@.len(),
            edits_view(edits@) == edits_view(old(edits)@) + tagged(k, views(ls@.take(i as int))),
        decreases ls@.len() - i,
    {
        let line = copy_chars(ls[i].as_slice());
        let ghost prev = edits_view(edits@);
        edits.push(Edit { kind: k, line });
        assert(views(ls@.take(i + 1)) =~= views(ls@.take(i as int)).push(ls@[i as int]@));
        assert(edits_view(edits@) =~= prev.push((k, ls@[i as int]@)));
        assert(tagged(k, views(ls@.take(i + 1))) =~= tagged(k, views(ls@.take(i as int))).push(
            (k, ls@[i as int]@),
        ));
        i += 1;
    }
    assert(ls@.take(ls@.len() as int) =~= ls@);
}

proof fn lemma_lcs_bound(a: Seq<Seq<char>>, b: Seq<Seq<char>>, r: nat, c: nat)
    ensures
        r <= a.len() ==> lcs(a, b, r, c) <= a.len() - r,
    decreases a.len() + b.len() - r - c,
{
    if r < a.len() && c < b.len() {
        lemma_lcs_bound(a, b, r + 1, c + 1);
        lemma_lcs_bound(a, b, r + 1, c);
        lemma_lcs_bound(a, b, r, c + 1);
    }
}

/// The position of cell `(r, c)` in a table whose rows are `stride` long.
pub open spec fn cell(stride: nat, r: nat, c: nat) -> nat {
    r * stride + c
}

proof fn lemma_cell(stride: nat, rows: nat, r: nat, c: nat)
    requires
        r <= rows,
        c < stride,
    ensures
        cell(stride, r, c) < (rows + 1) * stride,
        cell(stride, r + 1, c) == cell(stride, r, c) + stride,
{
    assert(r * stride + c < (rows + 1) * stride) by (nonlinear_arith)
        requires
            r <= rows,
            c < stride,
    ;
    assert((r + 1) * stride == r * stride + stride) by (nonlinear_arith);
}

proof fn lemma_cell_injective(stride: nat, r1: nat, c1: nat, r2: nat, c2: nat)
    requires
        c1 < stride,
        c2 < stride,
        cell(stride, r1, c1) == cell(stride, r2, c2),
    ensures
        r1 == r2,
        c1 == c2,
{
    assert(r1 == r2 && c1 == c2) by (nonlinear_arith)
        requires
            c1 < stride,
            c2 < stride,
            r1 * stride + c1 == r2 * stride + c2,
    ;
}

/// Diffs the section left after common prefix and suffix are stripped.
fn middle(a: &[Vec<char>], b: &[Vec<char>], edits: &mut Vec<Edit>)
    ensures
        edits_view(final(edits)@) == edits_view(old(edits)@) + middle_script(views(a@), views(b@)),
{
    let ghost va = views(a@);
    let ghost vb = views(b@);
    let rows = a.len();
    let columns = b.len();
    let mut size: usize = 0;
    if rows < MAX_CELLS && columns < MAX_CELLS {
        assert((rows + 1) * (columns + 1) <= MAX_CELLS * MAX_CELLS) by (nonlinear_arith)
            requires
                rows < MAX_CELLS,
                columns < MAX_CELLS,
        ;
        let product = (rows + 1) as u64 * (columns + 1) as u64;
        assert(product == (rows + 1) * (columns + 1));
        assert((rows + 1) * (columns + 1) >= 1) by (nonlinear_arith);
        if product <= MAX_CELLS as u64 {
            size = product as usize;
        } else {
            assert(too_large(views(a@), views(b@)));
        }
    } else {
        assert((rows + 1) * (columns + 1) > MAX_CELLS) by (nonlinear_arith)
            requires
                rows >= MAX_CELLS || columns >= MAX_CELLS,
        ;
    }
    if rows == 0 || columns == 0 || size == 0 {
        proof {
            if rows > 0 && columns > 0 {
                assert(too_large(va, vb));
            }
        }
        push_tagged(edits, EditKind::Remove, a);
        push_tagged(edits, EditKind::Insert, b);
        return;
    }
    assert(!too_large(va, vb));
    let stride = columns + 1;
    assert(size == (rows + 1) * stride);
    assert(rows < MAX_CELLS && columns < MAX_CELLS);
    let mut table: Vec<u32> = vec![0u32; size];
    proof {
        assert forall|r: nat, c: nat|
            r <= rows && c <= columns && (r >= rows || c == columns) implies table@[cell(
            stride as nat,
            r,
            c,
        ) as int] == #[trigger] lcs(va, vb, r, c) by {
            lemma_cell(stride as nat, rows as nat, r, c);
        }
        assert forall|r: nat, c: nat| r <= rows && c <= columns implies #[trigger] lcs(va, vb, r, c)
            <= rows by {
            lemma_lcs_bound(va, vb, r, c);
        }
    }
    let mut row = rows;
    while row > 0
        invariant
            va == views(a@),
            vb == views(b@),
            rows == a@.len(),
            columns == b@.len(),
            stride == columns + 1,
            size == (rows + 1) * stride,
            size <= MAX_CELLS,
            rows < MAX_CELLS,
            table@.len() == size,
            row <= rows,
            forall|r: nat, c: nat|
                r <= rows && c <= columns && (r >= row || c == columns) ==> table@[cell(
                    stride as nat,
                    r,
                    c,
                ) as int] == #[trigger] lcs(va, vb, r, c),
            forall|r: nat, c: nat| r <= rows && c <= columns ==> #[trigger] lcs(va, vb, r, c) <= rows,
        decreases row,
    {
        row = row - 1;
        let mut column = columns;
        while column > 0
            invariant
                va == views(a@),
                vb == views(b@),
                rows == a@.len(),
                columns == b@.len(),
                stride == columns + 1,
                size == (rows + 1) * stride,
                size <= MAX_CELLS,
                rows < MAX_CELLS,
                table@.len() == size,
                row < rows,
                column <= columns,
                forall|r: nat, c: nat|
                    r <= rows && c <= columns && (r > row || c == columns || (r == row && c
                        >= column)) ==> table@[cell(stride as nat, r, c) as int] == #[trigger] lcs(
                        va,
                        vb,
                        r,
                        c,
                    ),
                forall|r: nat, c: nat|
                    r <= rows && c <= columns ==> #[trigger] lcs(va, vb, r, c) <= rows,
            decreases column,
        {
            column = column - 1;
            proof {
                lemma_cell(stride as nat, rows as nat, row as nat, column as nat);
                lemma_cell(stride as nat, rows as nat, row as nat, (column + 1) as nat);
                lemma_cell(stride as nat, rows as nat, (row + 1) as nat, column as nat);
                lemma_cell(stride as nat, rows as nat, (row + 1) as nat, (column + 1) as nat);
                assert(lcs(va, vb, (row + 1) as nat, (column + 1) as nat) <= rows);
                assert(lcs(va, vb, (row + 1) as nat, column as nat) <= rows);
                assert(lcs(va, vb, row as nat, (column + 1) as nat) <= rows);
            }
            let here = row * stride + column;
            let below = here + stride;
            assert(here == cell(stride as nat, row as nat, column as nat));
            assert(below == cell(stride as nat, (row + 1) as nat, column as nat));
            let value = if same_line(&a[row], &b[column]) {
                table[below + 1] + 1
            } else {
                let down = table[below];
                let right = table[here + 1];
                if down >= right {
                    down
                } else {
                    right
                }
            };
            assert(value == lcs(va, vb, row as nat, column as nat));
            table.set(here, value);
            proof {
                assert forall|r: nat, c: nat|
                    r <= rows && c <= columns && (r > row || c == columns || (r == row && c
                        >= column)) implies table@[cell(stride as nat, r, c) as int] == #[trigger] lcs(
                    va,
                    vb,
                    r,
                    c,
                ) by {
                    lemma_cell(stride as nat, rows as nat, r, c);
                    if cell(stride as nat, r, c) == here {
                        lemma_cell_injective(stride as nat, r, c, row as nat, column as nat);
                    }
                }
            }
        }
    }
    let ghost start = edits_view(edits@);
    let mut row: usize = 0;
    let mut column: usize = 0;
    while row < rows && column < columns
        invariant
            va == views(a@),
            vb == views(b@),
            rows == a@.len(),
            columns == b@.len(),
            stride == columns + 1,
            size == (rows + 1) * stride,
            table@.len() == size,
            row <= rows,
            column <= columns,
            forall|r: nat, c: nat|
                r <= rows && c <= columns ==> table@[cell(stride as nat, r, c) as int]
                    == #[trigger] lcs(va, vb, r, c),
            edits_view(edits@) + lcs_script(va, vb, row as nat, column as nat) == start
                + lcs_script(va, vb, 0, 0),
        decreases rows + columns - row - column,
    {
        let ghost before = edits_view(edits@);
        proof {
            assert(row * stride + column == cell(stride as nat, row as nat, column as nat));
            lemma_cell(stride as nat, rows as nat, row as nat, column as nat);
            lemma_cell(stride as nat, rows as nat, row as nat, (column + 1) as nat);
            lemma_cell(stride as nat, rows as nat, (row + 1) as nat, column as nat);
            assert(lcs(va, vb, (row + 1) as nat, column as nat) == lcs(
                va,
                vb,
                (row + 1) as nat,
                column as nat,
            ));
            assert(lcs(va, vb, row as nat, (column + 1) as nat) == lcs(
                va,
                vb,
                row as nat,
                (column + 1) as nat,
            ));
        }
        if same_line(&a[row], &b[column]) {
            let line = copy_chars(a[row].as_slice());
            edits.push(Edit { kind: EditKind::Keep, line });
            assert(edits_view(edits@) =~= before + seq![(EditKind::Keep, va[row as int])]);
            row += 1;
            column += 1;
        } else if table[row * stride + column + stride] >= table[row * stride + column + 1] {
            let line = copy_chars(a[row].as_slice());
            edits.push(Edit { kind: EditKind::Remove, line });
            assert(edits_view(edits@) =~= before + seq![(EditKind::Remove, va[row as int])]);
            row += 1;
        } else {
            let line = copy_chars(b[column].as_slice());
            edits.push(Edit { kind: EditKind::Insert, line });
            assert(edits_view(edits@) =~= before + seq![(EditKind::Insert, vb[column as int])]);
            column += 1;
        }
    }
    let rest_a = &a[row..rows];
    let rest_b = &b[column..columns];
    assert(views(rest_a@) =~= va.skip(row as int));
    assert(views(rest_b@) =~= vb.skip(column as int));
    push_tagged(edits, EditKind::Remove, rest_a);
    push_tagged(edits, EditKind::Insert, rest_b);
    proof {
        if row >= rows {
            assert(va.skip(row as int) =~= Seq::<Seq<char>>::empty());
        } else {
            assert(vb.skip(column as int) =~= Seq::<Seq<char>>::empty());
        }
    }
}


fn prefix_len(old: &Vec<Vec<char>>, new: &Vec<Vec<char>>) -> (prefix: usize)
    ensures
        prefix == common_prefix(views(old@), views(new@)),
        prefix <= old@.len(),
        prefix <= new@.len(),
{
    let ghost vo = views(old@);
    let ghost vn = views(new@);
    let shorter = if old.len() < new.len() {
        old.len()
    } else {
        new.len()
    };
    let mut prefix: usize = 0;
    assert(vo.skip(0) =~= vo && vn.skip(0) =~= vn);
    while prefix < shorter && same_line(&old[prefix], &new[prefix])
        invariant
            vo == views(old@),
            vn == views(new@),
            shorter <= old@.len(),
            shorter <= new@.len(),
            shorter == old@.len() || shorter == new@.len(),
            prefix <= shorter,
            common_prefix(vo, vn) == prefix + common_prefix(
                vo.skip(prefix as int),
                vn.skip(prefix as int),
            ),
        decreases shorter - prefix,
    {
        assert(vo.skip(prefix as int).drop_first() =~= vo.skip(prefix + 1));
        assert(vn.skip(prefix as int).drop_first() =~= vn.skip(prefix + 1));
        prefix += 1;
    }
    assert(common_prefix(vo.skip(prefix as int), vn.skip(prefix as int)) == 0);
    prefix
}

fn suffix_len(old: &Vec<Vec<char>>, new: &Vec<Vec<char>>, prefix: usize) -> (suffix: usize)
    requires
        prefix <= old@.len(),
        prefix <= new@.len(),
    ensures
        suffix == common_suffix(
            views(old@).skip(prefix as int),
            views(new@).skip(prefix as int),
        ),
        suffix + prefix <= old@.len(),
        suffix + prefix <= new@.len(),
{
    let ghost vo = views(old@);
    let ghost vn = views(new@);
    let shorter = if old.len() < new.len() {
        old.len()
    } else {
        new.len()
    };
    let rest = shorter - prefix;
    let ghost ao = vo.skip(prefix as int);
    let ghost an = vn.skip(prefix as int);
    let mut suffix: usize = 0;
    assert(ao.take(ao.len() as int) =~= ao && an.take(an.len() as int) =~= an);
    while suffix < rest && same_line(
        &old[old.len() - 1 - suffix],
        &new[new.len() - 1 - suffix],
    )
        invariant
            vo == views(old@),
            vn == views(new@),
            ao == vo.skip(prefix as int),
            an == vn.skip(prefix as int),
            prefix <= shorter,
            shorter <= old@.len(),
            shorter <= new@.len(),
            shorter == old@.len() || shorter == new@.len(),
            rest == shorter - prefix,
            suffix <= rest,
            common_suffix(ao, an) == suffix + common_suffix(
                ao.take(ao.len() - suffix),
                an.take(an.len() - suffix),
            ),
        decreases rest - suffix,
    {
        assert(ao.take(ao.len() - suffix).drop_last() =~= ao.take(ao.len() - suffix - 1));
        assert(an.take(an.len() - suffix).drop_last() =~= an.take(an.len() - suffix - 1));
        suffix += 1;
    }
    assert(common_suffix(ao.take(ao.len() - suffix), an.take(an.len() - suffix)) == 0);
    suffix
}

fn edits(old: &Vec<Vec<char>>, new: &Vec<Vec<char>>) -> (es: Vec<Edit>)
    ensures
        edits_view(es@) == edit_script(views(old@), views(new@)),
{
    let ghost vo = views(old@);
    let ghost vn = views(new@);
    let prefix = prefix_len(old, new);
    let suffix = suffix_len(old, new, prefix);
    let mut es: Vec<Edit> = Vec::new();
    let head = &old[0..prefix];
    let mid_old = &old[prefix..old.len() - suffix];
    let mid_new = &new[prefix..new.len() - suffix];
    let tail = &old[old.len() - suffix..old.len()];
    assert(views(head@) =~= vo.take(prefix as int));
    assert(views(mid_old@) =~= vo.subrange(prefix as int, vo.len() - suffix));
    assert(views(mid_new@) =~= vn.subrange(prefix as int, vn.len() - suffix));
    assert(views(tail@) =~= vo.skip(vo.len() - suffix));
    assert(edits_view(es@) =~= Seq::<(EditKind, Seq<char>)>::empty());
    push_tagged(&mut es, EditKind::Keep, head);
    middle(mid_old, mid_new, &mut es);
    push_tagged(&mut es, EditKind::Keep, tail);
    assert(edits_view(es@) =~= edit_script(vo, vn));
    es
}


// ---------------------------------------------------------------------------
// The edit script reads the old text and writes the new one
// ---------------------------------------------------------------------------

proof fn lemma_sides_append(x: Seq<(EditKind, Seq<char>)>, y: Seq<(EditKind, Seq<char>)>)
    ensures
        olds(x + y) == olds(x) + olds(y),
        news(x + y) == news(x) + news(y),
    decreases y.len(),
{
    if y.len() == 0 {
        assert(x + y =~= x);
        assert(olds(x) + olds(y) =~= olds(x));
        assert(news(x) + news(y) =~= news(x));
    } else {
        lemma_sides_append(x, y.drop_last());
        assert((x + y).drop_last() =~= x + y.drop_last());
        assert((x + y).last() == y.last());
        if y.last().0 != EditKind::Insert {
            assert(olds(x) + olds(y) =~= (olds(x) + olds(y.drop_last())).push(y.last().1));
        } else {
            assert(olds(x) + olds(y) =~= olds(x) + olds(y.drop_last()));
        }
        if y.last().0 != EditKind::Remove {
            assert(news(x) + news(y) =~= (news(x) + news(y.drop_last())).push(y.last().1));
        } else {
            assert(news(x) + news(y) =~= news(x) + news(y.drop_last()));
        }
    }
}

proof fn lemma_sides_tagged(k: EditKind, ls: Seq<Seq<char>>)
    ensures
        olds(tagged(k, ls)) == (if k == EditKind::Insert {
            Seq::<Seq<char>>::empty()
        } else {
            ls
        }),
        news(tagged(k, ls)) == (if k == EditKind::Remove {
            Seq::<Seq<char>>::empty()
        } else {
            ls
        }),
    decreases ls.len(),
{
    if ls.len() > 0 {
        lemma_sides_tagged(k, ls.drop_last());
        assert(tagged(k, ls).drop_last() =~= tagged(k, ls.drop_last()));
        assert(ls.drop_last().push(ls.last()) =~= ls);
    } else {
        assert(tagged(k, ls) =~= Seq::<(EditKind, Seq<char>)>::empty());
    }
}

proof fn lemma_lcs_script_valid(a: Seq<Seq<char>>, b: Seq<Seq<char>>, r: nat, c: nat)
    requires
        r <= a.len(),
        c <= b.len(),
    ensures
        olds(lcs_script(a, b, r, c)) == a.skip(r as int),
        news(lcs_script(a, b, r, c)) == b.skip(c as int),
    decreases a.len() + b.len() - r - c,
{
    if r >= a.len() {
        lemma_sides_tagged(EditKind::Insert, b.skip(c as int));
        assert(a.skip(r as int) =~= Seq::<Seq<char>>::empty());
    } else if c >= b.len() {
        lemma_sides_tagged(EditKind::Remove, a.skip(r as int));
        assert(b.skip(c as int) =~= Seq::<Seq<char>>::empty());
    } else {
        let (e, rest, r2, c2) = if a[r as int] == b[c as int] {
            ((EditKind::Keep, a[r as int]), lcs_script(a, b, r + 1, c + 1), r + 1, c + 1)
        } else if lcs(a, b, r + 1, c) >= lcs(a, b, r, c + 1) {
            ((EditKind::Remove, a[r as int]), lcs_script(a, b, r + 1, c), r + 1, c)
        } else {
            ((EditKind::Insert, b[c as int]), lcs_script(a, b, r, c + 1), r, c + 1)
        };
        lemma_lcs_script_valid(a, b, r2, c2);
        lemma_sides_append(seq![e], rest);
        assert(seq![e].drop_last() =~= Seq::<(EditKind, Seq<char>)>::empty());
        assert(a.skip(r as int) =~= seq![a[r as int]] + a.skip(r + 1 as int));
        assert(b.skip(c as int) =~= seq![b[c as int]] + b.skip(c + 1 as int));
        assert(olds(seq![e].drop_last()) =~= Seq::<Seq<char>>::empty());
        assert(news(seq![e].drop_last()) =~= Seq::<Seq<char>>::empty());
        if r2 == r {
            assert(olds(seq![e]) =~= Seq::<Seq<char>>::empty());
            assert(a.skip(r as int) =~= Seq::<Seq<char>>::empty() + a.skip(r2 as int));
        } else {
            assert(olds(seq![e]) =~= seq![a[r as int]]);
        }
        if c2 == c {
            assert(news(seq![e]) =~= Seq::<Seq<char>>::empty());
            assert(b.skip(c as int) =~= Seq::<Seq<char>>::empty() + b.skip(c2 as int));
        } else {
            assert(news(seq![e]) =~= seq![b[c as int]]);
        }
    }
}

proof fn lemma_common_prefix(a: Seq<Seq<char>>, b: Seq<Seq<char>>)
    ensures
        common_prefix(a, b) <= a.len(),
        common_prefix(a, b) <= b.len(),
        a.take(common_prefix(a, b) as int) == b.take(common_prefix(a, b) as int),
    decreases a.len(),
{
    if !(a.len() == 0 || b.len() == 0 || a[0] != b[0]) {
        lemma_common_prefix(a.drop_first(), b.drop_first());
        let p = common_prefix(a, b) as int;
        assert(a.take(p) =~= seq![a[0]] + a.drop_first().take(p - 1));
        assert(b.take(p) =~= seq![b[0]] + b.drop_first().take(p - 1));
    } else {
        assert(a.take(0) =~= b.take(0));
    }
}

proof fn lemma_common_suffix(a: Seq<Seq<char>>, b: Seq<Seq<char>>)
    ensures
        common_suffix(a, b) <= a.len(),
        common_suffix(a, b) <= b.len(),
        a.skip(a.len() - common_suffix(a, b)) == b.skip(b.len() - common_suffix(a, b)),
    decreases a.len(),
{
    if !(a.len() == 0 || b.len() == 0 || a.last() != b.last()) {
        lemma_common_suffix(a.drop_last(), b.drop_last());
        let s = common_suffix(a, b) as int;
        assert(a.skip(a.len() - s) =~= a.drop_last().skip(a.len() - s) + seq![a.last()]);
        assert(b.skip(b.len() - s) =~= b.drop_last().skip(b.len() - s) + seq![b.last()]);
    } else {
        assert(a.skip(a.len() as int) =~= b.skip(b.len() as int));
    }
}

/// The diff is sound: the edit script it prints reads exactly the lines of
/// the old text and writes exactly the lines of the new one.
pub proof fn lemma_edit_script_valid(old: Seq<Seq<char>>, new: Seq<Seq<char>>)
    ensures
        olds(edit_script(old, new)) == old,
        news(edit_script(old, new)) == new,
{
    let p = common_prefix(old, new);
    lemma_common_prefix(old, new);
    let ao = old.skip(p as int);
    let an = new.skip(p as int);
    let s = common_suffix(ao, an);
    lemma_common_suffix(ao, an);
    let mo = old.subrange(p as int, old.len() - s);
    let mn = new.subrange(p as int, new.len() - s);
    let head = tagged(EditKind::Keep, old.take(p as int));
    let tail = tagged(EditKind::Keep, old.skip(old.len() - s));
    let mid = middle_script(mo, mn);
    lemma_sides_tagged(EditKind::Keep, old.take(p as int));
    lemma_sides_tagged(EditKind::Keep, old.skip(old.len() - s));
    if mo.len() == 0 || mn.len() == 0 || too_large(mo, mn) {
        lemma_sides_tagged(EditKind::Remove, mo);
        lemma_sides_tagged(EditKind::Insert, mn);
        lemma_sides_append(tagged(EditKind::Remove, mo), tagged(EditKind::Insert, mn));
        assert(olds(mid) =~= mo);
        assert(news(mid) =~= mn);
    } else {
        lemma_lcs_script_valid(mo, mn, 0, 0);
        assert(mo.skip(0) =~= mo);
        assert(mn.skip(0) =~= mn);
    }
    lemma_sides_append(head, mid);
    lemma_sides_append(head + mid, tail);
    assert(ao.skip(ao.len() - s) =~= old.skip(old.len() - s));
    assert(an.skip(an.len() - s) =~= new.skip(new.len() - s));
    assert(old.take(p as int) + mo + old.skip(old.len() - s) =~= old);
    assert(new.take(p as int) + mn + new.skip(new.len() - s) =~= new);
}

proof fn lemma_script_len(es: Seq<(EditKind, Seq<char>)>)
    ensures
        es.len() <= olds(es).len() + news(es).len(),
    decreases es.len(),
{
    if es.len() > 0 {
        lemma_script_len(es.drop_last());
    }
}

proof fn lemma_segments_len(t: Seq<char>)
    ensures
        segments(t).len() <= t.len() + 1,
        t.len() > 0 && t.last() != '\n' ==> segments(t).len() <= t.len(),
    decreases t.len(),
{
    if t.len() > 0 {
        lemma_segments_len(t.drop_last());
        lemma_segments_nonempty(t.drop_last());
    }
}

proof fn lemma_split_lines_len(t: Seq<char>)
    ensures
        split_lines(t).len() <= t.len(),
{
    lemma_segments_len(t);
    lemma_segments_nonempty(t);
}

// ---------------------------------------------------------------------------
// Hunks
// ---------------------------------------------------------------------------

/// Whether an edit changes the text.
pub open spec fn is_change(e: (EditKind, Seq<char>)) -> bool {
    e.0 != EditKind::Keep
}

/// The edit ranges of the hunks among the first `i` edits of `es`: each
/// change is widened by `CONTEXT` edits either side, clipped to the script,
/// and a range that overlaps or touches the previous one is merged into it.
pub open spec fn hunk_ranges(es: Seq<(EditKind, Seq<char>)>, i: nat) -> Seq<(usize, usize)>
    decreases i,
{
    if i == 0 {
        seq![]
    } else {
        let prev = hunk_ranges(es, (i - 1) as nat);
        let ch = i - 1;
        if !is_change(es[ch]) {
            prev
        } else {
            let start: usize = if ch >= CONTEXT {
                (ch - CONTEXT) as usize
            } else {
                0
            };
            let end: usize = if ch + CONTEXT + 1 <= es.len() {
                (ch + CONTEXT + 1) as usize
            } else {
                es.len() as usize
            };
            if prev.len() > 0 && start <= prev.last().1 {
                prev.update(prev.len() - 1, (prev.last().0, end))
            } else {
                prev.push((start, end))
            }
        }
    }
}

proof fn lemma_hunk_ranges_bounds(es: Seq<(EditKind, Seq<char>)>, i: nat)
    requires
        i <= es.len(),
        es.len() <= usize::MAX,
    ensures
        forall|j: int|
            0 <= j < hunk_ranges(es, i).len() ==> #[trigger] hunk_ranges(es, i)[j].0
                <= hunk_ranges(es, i)[j].1 <= es.len(),
        hunk_ranges(es, i).len() > 0 ==> hunk_ranges(es, i).last().1 <= i + CONTEXT,
    decreases i,
{
    if i > 0 {
        lemma_hunk_ranges_bounds(es, (i - 1) as nat);
        let prev = hunk_ranges(es, (i - 1) as nat);
        let cur = hunk_ranges(es, i);
        let ch = i - 1;
        if prev.len() > 0 {
            assert(prev[prev.len() - 1].0 <= prev[prev.len() - 1].1);
        }
        if is_change(es[ch]) {
            let start: usize = if ch >= CONTEXT {
                (ch - CONTEXT) as usize
            } else {
                0
            };
            let end: usize = if ch + CONTEXT + 1 <= es.len() {
                (ch + CONTEXT + 1) as usize
            } else {
                es.len() as usize
            };
            if prev.len() > 0 && start <= prev.last().1 {
                assert(cur == prev.update(prev.len() - 1, (prev.last().0, end)));
                assert forall|j: int| 0 <= j < cur.len() implies #[trigger] cur[j].0 <= cur[j].1 <= es.len() by {
                    if j < prev.len() - 1 {
                        assert(cur[j] == prev[j]);
                    }
                }
            } else {
                assert(cur == prev.push((start, end)));
                assert forall|j: int| 0 <= j < cur.len() implies #[trigger] cur[j].0 <= cur[j].1 <= es.len() by {
                    if j < prev.len() {
                        assert(cur[j] == prev[j]);
                    }
                }
            }
        } else {
            assert(cur == prev);
        }
    }
}

/// The line a hunk side starts at: the line after the `consumed` lines that
/// precede it, or, when the side is empty, the line it follows.
pub open spec fn start_line(consumed: nat, count: nat) -> nat {
    if count == 0 {
        consumed
    } else {
        consumed + 1
    }
}

/// One printed edit: its marker, its line, a newline.
pub open spec fn edit_text(e: (EditKind, Seq<char>)) -> Seq<char> {
    let marker = match e.0 {
        EditKind::Keep => ' ',
        EditKind::Remove => '-',
        EditKind::Insert => '+',
    };
    seq![marker] + e.1 + seq!['\n']
}

/// The printed edits of `es`, in order.
pub open spec fn body_text(es: Seq<(EditKind, Seq<char>)>) -> Seq<char>
    decreases es.len(),
{
    if es.len() == 0 {
        seq![]
    } else {
        body_text(es.drop_last()) + edit_text(es.last())
    }
}

/// A hunk header, `@@ -OLD_START,OLD_COUNT +NEW_START,NEW_COUNT @@`.
pub open spec fn header_text(old_start: nat, old_count: nat, new_start: nat, new_count: nat) -> Seq<
    char,
> {
    "@@ -"@ + decimal(old_start) + ","@ + decimal(old_count) + " +"@ + decimal(new_start) + ","@
        + decimal(new_count) + " @@\n"@
}

/// The printed hunk covering the edits `es[r.0..r.1]`.
pub open spec fn hunk_text(es: Seq<(EditKind, Seq<char>)>, r: (usize, usize)) -> Seq<char> {
    let inside = es.subrange(r.0 as int, r.1 as int);
    let before = es.take(r.0 as int);
    header_text(
        start_line(olds(before).len(), olds(inside).len()),
        olds(inside).len(),
        start_line(news(before).len(), news(inside).len()),
        news(inside).len(),
    ) + body_text(inside)
}

/// The printed hunks for the ranges `rs`, in order.
pub open spec fn hunks_text(es: Seq<(EditKind, Seq<char>)>, rs: Seq<(usize, usize)>) -> Seq<char>
    decreases rs.len(),
{
    if rs.len() == 0 {
        seq![]
    } else {
        hunks_text(es, rs.drop_last()) + hunk_text(es, rs.last())
    }
}

/// The unified diff of `before` against `after` under the path `path`: empty
/// when the two are equal, otherwise the two file headers and every hunk.
pub open spec fn unified_text(path: Seq<char>, before: Seq<char>, after: Seq<char>) -> Seq<char> {
    if before == after {
        seq![]
    } else {
        let es = edit_script(split_lines(before), split_lines(after));
        "--- "@ + path + "\n"@ + "+++ "@ + path + "\n"@ + hunks_text(es, hunk_ranges(es, es.len()))
    }
}

fn hunk_ranges_of(es: &Vec<Edit>) -> (rs: Vec<(usize, usize)>)
    ensures
        rs@ == hunk_ranges(edits_view(es@), es@.len()),
{
    let ghost ev = edits_view(es@);
    let n = es.len();
    let mut rs: Vec<(usize, usize)> = Vec::new();
    let mut i: usize = 0;
    while i < n
        invariant
            ev == edits_view(es@),
            n == es@.len(),
            i <= n,
            rs@ == hunk_ranges(ev, i as nat),
        decreases n - i,
    {
        if es[i].kind != EditKind::Keep {
            let start = if i >= CONTEXT {
                i - CONTEXT
            } else {
                0
            };
            let end = if n - i > CONTEXT {
                i + CONTEXT + 1
            } else {
                n
            };
            let k = rs.len();
            if k > 0 && start <= rs[k - 1].1 {
                let first = rs[k - 1].0;
                rs.set(k - 1, (first, end));
            } else {
                rs.push((start, end));
            }
        }
        i += 1;
    }
    rs
}

/// How many lines the edits `es[lo..hi]` read from the old text and write to
/// the new one.
fn count_sides(es: &Vec<Edit>, lo: usize, hi: usize) -> (counts: (usize, usize))
    requires
        lo <= hi <= es@.len(),
    ensures
        counts.0 == olds(edits_view(es@).subrange(lo as int, hi as int)).len(),
        counts.1 == news(edits_view(es@).subrange(lo as int, hi as int)).len(),
{
    let ghost ev = edits_view(es@);
    let mut old_count: usize = 0;
    let mut new_count: usize = 0;
    let mut k = lo;
    assert(ev.subrange(lo as int, lo as int) =~= Seq::<(EditKind, Seq<char>)>::empty());
    while k < hi
        invariant
            ev == edits_view(es@),
            lo <= k <= hi <= es@.len(),
            old_count == olds(ev.subrange(lo as int, k as int)).len(),
            new_count == news(ev.subrange(lo as int, k as int)).len(),
            old_count <= k - lo,
            new_count <= k - lo,
        decreases hi - k,
    {
        assert(ev.subrange(lo as int, k + 1).drop_last() =~= ev.subrange(lo as int, k as int));
        match es[k].kind {
            EditKind::Keep => {
                old_count += 1;
                new_count += 1;
            },
            EditKind::Remove => {
                old_count += 1;
            },
            EditKind::Insert => {
                new_count += 1;
            },
        }
        k += 1;
    }
    (old_count, new_count)
}

fn start_of(consumed: usize, count: usize) -> (line: usize)
    requires
        consumed < usize::MAX,
    ensures
        line == start_line(consumed as nat, count as nat),
{
    if count == 0 {
        consumed
    } else {
        consumed + 1
    }
}

fn render(out: &mut Vec<char>, es: &Vec<Edit>, range: (usize, usize))
    requires
        range.0 <= range.1 <= es@.len(),
        es@.len() < usize::MAX,
    ensures
        final(out)@ == old(out)@ + hunk_text(edits_view(es@), range),
{
    let ghost ev = edits_view(es@);
    let (start, end) = range;
    let (old_line, new_line) = count_sides(es, 0, start);
    let (old_count, new_count) = count_sides(es, start, end);
    assert(ev.subrange(0, start as int) =~= ev.take(start as int));
    proof {
        assert(olds(ev.subrange(0, start as int)).len() <= start) by {
            lemma_olds_news_len(ev.subrange(0, start as int));
        }
        assert(news(ev.subrange(0, start as int)).len() <= start) by {
            lemma_olds_news_len(ev.subrange(0, start as int));
        }
    }
    push_lit(out, "@@ -");
    push_decimal(out, start_of(old_line, old_count));
    push_lit(out, ",");
    push_decimal(out, old_count);
    push_lit(out, " +");
    push_decimal(out, start_of(new_line, new_count));
    push_lit(out, ",");
    push_decimal(out, new_count);
    push_lit(out, " @@\n");
    let ghost with_header = out@;
    let mut k = start;
    assert(ev.subrange(start as int, start as int) =~= Seq::<(EditKind, Seq<char>)>::empty());
    while k < end
        invariant
            ev == edits_view(es@),
            start <= k <= end <= es@.len(),
            out@ == with_header + body_text(ev.subrange(start as int, k as int)),
        decreases end - k,
    {
        assert(ev.subrange(start as int, k + 1).drop_last() =~= ev.subrange(start as int, k as int));
        let e = &es[k];
        match e.kind {
            EditKind::Keep => out.push(' '),
            EditKind::Remove => out.push('-'),
            EditKind::Insert => out.push('+'),
        }
        push_all(out, e.line.as_slice());
        out.push('\n');
        assert(out@ =~= with_header + body_text(ev.subrange(start as int, k + 1)));
        k += 1;
    }
    assert(out@ =~= old(out)@ + hunk_text(ev, range));
}

proof fn lemma_olds_news_len(es: Seq<(EditKind, Seq<char>)>)
    ensures
        olds(es).len() <= es.len(),
        news(es).len() <= es.len(),
    decreases es.len(),
{
    if es.len() > 0 {
        lemma_olds_news_len(es.drop_last());
    }
}

/// Renders the unified diff of `before` against `after`, empty when the two
/// are equal.
pub fn unified(path: &str, before: &str, after: &str) -> (diff: String)
    requires
        before@.len() + after@.len() < usize::MAX,
    ensures
        diff@ == unified_text(path@, before@, after@),
{
    let before_chars = chars_of(before);
    let after_chars = chars_of(after);
    if same_line(&before_chars, &after_chars) {
        return string_of(&[]);
    }
    let path_chars = chars_of(path);
    let old = lines(&before_chars);
    let new = lines(&after_chars);
    let es = edits(&old, &new);
    let ghost ev = edits_view(es@);
    let ranges = hunk_ranges_of(&es);
    proof {
        assert(ev.len() == es@.len());
        lemma_edit_script_valid(split_lines(before@), split_lines(after@));
        lemma_script_len(ev);
        lemma_split_lines_len(before@);
        lemma_split_lines_len(after@);
        lemma_hunk_ranges_bounds(ev, ev.len());
    }
    let mut out: Vec<char> = Vec::new();
    push_lit(&mut out, "--- ");
    push_all(&mut out, path_chars.as_slice());
    push_lit(&mut out, "\n");
    push_lit(&mut out, "+++ ");
    push_all(&mut out, path_chars.as_slice());
    push_lit(&mut out, "\n");
    let ghost with_files = out@;
    let mut j: usize = 0;
    assert(ranges@.take(0) =~= Seq::<(usize, usize)>::empty());
    while j < ranges.len()
        invariant
            ev == edits_view(es@),
            ranges@ == hunk_ranges(ev, ev.len()),
            es@.len() == ev.len(),
            es@.len() < usize::MAX,
            forall|i: int|
                0 <= i < ranges@.len() ==> #[trigger] ranges@[i].0 <= ranges@[i].1 <= ev.len(),
            j <= ranges@.len(),
            out@ == with_files + hunks_text(ev, ranges@.take(j as int)),
        decreases ranges@.len() - j,
    {
        assert(ranges@.take(j + 1).drop_last() =~= ranges@.take(j as int));
        assert(ranges@[j as int].0 <= ranges@[j as int].1 <= ev.len());
        render(&mut out, &es, ranges[j]);
        j += 1;
    }
    assert(ranges@.take(ranges@.len() as int) =~= ranges@);
    string_of(out.as_slice())
}


/// The diff of two texts is empty exactly when the texts are equal.
pub proof fn lemma_unified_empty_iff_equal(path: Seq<char>, before: Seq<char>, after: Seq<char>)
    ensures
        unified_text(path, before, after).len() == 0 <==> before == after,
{
    if before != after {
        let es = edit_script(split_lines(before), split_lines(after));
        let t = "--- "@ + path + "\n"@ + "+++ "@ + path + "\n"@ + hunks_text(es, hunk_ranges(es, es.len()));
        assert(("--- "@ + path).len() >= "--- "@.len());
        assert(t.len() >= ("--- "@ + path).len());
        reveal_strlit("--- ");
    }
}


// ---------------------------------------------------------------------------
// Applying the hunks
// ---------------------------------------------------------------------------

/// What the hunk over the edits `es[r.0..r.1]` tells a reader: where its old
/// side starts among the old lines, counting from zero (its header's
/// `OLD_START` counts from one), the old lines it covers (its ` ` and `-`
/// lines, `OLD_COUNT` of them), and the lines that replace them (its ` ` and
/// `+` lines, `NEW_COUNT` of them).
pub open spec fn hunk_patch(es: Seq<(EditKind, Seq<char>)>, r: (usize, usize)) -> (nat, Seq<Seq<char>>, Seq<Seq<char>>) {
    (
        olds(es.take(r.0 as int)).len(),
        olds(es.subrange(r.0 as int, r.1 as int)),
        news(es.subrange(r.0 as int, r.1 as int)),
    )
}

/// The hunks over the ranges `rs`, in order.
pub open spec fn patches(es: Seq<(EditKind, Seq<char>)>, rs: Seq<(usize, usize)>) -> Seq<(nat, Seq<Seq<char>>, Seq<Seq<char>>)> {
    rs.map_values(|r: (usize, usize)| hunk_patch(es, r))
}

/// `lines` from line `pos` on, with the hunks `hs` applied in order: the
/// lines up to each hunk's start copied, its old side replaced by its new.
pub open spec fn apply_from(lines: Seq<Seq<char>>, hs: Seq<(nat, Seq<Seq<char>>, Seq<Seq<char>>)>, pos: nat) -> Seq<Seq<char>>
    decreases hs.len(),
{
    if hs.len() == 0 {
        lines.skip(pos as int)
    } else {
        lines.subrange(pos as int, hs[0].0 as int) + hs[0].2 + apply_from(
            lines,
            hs.drop_first(),
            (hs[0].0 + hs[0].1.len()) as nat,
        )
    }
}

/// The ranges lie within `n` edits, each ending no later than the next one
/// starts.
pub open spec fn ranges_ordered(rs: Seq<(usize, usize)>, n: nat) -> bool {
    &&& forall|j: int| 0 <= j < rs.len() ==> #[trigger] rs[j].0 <= rs[j].1 <= n
    &&& forall|j: int, k: int| 0 <= j < k < rs.len() ==> #[trigger] rs[j].1 <= #[trigger] rs[k].0
}

/// The edit at `k` lies in one of the ranges.
pub open spec fn in_some_range(rs: Seq<(usize, usize)>, k: int) -> bool {
    exists|j: int| 0 <= j < rs.len() && #[trigger] rs[j].0 <= k < rs[j].1
}

proof fn lemma_hunk_ranges_cover(es: Seq<(EditKind, Seq<char>)>, i: nat)
    requires
        i <= es.len(),
        es.len() <= usize::MAX,
    ensures
        ranges_ordered(hunk_ranges(es, i), es.len()),
        forall|j: int| 0 <= j < hunk_ranges(es, i).len() ==> #[trigger] hunk_ranges(es, i)[j].0 < i,
        forall|k: int| 0 <= k < i && is_change(#[trigger] es[k]) ==> in_some_range(hunk_ranges(es, i), k),
    decreases i,
{
    if i > 0 {
        lemma_hunk_ranges_cover(es, (i - 1) as nat);
        lemma_hunk_ranges_bounds(es, (i - 1) as nat);
        let prev = hunk_ranges(es, (i - 1) as nat);
        let cur = hunk_ranges(es, i);
        let ch = i - 1;
        if is_change(es[ch]) {
            let start: usize = if ch >= CONTEXT {
                (ch - CONTEXT) as usize
            } else {
                0
            };
            let end: usize = if ch + CONTEXT + 1 <= es.len() {
                (ch + CONTEXT + 1) as usize
            } else {
                es.len() as usize
            };
            if prev.len() > 0 && start <= prev.last().1 {
                let last = prev.len() - 1;
                assert(cur == prev.update(last, (prev[last].0, end)));
                assert(prev[last].0 <= prev[last].1 <= end);
                assert forall|j: int| 0 <= j < cur.len() implies #[trigger] cur[j].0 <= cur[j].1 <= es.len() by {
                    if j < last {
                        assert(cur[j] == prev[j]);
                    }
                }
                assert forall|j: int, k: int| 0 <= j < k < cur.len() implies #[trigger] cur[j].1 <= #[trigger] cur[k].0 by {
                    assert(cur[j] == prev[j]);
                    assert(cur[k].0 == prev[k].0);
                }
                assert forall|j: int| 0 <= j < cur.len() implies #[trigger] cur[j].0 < i by {
                    assert(cur[j].0 == prev[j].0);
                }
                assert forall|k: int| 0 <= k < i && is_change(#[trigger] es[k]) implies in_some_range(cur, k) by {
                    if k == ch {
                        assert(cur[last].0 <= k < cur[last].1);
                    } else {
                        let j = choose|j: int| 0 <= j < prev.len() && #[trigger] prev[j].0 <= k < prev[j].1;
                        assert(cur[j].0 <= k < cur[j].1);
                    }
                }
            } else {
                assert(cur == prev.push((start, end)));
                assert forall|j: int| 0 <= j < cur.len() implies #[trigger] cur[j].0 <= cur[j].1 <= es.len() by {
                    if j < prev.len() {
                        assert(cur[j] == prev[j]);
                    }
                }
                assert forall|j: int, k: int| 0 <= j < k < cur.len() implies #[trigger] cur[j].1 <= #[trigger] cur[k].0 by {
                    assert(cur[j] == prev[j]);
                    if k < prev.len() {
                        assert(cur[k] == prev[k]);
                    } else {
                        let last = prev.len() - 1;
                        if j < last {
                            assert(prev[j].1 <= prev[last].0);
                        }
                        assert(prev[last].0 <= prev[last].1);
                    }
                }
                assert forall|j: int| 0 <= j < cur.len() implies #[trigger] cur[j].0 < i by {
                    if j < prev.len() {
                        assert(cur[j] == prev[j]);
                    }
                }
                assert forall|k: int| 0 <= k < i && is_change(#[trigger] es[k]) implies in_some_range(cur, k) by {
                    if k == ch {
                        assert(cur[prev.len() as int].0 <= k < cur[prev.len() as int].1);
                    } else {
                        let j = choose|j: int| 0 <= j < prev.len() && #[trigger] prev[j].0 <= k < prev[j].1;
                        assert(cur[j] == prev[j]);
                    }
                }
            }
        } else {
            assert(cur == prev);
        }
    }
}

proof fn lemma_keeps_read_as_written(es: Seq<(EditKind, Seq<char>)>)
    requires
        forall|k: int| 0 <= k < es.len() ==> !is_change(#[trigger] es[k]),
    ensures
        olds(es) == news(es),
    decreases es.len(),
{
    if es.len() > 0 {
        assert forall|k: int| 0 <= k < es.drop_last().len() implies !is_change(#[trigger] es.drop_last()[k]) by {
            assert(es.drop_last()[k] == es[k]);
        }
        lemma_keeps_read_as_written(es.drop_last());
        assert(!is_change(es[es.len() - 1]));
    }
}

proof fn lemma_old_side_found(es: Seq<(EditKind, Seq<char>)>, r: (usize, usize))
    requires
        r.0 <= r.1 <= es.len(),
    ensures
        olds(es).subrange(hunk_patch(es, r).0 as int, (hunk_patch(es, r).0 + hunk_patch(es, r).1.len()) as int)
            == hunk_patch(es, r).1,
{
    let a = r.0 as int;
    let b = r.1 as int;
    lemma_sides_append(es.take(a), es.subrange(a, b));
    lemma_sides_append(es.take(a) + es.subrange(a, b), es.skip(b));
    assert(es.take(a) + es.subrange(a, b) + es.skip(b) =~= es);
}

proof fn lemma_apply_from(es: Seq<(EditKind, Seq<char>)>, rs: Seq<(usize, usize)>, p: nat)
    requires
        p <= es.len(),
        ranges_ordered(rs, es.len()),
        rs.len() > 0 ==> p <= rs[0].0,
        forall|k: int| p <= k < es.len() && is_change(#[trigger] es[k]) ==> in_some_range(rs, k),
    ensures
        apply_from(olds(es), patches(es, rs), olds(es.take(p as int)).len()) == news(es.skip(p as int)),
    decreases rs.len(),
{
    let pi = p as int;
    lemma_sides_append(es.take(pi), es.skip(pi));
    assert(es.take(pi) + es.skip(pi) =~= es);
    if rs.len() == 0 {
        assert forall|k: int| 0 <= k < es.skip(pi).len() implies !is_change(#[trigger] es.skip(pi)[k]) by {
            assert(es.skip(pi)[k] == es[pi + k]);
            if is_change(es[pi + k]) {
                let j = choose|j: int| 0 <= j < rs.len() && #[trigger] rs[j].0 <= pi + k < rs[j].1;
            }
        }
        lemma_keeps_read_as_written(es.skip(pi));
        assert(olds(es).skip(olds(es.take(pi)).len() as int) =~= olds(es.skip(pi)));
    } else {
        let a = rs[0].0 as int;
        let b = rs[0].1 as int;
        let hs = patches(es, rs);
        let gap = es.subrange(pi, a);
        let inside = es.subrange(a, b);
        assert forall|k: int| 0 <= k < gap.len() implies !is_change(#[trigger] gap[k]) by {
            assert(gap[k] == es[pi + k]);
            if is_change(es[pi + k]) {
                let j = choose|j: int| 0 <= j < rs.len() && #[trigger] rs[j].0 <= pi + k < rs[j].1;
                if j > 0 {
                    assert(rs[0].1 <= rs[j].0);
                }
            }
        }
        lemma_keeps_read_as_written(gap);
        lemma_sides_append(es.take(pi), gap);
        assert(es.take(pi) + gap =~= es.take(a));
        lemma_sides_append(es.take(a), inside);
        assert(es.take(a) + inside =~= es.take(b));
        lemma_old_side_found(es, rs[0]);
        lemma_sides_append(es.take(a), es.skip(a));
        assert(es.take(a) + es.skip(a) =~= es);
        assert(olds(es).subrange(olds(es.take(pi)).len() as int, olds(es.take(a)).len() as int) =~= olds(gap)) by {
            lemma_sides_append(es.take(pi) + gap, es.skip(a));
            assert(es.take(pi) + gap + es.skip(a) =~= es);
        }
        assert(hs[0] == hunk_patch(es, rs[0]));
        let rest = rs.drop_first();
        assert(patches(es, rest) =~= hs.drop_first());
        assert forall|j: int| 0 <= j < rest.len() implies #[trigger] rest[j].0 <= rest[j].1 <= es.len() by {
            assert(rest[j] == rs[j + 1]);
        }
        assert forall|j: int, k: int| 0 <= j < k < rest.len() implies #[trigger] rest[j].1 <= #[trigger] rest[k].0 by {
            assert(rest[j] == rs[j + 1] && rest[k] == rs[k + 1]);
        }
        if rest.len() > 0 {
            assert(rest[0] == rs[1]);
        }
        assert forall|k: int| b <= k < es.len() && is_change(#[trigger] es[k]) implies in_some_range(rest, k) by {
            let j = choose|j: int| 0 <= j < rs.len() && #[trigger] rs[j].0 <= k < rs[j].1;
            assert(j != 0);
            assert(rest[j - 1] == rs[j]);
        }
        lemma_apply_from(es, rest, b as nat);
        lemma_sides_append(gap, inside);
        lemma_sides_append(gap + inside, es.skip(b));
        assert(gap + inside + es.skip(b) =~= es.skip(pi));
    }
}

/// The diff's hunks rebuild the new text: applied in order to the lines of
/// `before`, each replacing its old side by its new side, they give the
/// lines of `after`; and each hunk's old side stands in `before` at the line
/// its header names. The texts have no more lines than a `usize` counts.
pub proof fn lemma_hunks_rebuild_after(before: Seq<char>, after: Seq<char>)
    requires
        split_lines(before).len() + split_lines(after).len() <= usize::MAX,
    ensures
        ({
            let es = edit_script(split_lines(before), split_lines(after));
            let hs = patches(es, hunk_ranges(es, es.len()));
            &&& apply_from(split_lines(before), hs, 0) == split_lines(after)
            &&& forall|j: int| 0 <= j < hs.len() ==> split_lines(before).subrange(
                #[trigger] hs[j].0 as int,
                (hs[j].0 + hs[j].1.len()) as int,
            ) == hs[j].1
        }),
{
    let old = split_lines(before);
    let new = split_lines(after);
    let es = edit_script(old, new);
    lemma_edit_script_valid(old, new);
    lemma_script_len(es);
    let rs = hunk_ranges(es, es.len());
    lemma_hunk_ranges_cover(es, es.len());
    assert(es.take(0) =~= Seq::<(EditKind, Seq<char>)>::empty());
    assert(es.skip(0) =~= es);
    lemma_apply_from(es, rs, 0);
    let hs = patches(es, rs);
    assert forall|j: int| 0 <= j < hs.len() implies old.subrange(
        #[trigger] hs[j].0 as int,
        (hs[j].0 + hs[j].1.len()) as int,
    ) == hs[j].1 by {
        assert(hs[j] == hunk_patch(es, rs[j]));
        lemma_old_side_found(es, rs[j]);
    }
}


// ---------------------------------------------------------------------------
// The script keeps as many lines as any script can
// ---------------------------------------------------------------------------

/// How many lines an edit script keeps.
pub open spec fn keeps(es: Seq<(EditKind, Seq<char>)>) -> nat
    decreases es.len(),
{
    if es.len() == 0 {
        0
    } else {
        keeps(es.drop_last()) + if es.last().0 == EditKind::Keep {
            1nat
        } else {
            0nat
        }
    }
}

proof fn lemma_keeps_append(x: Seq<(EditKind, Seq<char>)>, y: Seq<(EditKind, Seq<char>)>)
    ensures
        keeps(x + y) == keeps(x) + keeps(y),
    decreases y.len(),
{
    if y.len() == 0 {
        assert(x + y =~= x);
    } else {
        lemma_keeps_append(x, y.drop_last());
        assert((x + y).drop_last() =~= x + y.drop_last());
        assert((x + y).last() == y.last());
    }
}

proof fn lemma_keeps_tagged(k: EditKind, ls: Seq<Seq<char>>)
    ensures
        keeps(tagged(k, ls)) == if k == EditKind::Keep {
            ls.len()
        } else {
            0
        },
    decreases ls.len(),
{
    if ls.len() > 0 {
        lemma_keeps_tagged(k, ls.drop_last());
        assert(tagged(k, ls).drop_last() =~= tagged(k, ls.drop_last()));
    } else {
        assert(tagged(k, ls) =~= Seq::<(EditKind, Seq<char>)>::empty());
    }
}

/// One line more on either side raises the longest common subsequence by at
/// most one, and never lowers it.
proof fn lemma_lcs_steps(a: Seq<Seq<char>>, b: Seq<Seq<char>>, r: nat, c: nat)
    requires
        r <= a.len(),
        c <= b.len(),
    ensures
        lcs(a, b, r + 1, c) <= lcs(a, b, r, c) <= lcs(a, b, r + 1, c) + 1,
        lcs(a, b, r, c + 1) <= lcs(a, b, r, c) <= lcs(a, b, r, c + 1) + 1,
    decreases a.len() + b.len() - r - c,
{
    if r < a.len() && c < b.len() {
        lemma_lcs_steps(a, b, r + 1, c);
        lemma_lcs_steps(a, b, r, c + 1);
        lemma_lcs_steps(a, b, r + 1, c + 1);
    }
}

/// No edit script from `a.skip(r)` to `b.skip(c)` keeps more lines than
/// their longest common subsequence has.
proof fn lemma_keeps_bounded(a: Seq<Seq<char>>, b: Seq<Seq<char>>, r: nat, c: nat, es: Seq<(EditKind, Seq<char>)>)
    requires
        r <= a.len(),
        c <= b.len(),
        olds(es) == a.skip(r as int),
        news(es) == b.skip(c as int),
    ensures
        keeps(es) <= lcs(a, b, r, c),
    decreases es.len(),
{
    if es.len() > 0 {
        let e = es[0];
        let rest = es.drop_first();
        assert(seq![e] + rest =~= es);
        lemma_sides_append(seq![e], rest);
        lemma_keeps_append(seq![e], rest);
        assert(seq![e].drop_last() =~= Seq::<(EditKind, Seq<char>)>::empty());
        reveal_with_fuel(olds, 2);
        reveal_with_fuel(news, 2);
        reveal_with_fuel(keeps, 2);
        lemma_lcs_steps(a, b, r, c);
        if e.0 != EditKind::Insert {
            assert(olds(seq![e]) =~= seq![e.1]);
            assert(a.skip(r as int)[0] == e.1);
            assert(a.skip(r + 1int) =~= a.skip(r as int).drop_first());
            assert(olds(rest) =~= a.skip(r + 1int));
        } else {
            assert(olds(seq![e]) =~= Seq::<Seq<char>>::empty());
            assert(olds(rest) =~= a.skip(r as int));
        }
        if e.0 != EditKind::Remove {
            assert(news(seq![e]) =~= seq![e.1]);
            assert(b.skip(c as int)[0] == e.1);
            assert(b.skip(c + 1int) =~= b.skip(c as int).drop_first());
            assert(news(rest) =~= b.skip(c + 1int));
        } else {
            assert(news(seq![e]) =~= Seq::<Seq<char>>::empty());
            assert(news(rest) =~= b.skip(c as int));
        }
        if e.0 == EditKind::Keep {
            lemma_keeps_bounded(a, b, r + 1, c + 1, rest);
            assert(a[r as int] == b[c as int]);
        } else if e.0 == EditKind::Remove {
            lemma_keeps_bounded(a, b, r + 1, c, rest);
        } else {
            lemma_keeps_bounded(a, b, r, c + 1, rest);
        }
    }
}

/// The script along the longest common subsequence keeps exactly its lines.
proof fn lemma_lcs_script_keeps(a: Seq<Seq<char>>, b: Seq<Seq<char>>, r: nat, c: nat)
    requires
        r <= a.len(),
        c <= b.len(),
    ensures
        keeps(lcs_script(a, b, r, c)) == lcs(a, b, r, c),
    decreases a.len() + b.len() - r - c,
{
    if r >= a.len() {
        lemma_keeps_tagged(EditKind::Insert, b.skip(c as int));
    } else if c >= b.len() {
        lemma_keeps_tagged(EditKind::Remove, a.skip(r as int));
    } else {
        let first = if a[r as int] == b[c as int] {
            seq![(EditKind::Keep, a[r as int])]
        } else if lcs(a, b, r + 1, c) >= lcs(a, b, r, c + 1) {
            seq![(EditKind::Remove, a[r as int])]
        } else {
            seq![(EditKind::Insert, b[c as int])]
        };
        assert(first.drop_last() =~= Seq::<(EditKind, Seq<char>)>::empty());
        reveal_with_fuel(keeps, 2);
        if a[r as int] == b[c as int] {
            lemma_lcs_script_keeps(a, b, r + 1, c + 1);
            lemma_keeps_append(first, lcs_script(a, b, r + 1, c + 1));
        } else if lcs(a, b, r + 1, c) >= lcs(a, b, r, c + 1) {
            lemma_lcs_script_keeps(a, b, r + 1, c);
            lemma_keeps_append(first, lcs_script(a, b, r + 1, c));
        } else {
            lemma_lcs_script_keeps(a, b, r, c + 1);
            lemma_keeps_append(first, lcs_script(a, b, r, c + 1));
        }
    }
}


proof fn lemma_lcs_shift(a: Seq<Seq<char>>, b: Seq<Seq<char>>, r: nat, c: nat, i: nat, j: nat)
    requires
        r + i <= a.len(),
        c + j <= b.len(),
    ensures
        lcs(a, b, r + i, c + j) == lcs(a.skip(r as int), b.skip(c as int), i, j),
    decreases a.len() + b.len() - r - c - i - j,
{
    let x = a.skip(r as int);
    let y = b.skip(c as int);
    if r + i < a.len() && c + j < b.len() {
        assert(x[i as int] == a[(r + i) as int]);
        assert(y[j as int] == b[(c + j) as int]);
        lemma_lcs_shift(a, b, r, c, i + 1, j + 1);
        lemma_lcs_shift(a, b, r, c, i + 1, j);
        lemma_lcs_shift(a, b, r, c, i, j + 1);
        assert(r + (i + 1) == r + i + 1);
        assert(c + (j + 1) == c + j + 1);
    }
}

proof fn lemma_lcs_prefix(a: Seq<Seq<char>>, b: Seq<Seq<char>>, p: nat, i: nat)
    requires
        i <= p,
        p <= a.len(),
        p <= b.len(),
        a.take(p as int) == b.take(p as int),
    ensures
        lcs(a, b, i, i) == (p - i) + lcs(a, b, p, p),
    decreases p - i,
{
    if i < p {
        assert(a[i as int] == a.take(p as int)[i as int]);
        assert(b[i as int] == b.take(p as int)[i as int]);
        lemma_lcs_prefix(a, b, p, i + 1);
    }
}

proof fn lemma_lcs_last_row(a: Seq<Seq<char>>, b: Seq<Seq<char>>, x: Seq<char>, r: nat)
    requires
        r <= a.len(),
    ensures
        lcs(a.push(x), b.push(x), r, b.len()) == 1,
    decreases a.len() - r,
{
    let aa = a.push(x);
    let bb = b.push(x);
    assert(bb[b.len() as int] == x);
    assert(lcs(aa, bb, r + 1, b.len() + 1) == 0);
    assert(lcs(aa, bb, r, b.len() + 1) == 0);
    if aa[r as int] != x {
        lemma_lcs_last_row(a, b, x, r + 1);
    }
}

proof fn lemma_lcs_last_col(a: Seq<Seq<char>>, b: Seq<Seq<char>>, x: Seq<char>, c: nat)
    requires
        c <= b.len(),
    ensures
        lcs(a.push(x), b.push(x), a.len(), c) == 1,
    decreases b.len() - c,
{
    let aa = a.push(x);
    let bb = b.push(x);
    assert(aa[a.len() as int] == x);
    assert(lcs(aa, bb, a.len() + 1, c + 1) == 0);
    assert(lcs(aa, bb, a.len() + 1, c) == 0);
    if bb[c as int] != x {
        lemma_lcs_last_col(a, b, x, c + 1);
    }
}

/// A line both sides end with adds one to their longest common subsequence.
proof fn lemma_lcs_common_last(a: Seq<Seq<char>>, b: Seq<Seq<char>>, x: Seq<char>, r: nat, c: nat)
    requires
        r <= a.len(),
        c <= b.len(),
    ensures
        lcs(a.push(x), b.push(x), r, c) == 1 + lcs(a, b, r, c),
    decreases a.len() + b.len() - r - c,
{
    if r == a.len() {
        lemma_lcs_last_col(a, b, x, c);
    } else if c == b.len() {
        lemma_lcs_last_row(a, b, x, r);
    } else {
        assert(a.push(x)[r as int] == a[r as int]);
        assert(b.push(x)[c as int] == b[c as int]);
        lemma_lcs_common_last(a, b, x, r + 1, c + 1);
        lemma_lcs_common_last(a, b, x, r + 1, c);
        lemma_lcs_common_last(a, b, x, r, c + 1);
    }
}

proof fn lemma_lcs_common_suffix(a: Seq<Seq<char>>, b: Seq<Seq<char>>, t: Seq<Seq<char>>)
    ensures
        lcs(a + t, b + t, 0, 0) == t.len() + lcs(a, b, 0, 0),
    decreases t.len(),
{
    if t.len() == 0 {
        assert(a + t =~= a);
        assert(b + t =~= b);
    } else {
        let u = t.drop_last();
        lemma_lcs_common_suffix(a, b, u);
        assert(a + t =~= (a + u).push(t.last()));
        assert(b + t =~= (b + u).push(t.last()));
        lemma_lcs_common_last(a + u, b + u, t.last(), 0, 0);
    }
}

/// The old and new lines the diff compares line by line, once their common
/// leading and trailing lines are set aside.
pub open spec fn middles(old: Seq<Seq<char>>, new: Seq<Seq<char>>) -> (Seq<Seq<char>>, Seq<Seq<char>>) {
    let p = common_prefix(old, new);
    let s = common_suffix(old.skip(p as int), new.skip(p as int));
    (old.subrange(p as int, old.len() - s), new.subrange(p as int, new.len() - s))
}

/// Under the table's cap the diff keeps as many lines as an edit script can:
/// no script that reads the old lines and writes the new ones keeps more of
/// them, so none removes or inserts fewer.
pub proof fn lemma_edit_script_keeps_most(old: Seq<Seq<char>>, new: Seq<Seq<char>>, es: Seq<(EditKind, Seq<char>)>)
    requires
        olds(es) == old,
        news(es) == new,
        !too_large(middles(old, new).0, middles(old, new).1),
    ensures
        keeps(es) <= keeps(edit_script(old, new)),
{
    assert(old.skip(0) =~= old);
    assert(new.skip(0) =~= new);
    lemma_keeps_bounded(old, new, 0, 0, es);
    let p = common_prefix(old, new);
    lemma_common_prefix(old, new);
    let ao = old.skip(p as int);
    let an = new.skip(p as int);
    let s = common_suffix(ao, an);
    lemma_common_suffix(ao, an);
    let mo = old.subrange(p as int, old.len() - s);
    let mn = new.subrange(p as int, new.len() - s);
    let head = tagged(EditKind::Keep, old.take(p as int));
    let tail = tagged(EditKind::Keep, old.skip(old.len() - s));
    let mid = middle_script(mo, mn);
    lemma_keeps_tagged(EditKind::Keep, old.take(p as int));
    lemma_keeps_tagged(EditKind::Keep, old.skip(old.len() - s));
    lemma_keeps_append(head, mid);
    lemma_keeps_append(head + mid, tail);
    if mo.len() == 0 || mn.len() == 0 {
        lemma_keeps_tagged(EditKind::Remove, mo);
        lemma_keeps_tagged(EditKind::Insert, mn);
        lemma_keeps_append(tagged(EditKind::Remove, mo), tagged(EditKind::Insert, mn));
    } else {
        lemma_lcs_script_keeps(mo, mn, 0, 0);
    }
    lemma_lcs_prefix(old, new, p, 0);
    lemma_lcs_shift(old, new, p, p, 0, 0);
    let tl = ao.skip(ao.len() - s);
    assert(ao =~= mo + tl);
    assert(an =~= mn + tl);
    lemma_lcs_common_suffix(mo, mn, tl);
}


// ---------------------------------------------------------------------------
// Hunk headers locate both sides
// ---------------------------------------------------------------------------

proof fn lemma_new_side_found(es: Seq<(EditKind, Seq<char>)>, r: (usize, usize))
    requires
        r.0 <= r.1 <= es.len(),
    ensures
        news(es).subrange(
            news(es.take(r.0 as int)).len() as int,
            (news(es.take(r.0 as int)).len() + news(es.subrange(r.0 as int, r.1 as int)).len()) as int,
        ) == news(es.subrange(r.0 as int, r.1 as int)),
{
    let a = r.0 as int;
    let b = r.1 as int;
    lemma_sides_append(es.take(a), es.subrange(a, b));
    lemma_sides_append(es.take(a) + es.subrange(a, b), es.skip(b));
    assert(es.take(a) + es.subrange(a, b) + es.skip(b) =~= es);
}

/// How many old and how many new lines come before the hunk over
/// `es[r.0..r.1]`.
pub open spec fn lines_before(es: Seq<(EditKind, Seq<char>)>, r: (usize, usize)) -> (nat, nat) {
    (olds(es.take(r.0 as int)).len(), news(es.take(r.0 as int)).len())
}

/// Each printed hunk's header locates both of its sides: `OLD_START` and
/// `NEW_START` (less one when the side is not empty) count the lines of
/// `before` and of `after` that come before the hunk, for from there
/// `OLD_COUNT` lines of `before` are the hunk's ` ` and `-` lines and
/// `NEW_COUNT` lines of `after` are its ` ` and `+` lines. The texts have
/// no more lines than a `usize` counts.
pub proof fn lemma_hunk_headers_locate_both_sides(before: Seq<char>, after: Seq<char>)
    requires
        split_lines(before).len() + split_lines(after).len() <= usize::MAX,
    ensures
        ({
            let es = edit_script(split_lines(before), split_lines(after));
            let rs = hunk_ranges(es, es.len());
            forall|j: int| 0 <= j < rs.len() ==> {
                let inside = es.subrange(#[trigger] rs[j].0 as int, rs[j].1 as int);
                let (old_at, new_at) = lines_before(es, rs[j]);
                let old_side = olds(inside);
                let new_side = news(inside);
                &&& split_lines(before).subrange(old_at as int, (old_at + old_side.len()) as int) == old_side
                &&& split_lines(after).subrange(new_at as int, (new_at + new_side.len()) as int) == new_side
                &&& hunk_text(es, rs[j]) == header_text(
                    start_line(old_at, old_side.len()),
                    old_side.len(),
                    start_line(new_at, new_side.len()),
                    new_side.len(),
                ) + body_text(inside)
            }
        }),
{
    let old = split_lines(before);
    let new = split_lines(after);
    let es = edit_script(old, new);
    lemma_edit_script_valid(old, new);
    lemma_script_len(es);
    let rs = hunk_ranges(es, es.len());
    lemma_hunk_ranges_bounds(es, es.len());
    assert forall|j: int| 0 <= j < rs.len() implies {
        let inside = es.subrange(#[trigger] rs[j].0 as int, rs[j].1 as int);
        let (old_at, new_at) = lines_before(es, rs[j]);
        let old_side = olds(inside);
        let new_side = news(inside);
        &&& old.subrange(old_at as int, (old_at + old_side.len()) as int) == old_side
        &&& new.subrange(new_at as int, (new_at + new_side.len()) as int) == new_side
        &&& hunk_text(es, rs[j]) == header_text(
            start_line(old_at, old_side.len()),
            old_side.len(),
            start_line(new_at, new_side.len()),
            new_side.len(),
        ) + body_text(inside)
    } by {
        let r = rs[j];
        assert(r.0 <= r.1 <= es.len());
        lemma_old_side_found(es, r);
        lemma_new_side_found(es, r);
    }
}

} // verus!
