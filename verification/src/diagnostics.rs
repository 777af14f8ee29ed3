//! Turning byte offsets carried by an error into a line and column.

use vstd::prelude::*;

use crate::text::{char_floor, char_width, chars_of, count_newlines, last_line_start, lemma_last_line_start_bound};

verus! {

/// A one based position in a source file, the column counted in characters.
#[derive(Debug, Clone, Copy, PartialEq, Eq)]
pub struct Position {
    pub line: usize,
    pub column: usize,
}

/// The position of the character a byte offset falls on.
pub open spec fn position_of(s: Seq<char>, offset: nat) -> Position
    recommends
        s.len() < usize::MAX,
{
    let prefix = s.take(char_floor(s, offset) as int);
    Position {
        line: (1 + count_newlines(prefix)) as usize,
        column: (prefix.len() - last_line_start(prefix) + 1) as usize,
    }
}


/// Maps a byte offset onto its position. An offset past the end of `source`
/// clamps to the position just after the last character, and an offset inside
/// a character clamps to that character's start.
pub fn position(source: &str, offset: u32) -> (at: Position)
    requires
        source@.len() < usize::MAX,
    ensures
        at == position_of(source@, offset as nat),
{
    let chars = chars_of(source);
    let n = chars.len();
    // Find the character index the offset falls on.
    let mut k: usize = 0;
    let mut budget: usize = offset as usize;
    assert(source@.skip(0) =~= source@);
    while k < n && char_width(chars[k]) <= budget
        invariant
            chars@ == source@,
            n == chars@.len(),
            k <= n,
            char_floor(source@, offset as nat) == k + char_floor(
                source@.skip(k as int),
                budget as nat,
            ),
        decreases n - k,
    {
        let w = char_width(chars[k]);
        proof {
            assert(source@.skip(k as int).drop_first() =~= source@.skip(k + 1));
            assert(source@.skip(k as int)[0] == chars@[k as int]);
        }
        budget = budget - w;
        k = k + 1;
    }
    proof {
        if k < n {
            assert(source@.skip(k as int)[0] == chars@[k as int]);
        }
        assert(char_floor(source@.skip(k as int), budget as nat) == 0);
    }
    // Count lines and find where the last one starts.
    let mut line: usize = 1;
    let mut line_start: usize = 0;
    let mut i: usize = 0;
    while i < k
        invariant
            chars@ == source@,
            k <= n == chars@.len(),
            i <= k,
            line == 1 + count_newlines(chars@.take(i as int)),
            n < usize::MAX,
            line_start == last_line_start(chars@.take(i as int)),
            count_newlines(chars@.take(i as int)) <= i,
        decreases k - i,
    {
        assert(chars@.take(i + 1).drop_last() =~= chars@.take(i as int));
        if chars[i] == '\n' {
            line = line + 1;
            line_start = i + 1;
        }
        i = i + 1;
    }
    proof {
        lemma_last_line_start_bound(chars@.take(k as int));
    }
    Position { line, column: k - line_start + 1 }
}

} // verus!
