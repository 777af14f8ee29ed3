//! Character-level helpers shared by every module.
//!
//! Text inside the library is handled as sequences of `char`, the view Verus
//! gives a `str`. Byte offsets, which the lexer and the diagnostics speak in,
//! are derived from the UTF-8 width of each character.

use vstd::prelude::*;

verus! {

/// The number of bytes the UTF-8 encoding of `c` takes.
pub open spec fn utf8_width(c: char) -> nat {
    let v = c as u32;
    if v <= 0x7F {
        1
    } else if v <= 0x7FF {
        2
    } else if v <= 0xFFFF {
        3
    } else {
        4
    }
}

/// The number of bytes the UTF-8 encoding of `s` takes.
pub open spec fn byte_len(s: Seq<char>) -> nat
    decreases s.len(),
{
    if s.len() == 0 {
        0
    } else {
        byte_len(s.drop_last()) + utf8_width(s.last())
    }
}

/// The UTF-8 width of a character.
pub fn char_width(c: char) -> (w: usize)
    ensures
        w == utf8_width(c),
        1 <= w <= 4,
{
    let v = c as u32;
    if v <= 0x7F {
        1
    } else if v <= 0x7FF {
        2
    } else if v <= 0xFFFF {
        3
    } else {
        4
    }
}

/// The characters of `s`, in order.
pub fn chars_of(s: &str) -> (v: Vec<char>)
    ensures
        v@ == s@,
{
    let mut v: Vec<char> = Vec::new();
    for c in it: s.chars()
        invariant
            v@ == it.seq().take(it.index()),
    {
        v.push(c);
    }
    v
}


/// The string made of the characters of `v`.
///
/// Trusted: wraps `FromIterator<&char> for String` (std), which collects the
/// characters in order; the contract claims exactly that.
#[verifier::external_body]
pub(crate) fn string_of(v: &[char]) -> (s: String)
    ensures
        s@ == v@,
{
    v.iter().collect()
}

/// Whether `t` spells exactly the literal `lit`.
pub fn eq_lit(t: &[char], lit: &str) -> (r: bool)
    ensures
        r == (t@ == lit@),
{
    let n = lit.unicode_len();
    if t.len() != n {
        return false;
    }
    let mut i: usize = 0;
    while i < n
        invariant
            n == lit@.len(),
            t@.len() == n,
            i <= n,
            forall|j: int| 0 <= j < i ==> t@[j] == lit@[j],
        decreases n - i,
    {
        if t[i] != lit.get_char(i) {
            return false;
        }
        i += 1;
    }
    assert(t@ =~= lit@);
    true
}

/// Whether `t` begins with the literal `lit`.
pub fn starts_with_lit(t: &[char], lit: &str) -> (r: bool)
    ensures
        r == (lit@.len() <= t@.len() && t@.subrange(0, lit@.len() as int) == lit@),
{
    let n = lit.unicode_len();
    if t.len() < n {
        return false;
    }
    let mut i: usize = 0;
    while i < n
        invariant
            n == lit@.len(),
            n <= t@.len(),
            i <= n,
            forall|j: int| 0 <= j < i ==> t@[j] == lit@[j],
        decreases n - i,
    {
        if t[i] != lit.get_char(i) {
            assert(t@.subrange(0, n as int)[i as int] != lit@[i as int]);
            return false;
        }
        i += 1;
    }
    assert(t@.subrange(0, n as int) =~= lit@);
    true
}

/// Appends the characters of `s` to `out`.
pub fn push_all(out: &mut Vec<char>, s: &[char])
    ensures
        final(out)@ == old(out)@ + s@,
{
    let mut i: usize = 0;
    while i < s.len()
        invariant
            i <= s@.len(),
            out@ == old(out)@ + s@.take(i as int),
        decreases s@.len() - i,
    {
        assert(s@.take(i + 1) =~= s@.take(i as int).push(s@[i as int]));
        out.push(s[i]);
        i += 1;
    }
    assert(s@.take(s@.len() as int) =~= s@);
}

/// Appends the characters of the literal `lit` to `out`.
pub fn push_lit(out: &mut Vec<char>, lit: &str)
    ensures
        final(out)@ == old(out)@ + lit@,
{
    let v = chars_of(lit);
    push_all(out, v.as_slice());
}

/// A copy of `s`.
pub fn copy_chars(s: &[char]) -> (v: Vec<char>)
    ensures
        v@ == s@,
{
    let mut v: Vec<char> = Vec::new();
    push_all(&mut v, s);
    assert(v@ =~= s@);
    v
}

/// The decimal digit `d` as a character.
pub open spec fn digit_char(d: nat) -> char {
    ((48 + d) as u8) as char
}

/// The decimal rendering of `n`, without leading zeros.
pub open spec fn decimal(n: nat) -> Seq<char>
    decreases n,
{
    if n < 10 {
        seq![digit_char(n)]
    } else {
        decimal(n / 10).push(digit_char(n % 10))
    }
}

/// Appends the decimal rendering of `n` to `out`.
pub fn push_decimal(out: &mut Vec<char>, n: usize)
    ensures
        final(out)@ == old(out)@ + decimal(n as nat),
    decreases n,
{
    if n >= 10 {
        push_decimal(out, n / 10);
    }
    let d: u8 = (n % 10) as u8;
    out.push((48u8 + d) as char);
    assert(out@ =~= old(out)@ + decimal(n as nat));
}

/// Appends the decimal rendering of `n` to `out`.
fn push_wide_decimal(out: &mut Vec<char>, n: u64)
    ensures
        final(out)@ == old(out)@ + decimal(n as nat),
    decreases n,
{
    if n >= 10 {
        push_wide_decimal(out, n / 10);
    }
    let d: u8 = (n % 10) as u8;
    out.push((48u8 + d) as char);
    assert(out@ =~= old(out)@ + decimal(n as nat));
}

/// The decimal rendering of `n`, with a minus sign when it is negative.
pub open spec fn signed_decimal(n: int) -> Seq<char> {
    if n < 0 {
        seq!['-'] + decimal((-n) as nat)
    } else {
        decimal(n as nat)
    }
}

/// Appends the decimal rendering of `n`, sign included, to `out`.
pub fn push_signed(out: &mut Vec<char>, n: i64)
    ensures
        final(out)@ == old(out)@ + signed_decimal(n as int),
{
    if n < 0 {
        out.push('-');
        let magnitude: u64 = ((-(n + 1)) as u64) + 1;
        let ghost mid = out@;
        push_wide_decimal(out, magnitude);
        assert(out@ =~= old(out)@ + signed_decimal(n as int));
    } else {
        push_wide_decimal(out, n as u64);
    }
}


/// How many leading characters of `s` are encoded entirely within the first
/// `offset` bytes: the character index a byte offset falls on, rounded down
/// to the start of a character and clamped to the end.
pub open spec fn char_floor(s: Seq<char>, offset: nat) -> nat
    decreases s.len(),
{
    if s.len() == 0 || utf8_width(s[0]) > offset {
        0
    } else {
        1 + char_floor(s.drop_first(), (offset - utf8_width(s[0])) as nat)
    }
}

pub proof fn lemma_byte_len_front(x: Seq<char>)
    requires
        x.len() > 0,
    ensures
        byte_len(x) == utf8_width(x[0]) + byte_len(x.drop_first()),
    decreases x.len(),
{
    if x.len() > 1 {
        lemma_byte_len_front(x.drop_last());
        assert(x.drop_last().drop_first() =~= x.drop_first().drop_last());
    } else {
        assert(x.drop_first() =~= Seq::<char>::empty());
        assert(x.drop_last() =~= Seq::<char>::empty());
    }
}

pub proof fn lemma_char_floor_bound(s: Seq<char>, offset: nat)
    ensures
        char_floor(s, offset) <= s.len(),
    decreases s.len(),
{
    if s.len() > 0 && utf8_width(s[0]) <= offset {
        lemma_char_floor_bound(s.drop_first(), (offset - utf8_width(s[0])) as nat);
    }
}

/// Counting from a known character boundary `k` gives the same floor.
pub proof fn lemma_char_floor_from(s: Seq<char>, k: nat, offset: nat)
    requires
        k <= s.len(),
        byte_len(s.take(k as int)) <= offset,
    ensures
        char_floor(s, offset) == k + char_floor(
            s.skip(k as int),
            (offset - byte_len(s.take(k as int))) as nat,
        ),
    decreases k,
{
    if k == 0 {
        assert(s.take(0) =~= Seq::<char>::empty());
        assert(s.skip(0) =~= s);
    } else {
        let x = s.take(k as int);
        lemma_byte_len_front(x);
        let t = s.drop_first();
        assert(x.drop_first() =~= t.take(k - 1));
        assert(x[0] == s[0]);
        lemma_char_floor_from(t, (k - 1) as nat, (offset - utf8_width(s[0])) as nat);
        assert(t.skip(k - 1) =~= s.skip(k as int));
    }
}

/// The byte length of one more character.
pub proof fn lemma_byte_len_take(s: Seq<char>, k: int)
    requires
        0 <= k < s.len(),
    ensures
        byte_len(s.take(k + 1)) == byte_len(s.take(k)) + utf8_width(s[k]),
{
    assert(s.take(k + 1).drop_last() =~= s.take(k));
}

/// Finds the character a byte offset falls on, starting from a known
/// character boundary when the offset lies at or after it.
pub fn char_index_from(chars: &Vec<char>, from_char: usize, from_byte: usize, offset: u32) -> (r: (
    usize,
    usize,
))
    requires
        from_char <= chars@.len(),
        from_byte == byte_len(chars@.take(from_char as int)),
    ensures
        r.0 == char_floor(chars@, offset as nat),
        r.0 <= chars@.len(),
        r.1 == byte_len(chars@.take(r.0 as int)),
        r.1 <= offset,
{
    let n = chars.len();
    let target = offset as usize;
    let mut k = from_char;
    let mut bytes = from_byte;
    if bytes > target {
        k = 0;
        bytes = 0;
        assert(chars@.take(0) =~= Seq::<char>::empty());
    }
    proof {
        lemma_char_floor_from(chars@, k as nat, offset as nat);
    }
    while k < n && char_width(chars[k]) <= target - bytes
        invariant
            n == chars@.len(),
            k <= n,
            bytes == byte_len(chars@.take(k as int)),
            bytes <= target,
            target == offset,
            char_floor(chars@, offset as nat) == k + char_floor(
                chars@.skip(k as int),
                (offset - bytes) as nat,
            ),
        decreases n - k,
    {
        proof {
            lemma_byte_len_take(chars@, k as int);
            assert(chars@.skip(k as int).drop_first() =~= chars@.skip(k + 1));
            assert(chars@.skip(k as int)[0] == chars@[k as int]);
        }
        bytes = bytes + char_width(chars[k]);
        k = k + 1;
    }
    proof {
        if k < n {
            assert(chars@.skip(k as int)[0] == chars@[k as int]);
        }
        assert(char_floor(chars@.skip(k as int), (offset - bytes) as nat) == 0);
    }
    (k, bytes)
}

/// Whether `c` is white space in the sense of `char::is_whitespace`: the
/// Unicode `White_Space` property.
pub open spec fn is_white(c: char) -> bool {
    let v = c as u32;
    (0x09 <= v <= 0x0D) || v == 0x20 || v == 0x85 || v == 0xA0 || v == 0x1680 || (0x2000 <= v
        <= 0x200A) || v == 0x2028 || v == 0x2029 || v == 0x202F || v == 0x205F || v == 0x3000
}

/// Whether `c` is white space.
pub fn white(c: char) -> (r: bool)
    ensures
        r == is_white(c),
{
    let v = c as u32;
    (0x09 <= v && v <= 0x0D) || v == 0x20 || v == 0x85 || v == 0xA0 || v == 0x1680 || (0x2000
        <= v && v <= 0x200A) || v == 0x2028 || v == 0x2029 || v == 0x202F || v == 0x205F || v
        == 0x3000
}

/// `s` without its trailing white space.
pub open spec fn trim_end(s: Seq<char>) -> Seq<char>
    decreases s.len(),
{
    if s.len() > 0 && is_white(s.last()) {
        trim_end(s.drop_last())
    } else {
        s
    }
}

/// `s` without its leading white space.
pub open spec fn trim_start(s: Seq<char>) -> Seq<char>
    decreases s.len(),
{
    if s.len() > 0 && is_white(s[0]) {
        trim_start(s.drop_first())
    } else {
        s
    }
}

/// How many characters `trim_end` keeps.
pub fn trimmed_end_len(s: &[char]) -> (n: usize)
    ensures
        n <= s@.len(),
        trim_end(s@) == s@.take(n as int),
{
    let mut n = s.len();
    assert(s@.take(n as int) =~= s@);
    while n > 0 && white(s[n - 1])
        invariant
            n <= s@.len(),
            trim_end(s@) == trim_end(s@.take(n as int)),
        decreases n,
    {
        assert(s@.take(n as int).drop_last() =~= s@.take(n - 1));
        n -= 1;
    }
    n
}

/// How many characters `trim_start` drops.
pub fn trimmed_start_len(s: &[char]) -> (n: usize)
    ensures
        n <= s@.len(),
        trim_start(s@) == s@.skip(n as int),
{
    let mut n: usize = 0;
    assert(s@.skip(0) =~= s@);
    while n < s.len() && white(s[n])
        invariant
            n <= s@.len(),
            trim_start(s@) == trim_start(s@.skip(n as int)),
        decreases s@.len() - n,
    {
        assert(s@.skip(n as int).drop_first() =~= s@.skip(n + 1));
        n += 1;
    }
    n
}

pub proof fn lemma_byte_len_prefix_le(s: Seq<char>, k: int)
    requires
        0 <= k <= s.len(),
    ensures
        byte_len(s.take(k)) <= byte_len(s),
    decreases s.len() - k,
{
    if k < s.len() {
        lemma_byte_len_prefix_le(s, k + 1);
        lemma_byte_len_take(s, k);
    } else {
        assert(s.take(k) =~= s);
    }
}

/// The number of newline characters in `s`.
pub open spec fn count_newlines(s: Seq<char>) -> nat
    decreases s.len(),
{
    if s.len() == 0 {
        0
    } else {
        count_newlines(s.drop_last()) + if s.last() == '\n' { 1nat } else { 0nat }
    }
}

/// The index just after the last newline of `s`, or 0 when it has none.
pub open spec fn last_line_start(s: Seq<char>) -> nat
    decreases s.len(),
{
    if s.len() == 0 {
        0
    } else if s.last() == '\n' {
        s.len()
    } else {
        last_line_start(s.drop_last())
    }
}

pub proof fn lemma_last_line_start_bound(s: Seq<char>)
    ensures
        last_line_start(s) <= s.len(),
    decreases s.len(),
{
    if s.len() > 0 {
        lemma_last_line_start_bound(s.drop_last());
    }
}

} // verus!
