use vstd::prelude::*;

verus! {

/// Number of bytes that the UTF-8 encoding of `c` takes.
pub open spec fn utf8_len(c: char) -> nat {
    let v = c as u32;
    if v < 0x80 {
        1
    } else if v < 0x800 {
        2
    } else if v < 0x10000 {
        3
    } else {
        4
    }
}

/// Byte offset at which the char with index `i` of `s` starts
/// (the length of `s` in bytes for `i == s.len()`).
pub open spec fn byte_offset(s: Seq<char>, i: int) -> nat
    decreases i,
{
    if i <= 0 {
        0
    } else if i > s.len() {
        byte_offset(s, s.len() as int)
    } else {
        byte_offset(s, i - 1) + utf8_len(s[i - 1])
    }
}

/// Length of `s` in bytes.
pub open spec fn byte_len(s: Seq<char>) -> nat {
    byte_offset(s, s.len() as int)
}

/// `c` is the index of the char that holds byte `b` of `s`; one past the
/// last char for `b` one past the last byte.
pub open spec fn is_char_of_byte(s: Seq<char>, b: int, c: int) -> bool {
    &&& 0 <= c <= s.len()
    &&& byte_offset(s, c) <= b
    &&& c < s.len() ==> b < byte_offset(s, c + 1)
}

/// Index of the char that holds byte `b` of `s`.
pub open spec fn char_of_byte(s: Seq<char>, b: int) -> int {
    choose|c: int| is_char_of_byte(s, b, c)
}

/// Byte offsets grow strictly with the char index.
pub proof fn lemma_byte_offset_increasing(s: Seq<char>, i: int, j: int)
    requires
        0 <= i < j <= s.len(),
    ensures
        byte_offset(s, i) < byte_offset(s, j),
    decreases j - i,
{
    if j - 1 > i {
        lemma_byte_offset_increasing(s, i, j - 1);
    }
}

/// A byte lies in exactly one char.
pub proof fn lemma_char_of_byte_unique(s: Seq<char>, b: int, c: int, d: int)
    requires
        is_char_of_byte(s, b, c),
        is_char_of_byte(s, b, d),
    ensures
        c == d,
{
    if c < d {
        if c + 1 < d {
            lemma_byte_offset_increasing(s, c + 1, d);
        }
    } else if d < c {
        if d + 1 < c {
            lemma_byte_offset_increasing(s, d + 1, c);
        }
    }
}

proof fn lemma_char_search(s: Seq<char>, b: int, c: int)
    requires
        0 <= c <= s.len(),
        0 <= b,
        c < s.len() ==> b < byte_offset(s, c + 1),
    ensures
        exists|d: int| is_char_of_byte(s, b, d),
    decreases c,
{
    if byte_offset(s, c) <= b {
        assert(is_char_of_byte(s, b, c));
    } else {
        lemma_char_search(s, b, c - 1);
    }
}

/// Every byte of `s`, and the one past the end, lies in a char.
pub proof fn lemma_char_of_byte_exists(s: Seq<char>, b: int)
    requires
        0 <= b <= byte_len(s),
    ensures
        is_char_of_byte(s, b, char_of_byte(s, b)),
{
    lemma_char_search(s, b, s.len() as int);
}

/// The byte at which char `i` starts lies in char `i`.
pub proof fn lemma_char_of_offset(s: Seq<char>, i: int)
    requires
        0 <= i <= s.len(),
    ensures
        char_of_byte(s, byte_offset(s, i) as int) == i,
        byte_offset(s, i) <= byte_len(s),
{
    if i < s.len() {
        lemma_byte_offset_increasing(s, i, i + 1);
        lemma_byte_offset_increasing(s, i, s.len() as int);
    }
    assert(is_char_of_byte(s, byte_offset(s, i) as int, i));
    lemma_char_of_byte_exists(s, byte_offset(s, i) as int);
    lemma_char_of_byte_unique(
        s,
        byte_offset(s, i) as int,
        i,
        char_of_byte(s, byte_offset(s, i) as int),
    );
}

/// A later byte does not lie in an earlier char.
pub proof fn lemma_char_of_byte_monotone(s: Seq<char>, a: int, b: int)
    requires
        0 <= a <= b <= byte_len(s),
    ensures
        char_of_byte(s, a) <= char_of_byte(s, b),
{
    lemma_char_of_byte_exists(s, a);
    lemma_char_of_byte_exists(s, b);
    let ca = char_of_byte(s, a);
    let cb = char_of_byte(s, b);
    if ca > cb {
        if cb + 1 < ca {
            lemma_byte_offset_increasing(s, cb + 1, ca);
        }
    }
}

/// Relies on `ropey::RopeSlice::char_to_byte`: the byte index at which the
/// char with index `char_idx` starts (one past the end for the last index).
#[verifier::external_body]
pub(crate) fn char_to_byte(text: &str, char_idx: usize) -> (r: usize)
    requires
        char_idx <= text@.len(),
    ensures
        r == byte_offset(text@, char_idx as int),
{
    ropey::RopeSlice::from(text).char_to_byte(char_idx)
}

/// Relies on `ropey::RopeSlice::byte_to_char`: the index of the char that
/// holds byte `byte_idx` (one past the end for the last byte index).
#[verifier::external_body]
fn rope_byte_to_char(text: &str, byte_idx: usize) -> (r: usize)
    requires
        byte_idx <= byte_len(text@),
    ensures
        is_char_of_byte(text@, byte_idx as int, r as int),
{
    ropey::RopeSlice::from(text).byte_to_char(byte_idx)
}

/// Index of the char of `text` that holds byte `byte_idx`.
pub fn byte_to_char(text: &str, byte_idx: usize) -> (r: usize)
    requires
        byte_idx <= byte_len(text@),
    ensures
        r == char_of_byte(text@, byte_idx as int),
        is_char_of_byte(text@, byte_idx as int, r as int),
{
    let r = rope_byte_to_char(text, byte_idx);
    proof {
        let c = char_of_byte(text@, byte_idx as int);
        assert(is_char_of_byte(text@, byte_idx as int, c));
        lemma_char_of_byte_unique(text@, byte_idx as int, c, r as int);
    }
    r
}

} // verus!
