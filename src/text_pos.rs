//! Lines and columns of byte offsets in a text.

use vstd::prelude::*;
use vstd::string::StringSliceAdditionalSpecFns;

verus! {

/// Whether a byte begins an encoded character, that is, whether it is no
/// UTF-8 continuation byte.
pub open spec fn starts_char(b: u8) -> bool {
    !(0x80 <= b && b < 0xC0)
}

/// Line and column, both counted from one, of the place that follows the
/// first `n` bytes of `s`: every line feed starts a new line, and every other
/// character moves one column on.
pub open spec fn pos_after(s: Seq<u8>, n: int) -> (nat, nat)
    decreases n,
{
    if n <= 0 {
        (1, 1)
    } else {
        let (line, column) = pos_after(s, n - 1);
        let b = s[n - 1];
        if !starts_char(b) {
            (line, column)
        } else if b == 10 {
            (line + 1, 1)
        } else {
            (line, column + 1)
        }
    }
}

/// A line and a column in a text, both counted from one.
#[derive(Copy, Clone, Eq, PartialEq, Debug)]
pub struct TextPos {
    pub line: usize,
    pub column: usize,
}

proof fn lemma_pos_after_bound(s: Seq<u8>, n: int)
    requires
        0 <= n,
    ensures
        pos_after(s, n).0 + pos_after(s, n).1 <= n + 2,
        pos_after(s, n).0 >= 1,
        pos_after(s, n).1 >= 1,
    decreases n,
{
    if n > 0 {
        lemma_pos_after_bound(s, n - 1);
    }
}

impl TextPos {
    /// The position of the character at byte offset `offset` of `s`; an
    /// offset past the end gives the position that follows the last
    /// character.
    pub fn from_str_offset(s: &str, offset: usize) -> (r: TextPos)
        requires
            s.spec_bytes().len() < usize::MAX,
        ensures
            (r.line as nat, r.column as nat) == pos_after(
                s.spec_bytes(),
                if offset < s.spec_bytes().len() { offset as int } else { s.spec_bytes().len() as int },
            ),
    {
        Self::from_bytes_offset(s.as_bytes(), offset)
    }

    /// As `from_str_offset`, on the bytes of a text.
    pub fn from_bytes_offset(s: &[u8], offset: usize) -> (r: TextPos)
        requires
            s@.len() < usize::MAX,
        ensures
            (r.line as nat, r.column as nat) == pos_after(
                s@,
                if offset < s@.len() { offset as int } else { s@.len() as int },
            ),
    {
        let mut value = TextPos { line: 1, column: 1 };
        let mut i: usize = 0;
        while i < s.len() && i < offset
            invariant
                i <= s@.len(),
                i <= offset,
                s@.len() < usize::MAX,
                (value.line as nat, value.column as nat) == pos_after(s@, i as int),
            decreases s@.len() - i,
        {
            proof {
                lemma_pos_after_bound(s@, i as int);
            }
            let b = s[i];
            if !(0x80 <= b && b < 0xC0) {
                if b == 10 {
                    value.line = value.line + 1;
                    value.column = 1;
                } else {
                    value.column = value.column + 1;
                }
            }
            i = i + 1;
        }
        value
    }
}

/// The line, counted from one, on which byte offset `offset` of `s` lies.
pub fn to_line(s: &[u8], offset: usize) -> (r: usize)
    requires
        s@.len() < usize::MAX,
    ensures
        r as nat == pos_after(s@, if offset < s@.len() { offset as int } else { s@.len() as int }).0,
{
    TextPos::from_bytes_offset(s, offset).line
}

} // verus!
