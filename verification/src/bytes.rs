//! Small helpers on byte strings.

use vstd::prelude::*;

verus! {

/// `-`, the byte that introduces an option.
pub const DASH: u8 = 45;

/// `=`, the byte that separates a long option from a value given with it.
pub const EQUALS: u8 = 61;

/// The space.
pub const SPACE: u8 = 32;

/// The tab.
pub const TAB: u8 = 9;

/// `,`
pub const COMMA: u8 = 44;

/// `<`
pub const LEFT_ANGLE: u8 = 60;

/// `>`
pub const RIGHT_ANGLE: u8 = 62;

/// `[`
pub const LEFT_BRACKET: u8 = 91;

/// `]`
pub const RIGHT_BRACKET: u8 = 93;

/// `_`
pub const UNDERSCORE: u8 = 95;

/// Whether `c` is a letter of the ASCII range.
pub open spec fn is_letter(c: u8) -> bool {
    65 <= c <= 90 || 97 <= c <= 122
}

/// Whether `c` is a space or a tab.
pub open spec fn is_blank(c: u8) -> bool {
    c == SPACE || c == TAB
}

/// Whether `c` is a letter of the ASCII range.
pub fn letter(c: u8) -> (r: bool)
    ensures
        r == is_letter(c),
{
    (65 <= c && c <= 90) || (97 <= c && c <= 122)
}

/// Whether `c` is a space or a tab.
pub fn blank(c: u8) -> (r: bool)
    ensures
        r == is_blank(c),
{
    c == SPACE || c == TAB
}

/// Whether two byte strings are equal.
pub fn bytes_eq(a: &[u8], b: &[u8]) -> (r: bool)
    ensures
        r == (a@ == b@),
{
    if a.len() != b.len() {
        return false;
    }
    let mut i: usize = 0;
    while i < a.len()
        invariant
            a@.len() == b@.len(),
            i <= a@.len(),
            forall|j: int| 0 <= j < i ==> a@[j] == b@[j],
        decreases a@.len() - i,
    {
        if a[i] != b[i] {
            return false;
        }
        i += 1;
    }
    assert(a@ =~= b@);
    true
}

/// Index of the first occurrence of `b` in `s`.
pub fn find_byte(s: &[u8], b: u8) -> (r: Option<usize>)
    ensures
        match r {
            Some(i) => s@.index_of_first(b) == Some(i as int) && i < s@.len() && s@[i as int] == b,
            None => s@.index_of_first(b) is None,
        },
{
    let mut i: usize = 0;
    while i < s.len()
        invariant
            i <= s@.len(),
            forall|j: int| 0 <= j < i ==> s@[j] != b,
        decreases s@.len() - i,
    {
        if s[i] == b {
            proof {
                s@.index_of_first_ensures(b);
            }
            return Some(i);
        }
        i += 1;
    }
    proof {
        s@.index_of_first_ensures(b);
    }
    None
}

} // verus!
