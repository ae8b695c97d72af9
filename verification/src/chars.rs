//! Character classes.

use vstd::prelude::*;

verus! {

/// Unicode `White_Space`, the class that trimming removes.
pub open spec fn white(c: char) -> bool {
    ||| '\u{9}' <= c <= '\u{d}'
    ||| c == ' '
    ||| c == '\u{85}'
    ||| c == '\u{a0}'
    ||| c == '\u{1680}'
    ||| '\u{2000}' <= c <= '\u{200a}'
    ||| c == '\u{2028}'
    ||| c == '\u{2029}'
    ||| c == '\u{202f}'
    ||| c == '\u{205f}'
    ||| c == '\u{3000}'
}

pub open spec fn digit(c: char) -> bool {
    '0' <= c <= '9'
}

pub open spec fn lowercase(c: char) -> bool {
    'a' <= c <= 'z'
}

pub open spec fn uppercase(c: char) -> bool {
    'A' <= c <= 'Z'
}

pub open spec fn alphabetic(c: char) -> bool {
    lowercase(c) || uppercase(c)
}

pub open spec fn alphanumeric(c: char) -> bool {
    alphabetic(c) || digit(c)
}

/// A visible ASCII character: `!` to `~`.
pub open spec fn graphic(c: char) -> bool {
    '!' <= c <= '~'
}

/// The four blanks that count as text.
pub open spec fn blank(c: char) -> bool {
    c == ' ' || c == '\n' || c == '\r' || c == '\t'
}

/// Unicode control characters (general category `Cc`).
pub open spec fn control(c: char) -> bool {
    c <= '\u{1f}' || '\u{7f}' <= c <= '\u{9f}'
}

/// The lower-case partner of an ASCII capital; any other character itself.
pub open spec fn lowered(c: char) -> char {
    if uppercase(c) {
        (c as u32 + 32) as char
    } else {
        c
    }
}

pub fn is_white(c: char) -> (r: bool)
    ensures
        r == white(c),
{
    ('\u{9}' <= c && c <= '\u{d}') || c == ' ' || c == '\u{85}' || c == '\u{a0}' || c == '\u{1680}'
        || ('\u{2000}' <= c && c <= '\u{200a}') || c == '\u{2028}' || c == '\u{2029}' || c
        == '\u{202f}' || c == '\u{205f}' || c == '\u{3000}'
}

pub fn is_digit(c: char) -> (r: bool)
    ensures
        r == digit(c),
{
    '0' <= c && c <= '9'
}

pub fn is_lowercase(c: char) -> (r: bool)
    ensures
        r == lowercase(c),
{
    'a' <= c && c <= 'z'
}

pub fn is_alphabetic(c: char) -> (r: bool)
    ensures
        r == alphabetic(c),
{
    ('a' <= c && c <= 'z') || ('A' <= c && c <= 'Z')
}

pub fn is_alphanumeric(c: char) -> (r: bool)
    ensures
        r == alphanumeric(c),
{
    is_alphabetic(c) || is_digit(c)
}

pub fn is_graphic(c: char) -> (r: bool)
    ensures
        r == graphic(c),
{
    '!' <= c && c <= '~'
}

pub fn is_blank(c: char) -> (r: bool)
    ensures
        r == blank(c),
{
    c == ' ' || c == '\n' || c == '\r' || c == '\t'
}

pub fn is_control(c: char) -> (r: bool)
    ensures
        r == control(c),
{
    c <= '\u{1f}' || ('\u{7f}' <= c && c <= '\u{9f}')
}

pub fn lower(c: char) -> (r: char)
    ensures
        r == lowered(c),
{
    if 'A' <= c && c <= 'Z' {
        let b: u8 = c as u8;
        (b + 32) as char
    } else {
        c
    }
}

} // verus!
