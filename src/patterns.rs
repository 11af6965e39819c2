//! Anchored byte patterns used by the inline scanner.
use vstd::prelude::*;

verus! {

pub const TAB: u8 = 9;
pub const LF: u8 = 10;
pub const CR: u8 = 13;
pub const SPACE: u8 = 32;
pub const COLON: u8 = 58;
pub const LT: u8 = 60;
pub const GT: u8 = 62;
pub const AT: u8 = 64;
pub const RBRACKET: u8 = 93;
pub const CARET: u8 = 94;

/// Whitespace: space, tab, line feed, vertical tab, form feed, carriage return.
pub open spec fn is_space(b: u8) -> bool {
    b == 32 || (9 <= b && b <= 13)
}

/// ASCII punctuation.
pub open spec fn is_punct(b: u8) -> bool {
    (33 <= b && b <= 47) || (58 <= b && b <= 64) || (91 <= b && b <= 96) || (123 <= b && b
        <= 126)
}

/// ASCII letters.
pub open spec fn is_alpha(b: u8) -> bool {
    (65 <= b && b <= 90) || (97 <= b && b <= 122)
}

/// The bytes at which the scanner stops to dispatch.
pub open spec fn is_special(b: u8) -> bool {
    ||| b == 91 || b == 93 || b == 92 || b == 96  // [ ] \ `
    ||| b == 123 || b == 125 || b == 95 || b == 42  // { } _ *
    ||| b == 40 || b == 41 || b == 33 || b == 60 || b == 62  // ( ) ! < >
    ||| b == 126 || b == 94 || b == 58 || b == 61 || b == 43  // ~ ^ : = +
    ||| b == 13 || b == 10  // carriage return, line feed
    ||| b == 39 || b == 34 || b == 46 || b == 45  // ' " . -
}

/// A class of bytes that a run is made of.
#[derive(Clone, Copy, PartialEq, Eq, Structural, Debug)]
pub enum ByteClass {
    /// exactly this byte
    Is(u8),
    /// any byte but this one
    Not(u8),
    /// space or tab
    Blank,
    /// ASCII letters
    Alpha,
    /// anything but `<`, `>` and whitespace
    UrlChar,
    /// anything the scanner does not stop at
    Plain,
}

pub open spec fn in_class(b: u8, c: ByteClass) -> bool {
    match c {
        ByteClass::Is(x) => b == x,
        ByteClass::Not(x) => b != x,
        ByteClass::Blank => b == SPACE || b == TAB,
        ByteClass::Alpha => is_alpha(b),
        ByteClass::UrlChar => b != LT && b != GT && !is_space(b),
        ByteClass::Plain => !is_special(b),
    }
}

/// The end of the longest run of bytes of class `c` that starts at `i`.
pub open spec fn run_end(s: Seq<u8>, i: int, c: ByteClass) -> int
    decreases s.len() - i,
{
    if 0 <= i < s.len() && in_class(s[i], c) {
        run_end(s, i + 1, c)
    } else {
        i
    }
}

pub proof fn lemma_run_end(s: Seq<u8>, i: int, c: ByteClass)
    requires
        0 <= i <= s.len(),
    ensures
        i <= run_end(s, i, c) <= s.len(),
        forall|k: int| i <= k < run_end(s, i, c) ==> in_class(#[trigger] s[k], c),
        run_end(s, i, c) < s.len() ==> !in_class(s[run_end(s, i, c)], c),
    decreases s.len() - i,
{
    if i < s.len() && in_class(s[i], c) {
        lemma_run_end(s, i + 1, c);
    }
}

pub fn class_has(b: u8, c: ByteClass) -> (r: bool)
    ensures
        r == in_class(b, c),
{
    match c {
        ByteClass::Is(x) => b == x,
        ByteClass::Not(x) => b != x,
        ByteClass::Blank => b == SPACE || b == TAB,
        ByteClass::Alpha => (65 <= b && b <= 90) || (97 <= b && b <= 122),
        ByteClass::UrlChar => b != LT && b != GT && !(b == SPACE || (TAB <= b && b <= CR)),
        ByteClass::Plain => !((b == 91 || b == 93 || b == 92 || b == 96)  // [ ] \ `
        || (b == 123 || b == 125 || b == 95 || b == 42)  // { } _ *
        || (b == 40 || b == 41 || b == 33 || b == 60 || b == 62)  // ( ) ! < >
        || (b == 126 || b == 94 || b == 58 || b == 61 || b == 43)  // ~ ^ : = +
        || (b == 13 || b == 10)  // carriage return, line feed
        || (b == 39 || b == 34 || b == 46 || b == 45)),  // ' " . -
    }
}

/// Scans the run of class `c` that starts at `i`, stopping at `limit`.
pub fn scan(s: &Vec<u8>, i: usize, limit: usize, c: ByteClass) -> (r: usize)
    requires
        i <= limit <= s.len(),
    ensures
        r == if run_end(s@, i as int, c) < limit {
            run_end(s@, i as int, c)
        } else {
            limit as int
        },
{
    let mut k: usize = i;
    while k < limit && class_has(s[k], c)
        invariant
            i <= k <= limit <= s.len(),
            run_end(s@, k as int, c) == run_end(s@, i as int, c),
        decreases limit - k,
    {
        k = k + 1;
    }
    proof {
        lemma_run_end(s@, k as int, c);
    }
    k
}

/// `s[i]` exists and is not whitespace.
pub open spec fn non_space_at(s: Seq<u8>, i: int) -> bool {
    0 <= i < s.len() && !is_space(s[i])
}

pub fn non_space(s: &Vec<u8>, i: usize) -> (r: bool)
    ensures
        r == non_space_at(s@, i as int),
{
    i < s.len() && !(s[i] == SPACE || (TAB <= s[i] && s[i] <= CR))
}

/// `s[i]` exists and is the byte `b`.
pub open spec fn byte_at(s: Seq<u8>, i: int, b: u8) -> bool {
    0 <= i < s.len() && s[i] == b
}

pub fn has_byte(s: &Vec<u8>, i: usize, b: u8) -> (r: bool)
    ensures
        r == byte_at(s@, i as int, b),
{
    i < s.len() && s[i] == b
}

/// The end of a line break that follows optional blanks from `i`
/// (blanks, an optional carriage return, a line feed).
pub open spec fn line_break_end(s: Seq<u8>, i: int) -> Option<int> {
    let j = run_end(s, i, ByteClass::Blank);
    if byte_at(s, j, LF) {
        Some(j + 1)
    } else if byte_at(s, j, CR) && byte_at(s, j + 1, LF) {
        Some(j + 2)
    } else {
        None
    }
}

pub fn find_line_break(s: &Vec<u8>, i: usize) -> (r: Option<usize>)
    requires
        i <= s.len(),
    ensures
        match r {
            Some(e) => line_break_end(s@, i as int) == Some(e as int),
            None => line_break_end(s@, i as int).is_none(),
        },
{
    let j = scan(s, i, s.len(), ByteClass::Blank);
    proof {
        lemma_run_end(s@, i as int, ByteClass::Blank);
    }
    if has_byte(s, j, LF) {
        Some(j + 1)
    } else if has_byte(s, j, CR) && has_byte(s, j + 1, LF) {
        Some(j + 2)
    } else {
        None
    }
}

/// The end of an autolink `<...>` that starts at `i`: one or more bytes that
/// are neither angle brackets nor whitespace, between `<` and `>`.
pub open spec fn autolink_end(s: Seq<u8>, i: int) -> Option<int> {
    let j = run_end(s, i + 1, ByteClass::UrlChar);
    if byte_at(s, i, LT) && j > i + 1 && byte_at(s, j, GT) {
        Some(j + 1)
    } else {
        None
    }
}

pub fn find_autolink(s: &Vec<u8>, i: usize) -> (r: Option<usize>)
    requires
        i < s.len(),
    ensures
        match r {
            Some(e) => autolink_end(s@, i as int) == Some(e as int),
            None => autolink_end(s@, i as int).is_none(),
        },
{
    let j = scan(s, i + 1, s.len(), ByteClass::UrlChar);
    proof {
        lemma_run_end(s@, i + 1, ByteClass::UrlChar);
    }
    if has_byte(s, i, LT) && j > i + 1 && has_byte(s, j, GT) {
        Some(j + 1)
    } else {
        None
    }
}

/// A scheme: one or more letters from `i`, then `:` before `end`.
pub open spec fn scheme_at(s: Seq<u8>, i: int, end: int) -> bool {
    let j = run_end(s, i, ByteClass::Alpha);
    j > i && byte_at(s, j, COLON) && j + 1 <= end
}

pub fn has_scheme(s: &Vec<u8>, i: usize, end: usize) -> (r: bool)
    requires
        i <= s.len(),
    ensures
        r == scheme_at(s@, i as int, end as int),
{
    let j = scan(s, i, s.len(), ByteClass::Alpha);
    proof {
        lemma_run_end(s@, i as int, ByteClass::Alpha);
    }
    j > i && has_byte(s, j, COLON) && j < end
}

/// An `@` in `s[i..end)` before any `:`.
pub open spec fn at_before_colon(s: Seq<u8>, i: int, end: int) -> bool
    decreases end - i,
{
    if i >= end || i < 0 || i >= s.len() {
        false
    } else if s[i] == COLON {
        false
    } else if s[i] == AT {
        true
    } else {
        at_before_colon(s, i + 1, end)
    }
}

/// An address: `s[i..end)` holds an `@` before any `:`.
pub open spec fn email_at(s: Seq<u8>, i: int, end: int) -> bool {
    at_before_colon(s, i, end)
}

pub fn has_email(s: &Vec<u8>, i: usize, end: usize) -> (r: bool)
    requires
        end <= s.len(),
    ensures
        r == email_at(s@, i as int, end as int),
{
    if i >= end {
        return false;
    }
    let mut k: usize = i;
    while k < end && s[k] != COLON && s[k] != AT
        invariant
            i <= k <= end <= s.len(),
            at_before_colon(s@, k as int, end as int) == at_before_colon(
                s@,
                i as int,
                end as int,
            ),
        decreases end - k,
    {
        k = k + 1;
    }
    k < end && s[k] == AT
}

/// The end of a footnote reference body `^label]` that starts at `i`.
pub open spec fn footnote_end(s: Seq<u8>, i: int) -> Option<int> {
    let j = run_end(s, i + 1, ByteClass::Not(RBRACKET));
    if byte_at(s, i, CARET) && j > i + 1 && byte_at(s, j, RBRACKET) {
        Some(j + 1)
    } else {
        None
    }
}

pub fn find_footnote(s: &Vec<u8>, i: usize) -> (r: Option<usize>)
    requires
        i < s.len(),
    ensures
        match r {
            Some(e) => footnote_end(s@, i as int) == Some(e as int),
            None => footnote_end(s@, i as int).is_none(),
        },
{
    let j = scan(s, i + 1, s.len(), ByteClass::Not(RBRACKET));
    proof {
        lemma_run_end(s@, i + 1, ByteClass::Not(RBRACKET));
    }
    if has_byte(s, i, CARET) && j > i + 1 && has_byte(s, j, RBRACKET) {
        Some(j + 1)
    } else {
        None
    }
}

pub fn is_punct_byte(b: u8) -> (r: bool)
    ensures
        r == is_punct(b),
{
    (33 <= b && b <= 47) || (58 <= b && b <= 64) || (91 <= b && b <= 96) || (123 <= b && b <= 126)
}

} // verus!
