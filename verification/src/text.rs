//! Character-level helpers shared by the parser, the printer and the matchers.
//!
//! ABNF folds case over ASCII letters only (RFC 5234 2.3), so every case-insensitive
//! comparison in this crate goes through [`ascii_lower`].
use vstd::prelude::*;

verus! {

/// The ASCII lowercase of `c`; every other character is its own lowercase.
pub open spec fn ascii_lower(c: char) -> char {
    if 'A' <= c && c <= 'Z' {
        ((c as u32) + 32) as char
    } else {
        c
    }
}

/// `s` with every ASCII uppercase letter lowered.
pub open spec fn fold_case(s: Seq<char>) -> Seq<char> {
    Seq::new(s.len(), |i: int| ascii_lower(s[i]))
}

/// The ASCII uppercase of `c`; every other character is its own uppercase.
pub open spec fn ascii_upper(c: char) -> char {
    if 'a' <= c && c <= 'z' {
        ((c as u32) - 32) as char
    } else {
        c
    }
}

/// Whether two characters are equal once ASCII case is folded.
pub open spec fn fold_eq(a: char, b: char) -> bool {
    ascii_lower(a) == ascii_lower(b)
}

/// Lowers an ASCII uppercase letter.
pub fn lower_char(c: char) -> (r: char)
    ensures
        r == ascii_lower(c),
{
    if 'A' <= c && c <= 'Z' {
        let b: u8 = c as u8;
        (b + 32) as char
    } else {
        c
    }
}

/// Raises an ASCII lowercase letter.
pub fn upper_char(c: char) -> (r: char)
    ensures
        r == ascii_upper(c),
{
    if 'a' <= c && c <= 'z' {
        let b: u8 = c as u8;
        (b - 32) as char
    } else {
        c
    }
}

/// Whether `a` and `b` are equal once ASCII case is folded.
pub fn chars_fold_eq(a: char, b: char) -> (r: bool)
    ensures
        r == fold_eq(a, b),
{
    lower_char(a) == lower_char(b)
}

/// Raising or lowering a character keeps it equal once case is folded.
pub proof fn lemma_fold_changes_of_case(c: char)
    ensures
        fold_eq(ascii_upper(c), c),
        fold_eq(ascii_lower(c), c),
{
    if 'a' <= c && c <= 'z' {
        let u = ((c as u32) - 32) as char;
        assert(u as u32 == (c as u32) - 32);
        assert('A' <= u && u <= 'Z');
        assert(((u as u32) + 32) as char == c);
    }
    if 'A' <= c && c <= 'Z' {
        let l = ((c as u32) + 32) as char;
        assert(l as u32 == (c as u32) + 32);
        assert(!('A' <= l && l <= 'Z'));
    }
}

/// The character whose scalar value is `v`, or `None` when `v` is a surrogate or above
/// `0x10FFFF`: `char::from_u32`.
#[verifier::external_body]
pub(crate) fn char_from_u32(v: u32) -> (r: Option<char>)
    ensures
        match r {
            Some(c) => c as int == v as int,
            None => v > 0x10FFFF || (0xD800 <= v && v <= 0xDFFF),
        },
{
    char::from_u32(v)
}

/// Appends one character to a string: `String::push`.
#[verifier::external_body]
pub(crate) fn push_char(s: &mut String, c: char)
    ensures
        final(s)@ == old(s)@.push(c),
{
    s.push(c);
}

/// The characters of a string slice, in order.
pub fn chars_of(s: &str) -> (v: Vec<char>)
    ensures
        v@ == s@,
{
    broadcast use vstd::string::axiom_spec_iter;
    let mut v: Vec<char> = Vec::new();
    for c in it: s.chars()
        invariant
            v@ == it.seq().subrange(0, it.index() as int),
            it.seq() == s@,
    {
        v.push(c);
        assert(v@ =~= it.seq().subrange(0, it.index() + 1));
    }
    assert(v@ =~= s@);
    v
}

/// A string holding exactly the characters of `v`.
pub fn string_of(v: &Vec<char>) -> (s: String)
    ensures
        s@ == v@,
{
    let mut s = String::new();
    let mut i: usize = 0;
    while i < v.len()
        invariant
            i <= v.len(),
            s@ == v@.subrange(0, i as int),
        decreases v.len() - i,
    {
        push_char(&mut s, v[i]);
        i = i + 1;
        assert(s@ =~= v@.subrange(0, i as int));
    }
    assert(s@ =~= v@);
    s
}

} // verus!
