use vstd::prelude::*;

verus! {

/// Relies on str::chars: it yields the characters of the string in order.
/// A Rust allocation holds at most isize::MAX bytes and a character occupies
/// at least one byte, so the count stays below usize::MAX.
#[verifier::external_body]
pub(crate) fn str_chars_vec(s: &str) -> (r: Vec<char>)
    ensures
        r@ == s@,
        r@.len() < usize::MAX,
{
    s.chars().collect()
}

/// Relies on String::push: it appends one character at the end.
#[verifier::external_body]
pub(crate) fn push_char(s: &mut String, c: char)
    ensures
        final(s)@ == old(s)@.push(c),
{
    s.push(c);
}

} // verus!
