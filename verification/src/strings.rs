//! Texts and lists handed into a function and out of it again.

use vstd::prelude::*;
use vstd::string::*;
use vstd::utf8::encode_utf8;

verus! {

/// The number of bytes that `s` takes in UTF-8.
pub open spec fn utf8_len(s: Seq<char>) -> nat {
    encode_utf8(s).len()
}

/// `c` with the letters `a` to `z` mapped to `A` to `Z`.
pub open spec fn ascii_uppercase(c: char) -> char {
    if 'a' <= c <= 'z' {
        ((c as u8) - 32) as char
    } else {
        c
    }
}

/// A new text that reads `yours`.
pub fn gives_ownership() -> (s: String)
    ensures
        s@ == "yours"@,
{
    String::from_str("yours")
}

/// The text that was handed in.
pub fn takes_and_gives_back(a_string: String) -> (s: String)
    ensures
        s == a_string,
{
    a_string
}

/// The text that was handed in, with its length in bytes.
pub fn calculate_length(s: String) -> (r: (String, usize))
    ensures
        r.0 == s,
        r.1 == utf8_len(s@),
{
    let length = s.as_str().as_bytes().len();
    (s, length)
}

/// The length of `s` in bytes.
pub fn calculate_length_ref(s: &String) -> (length: usize)
    ensures
        length == utf8_len(s@),
{
    s.as_str().as_bytes().len()
}

/// Appends `, world` to the text.
pub fn change(some_string: &mut String)
    ensures
        final(some_string)@ == old(some_string)@ + ", world"@,
{
    some_string.append(", world");
}

/// A new text that reads `hello`.
pub fn no_dangle() -> (s: String)
    ensures
        s@ == "hello"@,
{
    String::from_str("hello")
}

/// The first text of a list that is not empty.
pub fn get_first(v: &Vec<String>) -> (first: &String)
    requires
        v@.len() > 0,
    ensures
        *first == v@[0],
{
    &v[0]
}

/// Makes the first character of a list that is not empty a capital letter
/// where it is one of `a` to `z`, and tells whether it was.
pub fn ascii_capitalize(v: &mut Vec<char>) -> (capitalized: bool)
    requires
        old(v)@.len() > 0,
    ensures
        capitalized == ('a' <= old(v)@[0] <= 'z'),
        final(v)@ == old(v)@.update(0, ascii_uppercase(old(v)@[0])),
{
    let c = v[0];
    if 'a' <= c && c <= 'z' {
        v[0] = ((c as u8) - 32) as char;
        true
    } else {
        assert(v@ =~= v@.update(0, c));
        false
    }
}

} // verus!
