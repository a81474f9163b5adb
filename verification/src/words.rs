//! Words and lines: the first word of a text, the longer of two texts, the
//! end of a first line, and a play language.

use crate::strings::utf8_len;
use crate::text::{find, find_in, to_chars};
use vstd::prelude::*;
use vstd::string::*;

verus! {

/// `word` in the play language: its first character moved to its end, and
/// `ay` behind that. The empty word stays empty.
pub open spec fn pig_latin_of(word: Seq<char>) -> Seq<char> {
    if word.len() == 0 {
        word
    } else {
        word.drop_first().push(word.first()) + "ay"@
    }
}

/// What stands in `s` before its first space: all of `s` where it has none.
pub open spec fn first_word_of(s: Seq<char>) -> Seq<char> {
    match find(s, " "@) {
        Some(at) => s.take(at),
        None => s,
    }
}

/// The first line of `text`, without the line feed that ends it and without
/// a carriage return before that line feed. The empty text has no line.
pub open spec fn first_line_of(text: Seq<char>) -> Option<Seq<char>> {
    if text.len() == 0 {
        None
    } else {
        match find(text, "\n"@) {
            Some(at) => if at > 0 && text[at - 1] == '\r' {
                Some(text.take(at - 1))
            } else {
                Some(text.take(at))
            },
            None => Some(text),
        }
    }
}

/// The last character of the first line of `text`, where there is one.
pub open spec fn last_char_of_first_line_of(text: Seq<char>) -> Option<char> {
    match first_line_of(text) {
        Some(line) => if line.len() > 0 {
            Some(line.last())
        } else {
            None
        },
        None => None,
    }
}

/// Puts `word` into the play language.
pub fn pig_latin(word: &str) -> (latin: String)
    ensures
        latin@ == pig_latin_of(word@),
{
    let length = word.unicode_len();
    if length == 0 {
        String::new()
    } else {
        let mut latin = String::from_str(word.substring_char(1, length));
        latin.append(word.substring_char(0, 1));
        latin.append("ay");
        assert(word@.subrange(0, 1) =~= seq![word@.first()]);
        latin
    }
}

/// The first word of `s`: what stands before its first space.
pub fn first_word(s: &str) -> (word: &str)
    ensures
        word@ == first_word_of(s@),
{
    let chars = to_chars(s);
    match find_in(&chars, &to_chars(" "), 0) {
        Some(at) => s.substring_char(0, at),
        None => s,
    }
}

/// The text that takes more bytes in UTF-8; `y` where both take as many.
pub fn longest<'a>(x: &'a str, y: &'a str) -> (longer: &'a str)
    ensures
        longer@ == (if utf8_len(x@) > utf8_len(y@) {
            x@
        } else {
            y@
        }),
{
    if x.as_bytes().len() > y.as_bytes().len() {
        x
    } else {
        y
    }
}

/// The last character of the first line of `text`. There is none where the
/// text or its first line is empty.
pub fn last_char_of_first_line(text: &str) -> (last: Option<char>)
    ensures
        last == last_char_of_first_line_of(text@),
{
    let chars = to_chars(text);
    if chars.len() == 0 {
        return None;
    }
    let end = match find_in(&chars, &to_chars("\n"), 0) {
        Some(at) => if at > 0 && chars[at - 1] == '\r' {
            at - 1
        } else {
            at
        },
        None => chars.len(),
    };
    assert(chars@.take(chars@.len() as int) =~= chars@);
    if end > 0 {
        Some(chars[end - 1])
    } else {
        None
    }
}

} // verus!
