//! What the library needs of `char`, `String` and byte strings beyond what
//! `vstd` specifies.

use vstd::prelude::*;
use vstd::utf8::{encode_utf8, valid_utf8};

verus! {

/// The capital of an ASCII small letter; any other character unchanged.
pub open spec fn ascii_upper(c: char) -> char {
    if 'a' <= c <= 'z' {
        ((c as u32) - 32) as char
    } else {
        c
    }
}

/// `char::to_ascii_uppercase`, as its documentation has it: the letters
/// `a` to `z` go to `A` to `Z`, every other character stays.
pub assume_specification[ char::to_ascii_uppercase ](c: &char) -> (r: char)
    ensures
        r == ascii_upper(*c),
;

/// `String::push`: the character is appended.
pub assume_specification[ String::push ](s: &mut String, ch: char)
    ensures
        final(s)@ == old(s)@.push(ch),
;

/// `String::from_utf8`, as its documentation has it: the bytes become the
/// string that they encode, and the call fails exactly where they are not
/// valid UTF-8.
#[verifier::external_body]
pub(crate) fn string_from_utf8(bytes: Vec<u8>) -> (r: Option<String>)
    ensures
        r is Some <==> valid_utf8(bytes@),
        r matches Some(s) ==> encode_utf8(s@) == bytes@,
{
    String::from_utf8(bytes).ok()
}

/// `s` with its first character made a capital letter.
pub open spec fn capitalized(s: Seq<char>) -> Seq<char> {
    if s.len() == 0 {
        s
    } else {
        seq![ascii_upper(s[0])] + s.skip(1)
    }
}

/// Makes the first character of `s` a capital letter.
pub fn capitalize(s: &str) -> (r: String)
    ensures
        r@ == capitalized(s@),
{
    let n = s.unicode_len();
    let mut out = String::new();
    if n > 0 {
        let first = s.get_char(0);
        out.push(first.to_ascii_uppercase());
        out.append(s.substring_char(1, n));
        proof {
            assert(s@.skip(1) == s@.subrange(1, n as int));
            assert(Seq::<char>::empty().push(ascii_upper(s@[0])) == seq![ascii_upper(s@[0])]);
        }
    } else {
        proof {
            assert(s@ == Seq::<char>::empty());
        }
    }
    out
}

} // verus!
