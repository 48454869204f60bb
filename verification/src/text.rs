//! Strings as characters and bytes, and the string functions that come from std.
use vstd::prelude::*;
use vstd::std_specs::iter::IteratorSpec;
use vstd::string::*;
use vstd::utf8::*;

use crate::bytes::{compare, standing_of, Standing};

verus! {

/// The bytes of a string.
pub open spec fn text_bytes(s: Seq<char>) -> Seq<u8> {
    encode_utf8(s)
}

/// The characters of a string with every letter in upper case, as Unicode has it.
pub uninterp spec fn uppercased(s: Seq<char>) -> Seq<char>;

/// A letter of the English alphabet in upper case; any other character as it is.
pub open spec fn ascii_upper(c: char) -> char {
    if 'a' <= c && c <= 'z' {
        ((c as u32 - 32) as u32) as char
    } else {
        c
    }
}

/// Only characters of the ASCII range.
pub open spec fn all_ascii(s: Seq<char>) -> bool {
    forall|i: int| 0 <= i < s.len() ==> (#[trigger] s[i]) as u32 <= 127
}

/// `str::to_uppercase` of std. The result is a function of the characters; of a string in the ASCII
/// range it is claimed that each of the letters `a` to `z` is replaced by its upper case and nothing
/// else changes.
#[verifier::external_body]
pub(crate) fn uppercase(s: &str) -> (r: String)
    ensures
        r@ == uppercased(s@),
        all_ascii(s@) ==> r@ == s@.map_values(|c: char| ascii_upper(c)),
{
    s.to_uppercase()
}

/// `String::from_utf8` of std. It is claimed that it gives the characters that the bytes encode, and
/// fails exactly if the bytes are no valid UTF-8.
#[verifier::external_body]
pub(crate) fn from_utf8(v: Vec<u8>) -> (r: Option<String>)
    ensures
        match r {
            Some(s) => valid_utf8(v@) && s@ == decode_utf8(v@),
            None => !valid_utf8(v@),
        },
{
    match String::from_utf8(v) {
        Ok(s) => Some(s),
        Err(_) => None,
    }
}

/// Reading the bytes of a string gives back the string.
pub broadcast proof fn text_roundtrip(s: Seq<char>)
    ensures
        #![trigger text_bytes(s)]
        valid_utf8(text_bytes(s)),
        decode_utf8(text_bytes(s)) == s,
{
    encode_utf8_valid_utf8(s);
    encode_utf8_decode_utf8(s);
}

/// Different strings have different bytes.
pub proof fn text_bytes_injective(a: Seq<char>, b: Seq<char>)
    requires
        text_bytes(a) == text_bytes(b),
    ensures
        a == b,
{
    text_roundtrip(a);
    text_roundtrip(b);
}

/// The bytes of a string.
pub fn bytes_of(s: &str) -> (r: &[u8])
    ensures
        r@ == text_bytes(s@),
{
    s.as_bytes()
}

/// How two strings stand to each other in the order of their bytes.
pub fn compare_texts(a: &str, b: &str) -> (r: Standing)
    ensures
        r == standing_of(text_bytes(a@), text_bytes(b@)),
        r == Standing::Same <==> a@ == b@,
{
    proof {
        if text_bytes(a@) == text_bytes(b@) {
            text_bytes_injective(a@, b@);
        }
    }
    compare(a.as_bytes(), b.as_bytes())
}

/// Whether two strings have the same characters.
pub fn same_text(a: &str, b: &str) -> (r: bool)
    ensures
        r == (a@ == b@),
{
    match compare_texts(a, b) {
        Standing::Same => true,
        _ => false,
    }
}

/// `String::push` of std. It is claimed that the character is appended and nothing else changes.
#[verifier::external_body]
pub(crate) fn push_char(s: &mut String, c: char)
    ensures
        final(s)@ == old(s)@.push(c),
{
    s.push(c)
}

/// The characters of a string.
pub fn chars_of(s: &str) -> (r: Vec<char>)
    ensures
        r@ == s@,
{
    broadcast use {axiom_spec_iter, next_postcondition};

    let mut it = s.chars();
    let mut r: Vec<char> = Vec::new();
    let mut more: bool = true;
    assert(r@ + it.remaining() =~= s@);
    while more
        invariant
            r@ + it.remaining() == s@,
            it.decrease() is Some,
            !more ==> it.remaining().len() == 0,
        decreases (if more { 1int } else { 0int }), it.decrease()->0,
    {
        let ghost before = it.remaining();
        let ghost r0 = r@;
        match it.next() {
            None => {
                more = false;
            },
            Some(c) => {
                r.push(c);
                assert(r@ + it.remaining() =~= r0 + before);
            },
        }
    }
    assert(r@ =~= s@);
    r
}

/// The string of a range of characters.
pub fn text_of(v: &Vec<char>, from: usize, to: usize) -> (r: String)
    requires
        from <= to <= v@.len(),
    ensures
        r@ == v@.subrange(from as int, to as int),
{
    let mut r = String::new();
    let mut i: usize = from;
    assert(r@ =~= v@.subrange(from as int, from as int));
    while i < to
        invariant
            from <= i <= to <= v@.len(),
            r@ == v@.subrange(from as int, i as int),
        decreases to - i,
    {
        push_char(&mut r, v[i]);
        i += 1;
        assert(r@ =~= v@.subrange(from as int, i as int));
    }
    r
}

} // verus!
