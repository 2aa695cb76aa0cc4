//! Reading characters from bytes, done by `bstr`, and gathering characters
//! into text.

use vstd::prelude::*;
use vstd::utf8::{decode_first_scalar, length_of_first_scalar, valid_first_scalar};

verus! {

/// What `bstr::decode_utf8` returns for `bytes`: the character that the bytes
/// begin with, if they begin with one, and the number of bytes to step over.
pub uninterp spec fn utf8_first(bytes: Seq<u8>) -> (Option<char>, nat);

/// The character that stands for bytes that are no character.
pub const REPLACEMENT: char = '\u{FFFD}';

/// The character read at position `pos` of `data`, and the position after
/// it. A byte below 128 is the character of that code. Bytes that begin with
/// the well-formed encoding of a character read as that character. Other
/// bytes are no character: they read as `REPLACEMENT`, and how many of them
/// are passed over is the decoder's choice, though always at least one and
/// never more than there are.
pub open spec fn char_at(data: Seq<u8>, pos: int) -> (char, int) {
    let rest = data.subrange(pos, data.len() as int);
    if rest.len() > 0 && rest[0] < 128 {
        (rest[0] as char, pos + 1)
    } else if valid_first_scalar(rest) {
        (decode_first_scalar(rest) as char, pos + length_of_first_scalar(rest))
    } else {
        let (ch, size) = utf8_first(rest);
        let step = if 1 <= size <= rest.len() {
            size as int
        } else {
            1
        };
        (
            match ch {
                Some(c) => c,
                None => REPLACEMENT,
            },
            pos + step,
        )
    }
}

/// `bstr::decode_utf8`: decodes one character from the beginning of `bytes`.
/// For empty input it steps over nothing, else over at least one byte and no
/// more than there are. A byte below 128 is the character of that code; where
/// the bytes begin with a well-formed encoding of a character, that character
/// is returned with the length of its encoding.
#[verifier::external_body]
pub(crate) fn decode_first(bytes: &[u8]) -> (r: (Option<char>, usize))
    ensures
        (r.0, r.1 as nat) == utf8_first(bytes@),
        r.1 <= bytes@.len(),
        bytes@.len() > 0 ==> r.1 >= 1,
        bytes@.len() > 0 && bytes@[0] < 128 ==> r.0 == Some(bytes@[0] as char) && r.1 == 1,
        valid_first_scalar(bytes@) ==> r.0 == Some(decode_first_scalar(bytes@) as char) && r.1
            == length_of_first_scalar(bytes@),
{
    bstr::decode_utf8(bytes)
}

/// `String::push`: appends one character.
#[verifier::external_body]
pub(crate) fn push_char(text: &mut String, ch: char)
    ensures
        final(text)@ == old(text)@.push(ch),
{
    text.push(ch)
}

/// Reads the character at `pos`, as `char_at` says.
pub fn read_char(data: &[u8], pos: usize) -> (r: (char, usize))
    requires
        pos < data@.len(),
    ensures
        (r.0, r.1 as int) == char_at(data@, pos as int),
        pos < r.1 <= data@.len(),
{
    let rest = vstd::slice::slice_subrange(data, pos, data.len());
    let (ch, size) = decode_first(rest);
    let ch = match ch {
        Some(c) => c,
        None => REPLACEMENT,
    };
    (ch, pos + size)
}

} // verus!
