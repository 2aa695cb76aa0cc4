//! The form of a marker, as a function on bytes.
//!
//! A marker is the prefix, a suffix that names the kind of declaration, and
//! two arguments in angle brackets, separated by a comma at the top level.
//! The arguments are names of types; they may hold angle brackets and commas
//! of their own. Spaces in them do not count.

use super::scan::{first_occurrence, occurs_at};
use super::utf8::char_at;
use super::DecoderEntryKind;
use crate::validator::Mutability;
use vstd::prelude::*;

verus! {

/// What every marker begins with: the text `SaddleInternalV1DeclFor`.
pub const PREFIX: [u8; 23] = [
    83, 97, 100, 100, 108, 101, 73, 110, 116, 101, 114, 110, 97, 108, 86, 49, 68, 101, 99, 108, 70, 111, 114,
];

/// The suffix `DepRef`.
pub const SUFFIX_DEP_REF: [u8; 6] = [68, 101, 112, 82, 101, 102];

/// The suffix `DepMut`.
pub const SUFFIX_DEP_MUT: [u8; 6] = [68, 101, 112, 77, 117, 116];

/// The suffix `GrantRef`.
pub const SUFFIX_GRANT_REF: [u8; 8] = [71, 114, 97, 110, 116, 82, 101, 102];

/// The suffix `GrantMut`.
pub const SUFFIX_GRANT_MUT: [u8; 8] = [71, 114, 97, 110, 116, 77, 117, 116];

/// The suffix `Call`.
pub const SUFFIX_CALLS: [u8; 4] = [67, 97, 108, 108];

/// One decoded declaration: its kind and its two arguments.
pub struct EntryView {
    pub kind: DecoderEntryKind,
    pub arg1: Seq<char>,
    pub arg2: Seq<char>,
}

/// The suffix that names the kind `kind`.
pub open spec fn suffix_of(kind: DecoderEntryKind) -> Seq<u8> {
    match kind {
        DecoderEntryKind::Dep(Mutability::Immutable) => SUFFIX_DEP_REF@,
        DecoderEntryKind::Dep(Mutability::Mutable) => SUFFIX_DEP_MUT@,
        DecoderEntryKind::Grant(Mutability::Immutable) => SUFFIX_GRANT_REF@,
        DecoderEntryKind::Grant(Mutability::Mutable) => SUFFIX_GRANT_MUT@,
        DecoderEntryKind::Calls => SUFFIX_CALLS@,
    }
}

/// The kind whose suffix stands at `pos`, if one does. No suffix begins
/// another, so at most one stands there.
pub open spec fn kind_at(data: Seq<u8>, pos: int) -> Option<DecoderEntryKind> {
    if occurs_at(data, SUFFIX_DEP_REF@, pos) {
        Some(DecoderEntryKind::Dep(Mutability::Immutable))
    } else if occurs_at(data, SUFFIX_DEP_MUT@, pos) {
        Some(DecoderEntryKind::Dep(Mutability::Mutable))
    } else if occurs_at(data, SUFFIX_GRANT_REF@, pos) {
        Some(DecoderEntryKind::Grant(Mutability::Immutable))
    } else if occurs_at(data, SUFFIX_GRANT_MUT@, pos) {
        Some(DecoderEntryKind::Grant(Mutability::Mutable))
    } else if occurs_at(data, SUFFIX_CALLS@, pos) {
        Some(DecoderEntryKind::Calls)
    } else {
        None
    }
}

/// The position of the first character from `pos` on that is no space, or
/// the end of `data`.
pub open spec fn skip_spaces(data: Seq<u8>, pos: int) -> int
    decreases data.len() - pos,
{
    if 0 <= pos < data.len() && char_at(data, pos).0 == ' ' && char_at(data, pos).1 > pos {
        skip_spaces(data, char_at(data, pos).1)
    } else {
        pos
    }
}

/// Reads an argument from `pos` on, `depth` angle brackets deep: the text
/// read, without its spaces, and the position at which reading stopped.
/// Reading stops before a `>` or a `,` that stands outside all brackets, and
/// at the end of `data`.
pub open spec fn parse_ty(data: Seq<u8>, pos: int, depth: nat) -> (Seq<char>, int)
    decreases data.len() - pos,
{
    if 0 <= pos < data.len() && char_at(data, pos).1 > pos {
        let (ch, next) = char_at(data, pos);
        if ch == ' ' {
            parse_ty(data, next, depth)
        } else if ch == '<' {
            let (text, end) = parse_ty(data, next, depth + 1);
            (seq![ch] + text, end)
        } else if ch == '>' {
            if depth > 0 {
                let (text, end) = parse_ty(data, next, (depth - 1) as nat);
                (seq![ch] + text, end)
            } else {
                (Seq::empty(), pos)
            }
        } else if ch == ',' && depth == 0 {
            (Seq::empty(), pos)
        } else {
            let (text, end) = parse_ty(data, next, depth);
            (seq![ch] + text, end)
        }
    } else {
        (Seq::empty(), pos)
    }
}

/// The position after the character `expected`, if it stands at `pos`.
pub open spec fn expect(data: Seq<u8>, pos: int, expected: char) -> Option<int> {
    if 0 <= pos < data.len() && char_at(data, pos).0 == expected {
        Some(char_at(data, pos).1)
    } else {
        None
    }
}

/// Reads the marker whose prefix stands at `start`: its declaration and the
/// position after its closing bracket, or nothing if it is malformed.
pub open spec fn parse_marker(data: Seq<u8>, start: int) -> Option<(EntryView, int)> {
    let after_prefix = start + PREFIX@.len();
    match kind_at(data, after_prefix) {
        None => None,
        Some(kind) => {
            let after_suffix = after_prefix + suffix_of(kind).len();
            match expect(data, skip_spaces(data, after_suffix), '<') {
                None => None,
                Some(open) => {
                    let (arg1, comma) = parse_ty(data, open, 0);
                    match expect(data, comma, ',') {
                        None => None,
                        Some(second) => {
                            let (arg2, close) = parse_ty(data, second, 0);
                            match expect(data, close, '>') {
                                None => None,
                                Some(end) => Some((EntryView { kind, arg1, arg2 }, end)),
                            }
                        },
                    }
                },
            }
        },
    }
}

/// Decodes `data` from `from` on: the declarations of the markers found, in
/// order, or nothing if one of them is malformed. A prefix that stands inside
/// a marker already read does not begin a marker.
pub open spec fn decode_from(data: Seq<u8>, from: int) -> Option<Seq<EntryView>>
    decreases data.len() - from,
{
    match first_occurrence(data, PREFIX@, from) {
        None => Some(Seq::empty()),
        Some(start) => match parse_marker(data, start) {
            None => None,
            Some((entry, end)) => if from < end <= data.len() {
                match decode_from(data, end) {
                    None => None,
                    Some(rest) => Some(seq![entry] + rest),
                }
            } else {
                None
            },
        },
    }
}

/// Decodes the whole of `data`.
pub open spec fn decode(data: Seq<u8>) -> Option<Seq<EntryView>> {
    decode_from(data, 0)
}

} // verus!
