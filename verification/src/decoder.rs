//! The directive decoder: finds the markers that a program left in its binary
//! and reads the declaration that each one holds.

use crate::validator::Mutability;
use vstd::prelude::*;

pub mod grammar;
pub mod laws;
pub mod scan;
pub mod utf8;

use self::grammar::{
    decode, decode_from, expect, kind_at, parse_marker, skip_spaces, suffix_of, EntryView, PREFIX,
    SUFFIX_CALLS, SUFFIX_DEP_MUT, SUFFIX_DEP_REF, SUFFIX_GRANT_MUT, SUFFIX_GRANT_REF,
};
use self::scan::{find_from, occurs_at};
use self::utf8::{push_char, read_char};

verus! {

/// The kind of a declaration.
#[derive(Debug, Copy, Clone, PartialEq, Eq, Structural)]
pub enum DecoderEntryKind {
    /// The first argument, a scope, borrows the second, a component.
    Dep(Mutability),
    /// The first argument, a scope, grants the second, a component.
    Grant(Mutability),
    /// The first argument, a scope, calls the second, a scope.
    Calls,
}

/// One decoded declaration.
#[derive(Debug)]
pub struct DecoderEntry {
    pub kind: DecoderEntryKind,
    pub arg1: String,
    pub arg2: String,
}

impl View for DecoderEntry {
    type V = EntryView;

    open spec fn view(&self) -> EntryView {
        EntryView { kind: self.kind, arg1: self.arg1@, arg2: self.arg2@ }
    }
}

/// The models of decoded declarations.
pub open spec fn entry_views(entries: Seq<DecoderEntry>) -> Seq<EntryView> {
    Seq::new(entries.len(), |i: int| entries[i]@)
}

/// Why decoding failed.
#[derive(Debug, Copy, Clone, PartialEq, Eq, Structural)]
pub enum DecodeError {
    /// A marker's prefix is not followed by a well-formed declaration.
    Malformed,
}

impl DecodeError {
    /// The message for this error.
    pub fn message(&self) -> (r: &'static str)
        ensures
            r@ == "Malformed Saddle marker in binary"@,
    {
        "Malformed Saddle marker in binary"
    }
}

/// Whether `pattern` stands in `data` at `pos`.
fn matches_at(data: &[u8], pos: usize, pattern: &[u8]) -> (r: bool)
    ensures
        r == occurs_at(data@, pattern@, pos as int),
        r ==> pos + pattern@.len() <= usize::MAX,
{
    if pattern.len() > data.len() || pos > data.len() - pattern.len() {
        return false;
    }
    let mut i: usize = 0;
    while i < pattern.len()
        invariant
            i <= pattern@.len(),
            pos + pattern@.len() <= data@.len(),
            data@.len() <= usize::MAX,
            forall|k: int| 0 <= k < i ==> data@[pos + k] == pattern@[k],
        decreases pattern@.len() - i,
    {
        if data[pos + i] != pattern[i] {
            proof {
                assert(data@.subrange(pos as int, pos + pattern@.len())[i as int] == data@[pos + i]);
            }
            return false;
        }
        i += 1;
    }
    proof {
        assert(data@.subrange(pos as int, pos + pattern@.len()) =~= pattern@);
    }
    true
}

/// The kind whose suffix stands at `pos`, and the position after the suffix.
fn classify(data: &[u8], pos: usize) -> (r: Option<(DecoderEntryKind, usize)>)
    ensures
        match r {
            Some((kind, next)) => kind_at(data@, pos as int) == Some(kind) && next == pos + suffix_of(kind).len()
                && next <= data@.len(),
            None => kind_at(data@, pos as int) is None,
        },
{
    let dep_ref = SUFFIX_DEP_REF.as_slice();
    let dep_mut = SUFFIX_DEP_MUT.as_slice();
    let grant_ref = SUFFIX_GRANT_REF.as_slice();
    let grant_mut = SUFFIX_GRANT_MUT.as_slice();
    let calls = SUFFIX_CALLS.as_slice();
    if matches_at(data, pos, dep_ref) {
        Some((DecoderEntryKind::Dep(Mutability::Immutable), pos + dep_ref.len()))
    } else if matches_at(data, pos, dep_mut) {
        Some((DecoderEntryKind::Dep(Mutability::Mutable), pos + dep_mut.len()))
    } else if matches_at(data, pos, grant_ref) {
        Some((DecoderEntryKind::Grant(Mutability::Immutable), pos + grant_ref.len()))
    } else if matches_at(data, pos, grant_mut) {
        Some((DecoderEntryKind::Grant(Mutability::Mutable), pos + grant_mut.len()))
    } else if matches_at(data, pos, calls) {
        Some((DecoderEntryKind::Calls, pos + calls.len()))
    } else {
        None
    }
}

/// The position of the first character from `pos` on that is no space.
fn skip_blank(data: &[u8], pos: usize) -> (r: usize)
    requires
        pos <= data@.len(),
    ensures
        r == skip_spaces(data@, pos as int),
        pos <= r <= data@.len(),
{
    let mut cursor = pos;
    while cursor < data.len()
        invariant
            pos <= cursor <= data@.len(),
            skip_spaces(data@, cursor as int) == skip_spaces(data@, pos as int),
        decreases data@.len() - cursor,
    {
        let (ch, next) = read_char(data, cursor);
        if ch != ' ' {
            return cursor;
        }
        cursor = next;
    }
    cursor
}

/// The position after the character `expected`, if it stands at `pos`.
fn expect_char(data: &[u8], pos: usize, expected: char) -> (r: Option<usize>)
    requires
        pos <= data@.len(),
    ensures
        match r {
            Some(next) => expect(data@, pos as int, expected) == Some(next as int) && pos < next <= data@.len(),
            None => expect(data@, pos as int, expected) is None,
        },
{
    if pos >= data.len() {
        return None;
    }
    let (ch, next) = read_char(data, pos);
    if ch == expected {
        Some(next)
    } else {
        None
    }
}

/// Reads an argument from `start` on: its text without spaces, and the
/// position at which reading stopped.
fn parse_ty(data: &[u8], start: usize) -> (r: (String, usize))
    requires
        start <= data@.len(),
    ensures
        (r.0@, r.1 as int) == grammar::parse_ty(data@, start as int, 0),
        start <= r.1 <= data@.len(),
{
    let mut collector = String::new();
    let mut generic_level: usize = 0;
    let mut cursor = start;
    let ghost whole = grammar::parse_ty(data@, start as int, 0);
    proof {
        assert(collector@ + whole.0 =~= whole.0);
    }
    while cursor < data.len()
        invariant
            start <= cursor <= data@.len(),
            generic_level <= cursor - start,
            whole == grammar::parse_ty(data@, start as int, 0),
            collector@ + grammar::parse_ty(data@, cursor as int, generic_level as nat).0 == whole.0,
            grammar::parse_ty(data@, cursor as int, generic_level as nat).1 == whole.1,
        ensures
            start <= cursor <= data@.len(),
            collector@ == whole.0,
            cursor == whole.1,
        decreases data@.len() - cursor,
    {
        let (ch, next) = read_char(data, cursor);
        let ghost before = collector@;
        let ghost rest_before = grammar::parse_ty(data@, cursor as int, generic_level as nat);
        if ch == ' ' {
            cursor = next;
            continue ;
        } else if ch == '<' {
            generic_level += 1;
            cursor = next;
        } else if ch == '>' {
            if generic_level > 0 {
                generic_level -= 1;
                cursor = next;
            } else {
                proof {
                    assert(rest_before.0 =~= Seq::<char>::empty());
                    assert(collector@ + rest_before.0 =~= collector@);
                }
                break ;
            }
        } else if ch == ',' && generic_level == 0 {
            proof {
                assert(rest_before.0 =~= Seq::<char>::empty());
                assert(collector@ + rest_before.0 =~= collector@);
            }
            break ;
        } else {
            cursor = next;
        }
        push_char(&mut collector, ch);
        proof {
            let rest_after = grammar::parse_ty(data@, cursor as int, generic_level as nat);
            assert(rest_before.0 =~= seq![ch] + rest_after.0);
            assert(collector@ + rest_after.0 =~= before + rest_before.0);
        }
    }
    (collector, cursor)
}

/// Reads the marker whose prefix stands at `start`.
fn read_marker(data: &[u8], start: usize) -> (r: Option<(DecoderEntry, usize)>)
    requires
        occurs_at(data@, PREFIX@, start as int),
        start + PREFIX@.len() <= usize::MAX,
    ensures
        match r {
            Some((entry, end)) => parse_marker(data@, start as int) == Some((entry@, end as int)) && start
                < end <= data@.len(),
            None => parse_marker(data@, start as int) is None,
        },
{
    let prefix = PREFIX.as_slice();
    let cursor = start + prefix.len();
    // The kind of declaration.
    let (kind, cursor) = match classify(data, cursor) {
        Some(found) => found,
        None => {
            return None;
        },
    };
    // The two arguments, in angle brackets.
    let cursor = skip_blank(data, cursor);
    let cursor = match expect_char(data, cursor, '<') {
        Some(next) => next,
        None => {
            return None;
        },
    };
    let (ty_1, cursor) = parse_ty(data, cursor);
    let cursor = match expect_char(data, cursor, ',') {
        Some(next) => next,
        None => {
            return None;
        },
    };
    let (ty_2, cursor) = parse_ty(data, cursor);
    let cursor = match expect_char(data, cursor, '>') {
        Some(next) => next,
        None => {
            return None;
        },
    };
    Some((DecoderEntry { kind, arg1: ty_1, arg2: ty_2 }, cursor))
}

/// Scans `data` for markers and decodes the declaration that each one holds,
/// in the order in which the markers stand. A marker's prefix that stands
/// inside a marker already decoded is passed over. The first malformed marker
/// ends the scan with an error.
pub fn decode_binary(data: &[u8]) -> (r: Result<Vec<DecoderEntry>, DecodeError>)
    ensures
        match r {
            Ok(entries) => decode(data@) == Some(entry_views(entries@)),
            Err(_) => decode(data@) is None,
        },
{
    let prefix = PREFIX.as_slice();
    let mut entries: Vec<DecoderEntry> = Vec::new();
    let mut min_offset: usize = 0;
    proof {
        assert(entry_views(entries@) =~= Seq::<EntryView>::empty());
        match decode_from(data@, 0) {
            Some(rest) => {
                assert(entry_views(entries@) + rest =~= rest);
            },
            None => {},
        }
    }
    loop
        invariant
            prefix@ == PREFIX@,
            min_offset <= data@.len(),
            match decode_from(data@, min_offset as int) {
                Some(rest) => decode(data@) == Some(entry_views(entries@) + rest),
                None => decode(data@) is None,
            },
        decreases data@.len() - min_offset,
    {
        let start_offset = match find_from(data, prefix, min_offset) {
            Some(found) => found,
            None => {
                proof {
                    assert(entry_views(entries@) + Seq::<EntryView>::empty() =~= entry_views(entries@));
                }
                return Ok(entries);
            },
        };
        proof {
            scan::lemma_first_occurrence(data@, PREFIX@, min_offset as int);
        }
        let (entry, end) = match read_marker(data, start_offset) {
            Some(read) => read,
            None => {
                return Err(DecodeError::Malformed);
            },
        };
        let ghost before = entry_views(entries@);
        let ghost view = entry@;
        entries.push(entry);
        proof {
            assert(entry_views(entries@) =~= before.push(view));
            match decode_from(data@, end as int) {
                Some(rest) => {
                    assert(before + (seq![view] + rest) =~= entry_views(entries@) + rest);
                },
                None => {},
            }
        }
        min_offset = end;
    }
}


} // verus!
