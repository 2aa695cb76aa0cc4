//! Laws of the decoder.

use super::grammar::{
    decode, decode_from, expect, kind_at, parse_marker, parse_ty, skip_spaces, suffix_of, EntryView, PREFIX,
    SUFFIX_DEP_MUT, SUFFIX_DEP_REF, SUFFIX_GRANT_MUT, SUFFIX_GRANT_REF,
};
use super::scan::{first_occurrence, is_first_occurrence, lemma_first_occurrence, occurs_at};
use super::utf8::char_at;
use super::DecoderEntryKind;
use vstd::prelude::*;
use vstd::utf8::{
    decode_first_scalar, encode_scalar, encode_utf8, encode_utf8_first_scalar, length_of_first_scalar,
    valid_first_scalar,
};

verus! {

/// Only the first byte of the prefix is an `S`: the prefix cannot overlap
/// itself.
pub proof fn lemma_prefix_has_no_border()
    ensures
        PREFIX@.len() == 23,
        PREFIX@[0] == 83,
        forall|k: int| 1 <= k < 23 ==> PREFIX@[k] != 83,
{
}

/// Every suffix is at least four bytes long.
pub proof fn lemma_suffix_len(kind: DecoderEntryKind)
    ensures
        4 <= suffix_of(kind).len() <= 8,
{
}

/// Reading moves on.
pub proof fn lemma_char_at_moves(data: Seq<u8>, pos: int)
    requires
        0 <= pos < data.len(),
    ensures
        pos < char_at(data, pos).1,
{
    let rest = data.subrange(pos, data.len() as int);
    if !(rest[0] < 128) && valid_first_scalar(rest) {
    }
}

/// Skipping spaces never moves back.
pub proof fn lemma_skip_spaces_bounds(data: Seq<u8>, pos: int)
    ensures
        pos <= skip_spaces(data, pos),
    decreases data.len() - pos,
{
    if 0 <= pos < data.len() && char_at(data, pos).0 == ' ' && char_at(data, pos).1 > pos {
        lemma_skip_spaces_bounds(data, char_at(data, pos).1);
    }
}

/// Reading an argument never moves back.
pub proof fn lemma_parse_ty_bounds(data: Seq<u8>, pos: int, depth: nat)
    ensures
        pos <= parse_ty(data, pos, depth).1,
    decreases data.len() - pos,
{
    if 0 <= pos < data.len() && char_at(data, pos).1 > pos {
        let (ch, next) = char_at(data, pos);
        if ch == ' ' {
            lemma_parse_ty_bounds(data, next, depth);
        } else if ch == '<' {
            lemma_parse_ty_bounds(data, next, depth + 1);
        } else if ch == '>' {
            if depth > 0 {
                lemma_parse_ty_bounds(data, next, (depth - 1) as nat);
            }
        } else if ch == ',' && depth == 0 {
        } else {
            lemma_parse_ty_bounds(data, next, depth);
        }
    }
}

/// The shortest marker is thirty bytes long.
pub proof fn lemma_marker_len(data: Seq<u8>, start: int)
    requires
        0 <= start,
    ensures
        parse_marker(data, start) matches Some((_, end)) ==> start + 30 <= end,
{
    let after_prefix = start + PREFIX@.len();
    match kind_at(data, after_prefix) {
        None => {},
        Some(kind) => {
            lemma_suffix_len(kind);
            let after_suffix = after_prefix + suffix_of(kind).len();
            let bracket = skip_spaces(data, after_suffix);
            lemma_skip_spaces_bounds(data, after_suffix);
            match expect(data, bracket, '<') {
                None => {},
                Some(open) => {
                    lemma_char_at_moves(data, bracket);
                    let (arg1, comma) = parse_ty(data, open, 0);
                    lemma_parse_ty_bounds(data, open, 0);
                    match expect(data, comma, ',') {
                        None => {},
                        Some(second) => {
                            lemma_char_at_moves(data, comma);
                            let (arg2, close) = parse_ty(data, second, 0);
                            lemma_parse_ty_bounds(data, second, 0);
                            match expect(data, close, '>') {
                                None => {},
                                Some(end) => {
                                    lemma_char_at_moves(data, close);
                                },
                            }
                        },
                    }
                },
            }
        },
    }
}

/// A buffer holds at most one declaration for every thirty of its bytes.
pub proof fn lemma_decoded_count(data: Seq<u8>, from: int)
    requires
        0 <= from,
    ensures
        decode_from(data, from) matches Some(entries) ==> entries.len() * 30 <= data.len() - from || entries.len()
            == 0,
    decreases data.len() - from,
{
    lemma_first_occurrence(data, PREFIX@, from);
    match first_occurrence(data, PREFIX@, from) {
        None => {},
        Some(start) => {
            lemma_marker_len(data, start);
            match parse_marker(data, start) {
                None => {},
                Some((entry, end)) => {
                    if from < end <= data.len() {
                        lemma_decoded_count(data, end);
                    }
                },
            }
        },
    }
}


/// A character is read back from its encoding, whatever follows it.
pub proof fn lemma_char_at_encoded(data: Seq<u8>, pos: int, c: char)
    requires
        0 <= pos,
        pos + encode_scalar(c as u32).len() <= data.len(),
        data.subrange(pos, pos + encode_scalar(c as u32).len()) == encode_scalar(c as u32),
    ensures
        char_at(data, pos) == (c, pos + encode_scalar(c as u32).len()),
        1 <= encode_scalar(c as u32).len() <= 4,
{
    let enc = encode_scalar(c as u32);
    let rest = data.subrange(pos, data.len() as int);
    let alone = encode_utf8(seq![c]);
    assert(seq![c].drop_first() =~= Seq::<char>::empty());
    assert(encode_utf8(Seq::<char>::empty()) =~= Seq::<u8>::empty()) by {
        reveal_with_fuel(encode_utf8, 1);
    }
    assert(alone =~= enc) by {
        reveal_with_fuel(encode_utf8, 2);
    }
    encode_utf8_first_scalar(seq![c]);
    assert(valid_first_scalar(enc));
    assert(decode_first_scalar(enc) == c as u32);
    assert(length_of_first_scalar(enc) == enc.len());
    assert forall|i: int| 0 <= i < enc.len() implies rest[i] == enc[i] by {
        assert(data.subrange(pos, pos + enc.len())[i] == data[pos + i]);
    }
    assert(valid_first_scalar(rest));
    assert(decode_first_scalar(rest) == c as u32);
    assert(length_of_first_scalar(rest) == enc.len());
    vstd::utf8::char_u32_cast(c, decode_first_scalar(rest));
    if rest[0] < 128 {
        let b = rest[0];
        assert(b & 0x7F == b) by (bit_vector)
            requires
                b < 128,
        ;
        assert(b as u32 == c as u32);
        vstd::utf8::char_u32_cast(c, b as u32);
    }
}


/// `text` without its spaces.
pub open spec fn strip_spaces(text: Seq<char>) -> Seq<char>
    decreases text.len(),
{
    if text.len() == 0 {
        Seq::empty()
    } else if text[0] == ' ' {
        strip_spaces(text.drop_first())
    } else {
        seq![text[0]] + strip_spaces(text.drop_first())
    }
}

/// `text`, begun `depth` angle brackets deep, is a whole argument: it closes
/// every bracket that is open, closes none that is not, and has its commas
/// inside brackets.
pub open spec fn closes(text: Seq<char>, depth: nat) -> bool
    decreases text.len(),
{
    if text.len() == 0 {
        depth == 0
    } else if text[0] == '<' {
        closes(text.drop_first(), depth + 1)
    } else if text[0] == '>' {
        depth > 0 && closes(text.drop_first(), (depth - 1) as nat)
    } else if text[0] == ',' {
        depth > 0 && closes(text.drop_first(), depth)
    } else {
        closes(text.drop_first(), depth)
    }
}

/// The encoding of a text is that of its first character, then that of the
/// rest.
proof fn lemma_encode_first(text: Seq<char>)
    requires
        text.len() > 0,
    ensures
        encode_utf8(text) == encode_scalar(text[0] as u32) + encode_utf8(text.drop_first()),
{
}

/// A whole argument that stands before a `,` or a `>` is read to its end,
/// and read as its text without spaces.
pub proof fn lemma_parse_ty_reads(data: Seq<u8>, pos: int, depth: nat, text: Seq<char>)
    requires
        0 <= pos,
        closes(text, depth),
        pos + encode_utf8(text).len() < data.len(),
        data.subrange(pos, pos + encode_utf8(text).len()) == encode_utf8(text),
        data[pos + encode_utf8(text).len()] == 44 || data[pos + encode_utf8(text).len()] == 62,
    ensures
        parse_ty(data, pos, depth) == (strip_spaces(text), pos + encode_utf8(text).len()),
    decreases text.len(),
{
    let enc = encode_utf8(text);
    if text.len() == 0 {
        assert(enc =~= Seq::<u8>::empty());
        let rest = data.subrange(pos, data.len() as int);
        assert(rest[0] == data[pos]);
    } else {
        let c = text[0];
        let tail = text.drop_first();
        let head = encode_scalar(c as u32);
        lemma_encode_first(text);
        assert(data.subrange(pos, pos + head.len()) =~= head) by {
            assert forall|i: int| 0 <= i < head.len() implies data[pos + i] == head[i] by {
                assert(data.subrange(pos, pos + enc.len())[i] == enc[i]);
            }
        }
        lemma_char_at_encoded(data, pos, c);
        let next = pos + head.len();
        assert(data.subrange(next, next + encode_utf8(tail).len()) =~= encode_utf8(tail)) by {
            assert forall|i: int| 0 <= i < encode_utf8(tail).len() implies data[next + i] == encode_utf8(
                tail,
            )[i] by {
                assert(data.subrange(pos, pos + enc.len())[head.len() + i] == enc[head.len() + i]);
            }
        }
        let deeper: nat = if c == '<' {
            depth + 1
        } else if c == '>' {
            (depth - 1) as nat
        } else {
            depth
        };
        lemma_parse_ty_reads(data, next, deeper, tail);
    }
}

/// The bytes of a marker: prefix, suffix, and the two arguments in angle
/// brackets with a comma between them.
#[verifier::opaque]
pub open spec fn marker_bytes(kind: DecoderEntryKind, arg1: Seq<char>, arg2: Seq<char>) -> Seq<u8> {
    PREFIX@ + suffix_of(kind) + seq![60u8] + encode_utf8(arg1) + seq![44u8] + encode_utf8(arg2) + seq![62u8]
}

/// The declaration that a marker with the arguments `arg1` and `arg2` holds.
pub open spec fn entry_of(kind: DecoderEntryKind, arg1: Seq<char>, arg2: Seq<char>) -> EntryView {
    EntryView { kind, arg1: strip_spaces(arg1), arg2: strip_spaces(arg2) }
}

/// The suffix of a marker is read as the kind that it names.
proof fn lemma_kind_at(data: Seq<u8>, pos: int, kind: DecoderEntryKind)
    requires
        occurs_at(data, suffix_of(kind), pos),
    ensures
        kind_at(data, pos) == Some(kind),
{
    let own = suffix_of(kind);
    assert forall|i: int| 0 <= i < own.len() implies data[pos + i] == own[i] by {
        assert(data.subrange(pos, pos + own.len())[i] == own[i]);
    }
    assert(data[pos + 0] == own[0]);
    assert(data[pos + 3] == own[3]);
    if occurs_at(data, SUFFIX_DEP_REF@, pos) {
        assert(data.subrange(pos, pos + 6)[0] == SUFFIX_DEP_REF@[0]);
        assert(data.subrange(pos, pos + 6)[3] == SUFFIX_DEP_REF@[3]);
    }
    if occurs_at(data, SUFFIX_DEP_MUT@, pos) {
        assert(data.subrange(pos, pos + 6)[0] == SUFFIX_DEP_MUT@[0]);
        assert(data.subrange(pos, pos + 6)[3] == SUFFIX_DEP_MUT@[3]);
    }
    if occurs_at(data, SUFFIX_GRANT_REF@, pos) {
        assert(data.subrange(pos, pos + 8)[0] == SUFFIX_GRANT_REF@[0]);
        assert(data.subrange(pos, pos + 8)[5] == SUFFIX_GRANT_REF@[5]);
        if own.len() == 8 {
            assert(data[pos + 5] == own[5]);
        }
    }
    if occurs_at(data, SUFFIX_GRANT_MUT@, pos) {
        assert(data.subrange(pos, pos + 8)[0] == SUFFIX_GRANT_MUT@[0]);
        assert(data.subrange(pos, pos + 8)[5] == SUFFIX_GRANT_MUT@[5]);
        if own.len() == 8 {
            assert(data[pos + 5] == own[5]);
        }
    }
}

/// A well-formed marker is read as the declaration it holds, to its end.
#[verifier::rlimit(40)]
pub proof fn lemma_marker_reads(
    data: Seq<u8>,
    start: int,
    kind: DecoderEntryKind,
    arg1: Seq<char>,
    arg2: Seq<char>,
)
    requires
        closes(arg1, 0),
        closes(arg2, 0),
        occurs_at(data, marker_bytes(kind, arg1, arg2), start),
    ensures
        parse_marker(data, start) == Some(
            (entry_of(kind, arg1, arg2), start + marker_bytes(kind, arg1, arg2).len()),
        ),
{
    reveal(marker_bytes);
    let marker = marker_bytes(kind, arg1, arg2);
    let suffix = suffix_of(kind);
    let first = encode_utf8(arg1);
    let second = encode_utf8(arg2);
    let after_prefix = start + 23;
    let after_suffix = after_prefix + suffix.len();
    let open = after_suffix + 1;
    let comma = open + first.len();
    let after_comma = comma + 1;
    let close = after_comma + second.len();
    lemma_suffix_len(kind);
    assert(marker.len() == 23 + suffix.len() + 1 + first.len() + 1 + second.len() + 1);
    assert forall|i: int| 0 <= i < marker.len() implies data[start + i] == marker[i] by {
        assert(data.subrange(start, start + marker.len())[i] == marker[i]);
    }
    assert(data.subrange(after_prefix, after_prefix + suffix.len()) =~= suffix) by {
        assert forall|i: int| 0 <= i < suffix.len() implies data[after_prefix + i] == suffix[i] by {
            assert(marker[23 + i] == suffix[i]);
        }
    }
    lemma_kind_at(data, after_prefix, kind);
    // The opening bracket follows at once.
    assert(data[after_suffix] == 60) by {
        assert(marker[after_suffix - start] == 60);
    }
    assert(data.subrange(after_suffix, data.len() as int)[0] == 60);
    assert(char_at(data, after_suffix) == ('<', after_suffix + 1));
    assert(skip_spaces(data, after_suffix) == after_suffix);
    // The first argument, up to the comma.
    assert(data.subrange(open, open + first.len()) =~= first) by {
        assert forall|i: int| 0 <= i < first.len() implies data[open + i] == first[i] by {
            assert(marker[open - start + i] == first[i]);
        }
    }
    assert(data[comma] == 44) by {
        assert(marker[comma - start] == 44);
    }
    lemma_parse_ty_reads(data, open, 0, arg1);
    assert(data.subrange(comma, data.len() as int)[0] == 44);
    assert(char_at(data, comma) == (',', comma + 1));
    // The second argument, up to the closing bracket.
    assert(data.subrange(after_comma, after_comma + second.len()) =~= second) by {
        assert forall|i: int| 0 <= i < second.len() implies data[after_comma + i] == second[i] by {
            assert(marker[after_comma - start + i] == second[i]);
        }
    }
    assert(data[close] == 62) by {
        assert(marker[close - start] == 62);
    }
    lemma_parse_ty_reads(data, after_comma, 0, arg2);
    assert(data.subrange(close, data.len() as int)[0] == 62);
    assert(char_at(data, close) == ('>', close + 1));
}

/// Whitespace insensitivity: two well-formed markers of one kind whose
/// arguments differ in their spaces only hold the same declaration.
pub proof fn lemma_spaces_do_not_count(
    data: Seq<u8>,
    start: int,
    other: Seq<u8>,
    other_start: int,
    kind: DecoderEntryKind,
    arg1: Seq<char>,
    arg2: Seq<char>,
    other_arg1: Seq<char>,
    other_arg2: Seq<char>,
)
    requires
        closes(arg1, 0),
        closes(arg2, 0),
        closes(other_arg1, 0),
        closes(other_arg2, 0),
        strip_spaces(arg1) == strip_spaces(other_arg1),
        strip_spaces(arg2) == strip_spaces(other_arg2),
        occurs_at(data, marker_bytes(kind, arg1, arg2), start),
        occurs_at(other, marker_bytes(kind, other_arg1, other_arg2), other_start),
    ensures
        parse_marker(data, start) is Some,
        parse_marker(other, other_start) is Some,
        (parse_marker(data, start)->0).0 == (parse_marker(other, other_start)->0).0,
        (parse_marker(data, start)->0).0.arg1 == strip_spaces(arg1),
        (parse_marker(data, start)->0).0.arg2 == strip_spaces(arg2),
{
    lemma_marker_reads(data, start, kind, arg1, arg2);
    lemma_marker_reads(other, other_start, kind, other_arg1, other_arg2);
}


/// A marker to be written: its kind and its two arguments.
pub struct Marker {
    pub kind: DecoderEntryKind,
    pub arg1: Seq<char>,
    pub arg2: Seq<char>,
}

/// `gap` is bytes between markers: the prefix stands nowhere in it.
#[verifier::opaque]
pub open spec fn is_gap(gap: Seq<u8>) -> bool {
    forall|i: int| !occurs_at(gap, PREFIX@, i)
}

/// The buffer that holds `markers` in order, with `gaps[i]` before the
/// `i`-th marker and the last of `gaps` after the last marker.
pub open spec fn buffer_of(gaps: Seq<Seq<u8>>, markers: Seq<Marker>) -> Seq<u8>
    decreases markers.len(),
{
    if markers.len() == 0 || gaps.len() == 0 {
        if gaps.len() == 0 {
            Seq::empty()
        } else {
            gaps[0]
        }
    } else {
        gaps[0] + marker_bytes(markers[0].kind, markers[0].arg1, markers[0].arg2) + buffer_of(
            gaps.drop_first(),
            markers.drop_first(),
        )
    }
}

/// The declarations that `markers` hold.
pub open spec fn entries_of(markers: Seq<Marker>) -> Seq<EntryView> {
    Seq::new(markers.len(), |i: int| entry_of(markers[i].kind, markers[i].arg1, markers[i].arg2))
}

/// No prefix begins in a gap that stands before a marker or at the end of
/// the buffer.
proof fn lemma_no_prefix_in_gap(data: Seq<u8>, from: int, gap: Seq<u8>, j: int)
    requires
        0 <= from,
        is_gap(gap),
        from + gap.len() <= data.len(),
        data.subrange(from, from + gap.len()) == gap,
        from + gap.len() == data.len() || data[from + gap.len()] == 83,
        from <= j < from + gap.len(),
    ensures
        !occurs_at(data, PREFIX@, j),
{
    reveal(is_gap);
    lemma_prefix_has_no_border();
    if occurs_at(data, PREFIX@, j) {
        let found = data.subrange(j, j + 23);
        if j + 23 <= from + gap.len() {
            assert(gap.subrange(j - from, j - from + 23) =~= PREFIX@) by {
                assert forall|i: int| 0 <= i < 23 implies gap[j - from + i] == PREFIX@[i] by {
                    assert(data.subrange(from, from + gap.len())[j - from + i] == data[j + i]);
                    assert(found[i] == data[j + i]);
                }
            }
            assert(occurs_at(gap, PREFIX@, j - from));
        } else {
            let k = from + gap.len() - j;
            assert(found[k] == data[from + gap.len()]);
            assert(PREFIX@[k] == 83);
        }
    }
}

/// A marker begins with the prefix.
proof fn lemma_marker_begins(kind: DecoderEntryKind, arg1: Seq<char>, arg2: Seq<char>)
    ensures
        marker_bytes(kind, arg1, arg2).len() >= 30,
        marker_bytes(kind, arg1, arg2).subrange(0, 23) == PREFIX@,
{
    reveal(marker_bytes);
    lemma_suffix_len(kind);
    let marker = marker_bytes(kind, arg1, arg2);
    assert(marker.subrange(0, 23) =~= PREFIX@);
}

/// Where a gap ends the buffer, nothing more is decoded.
proof fn lemma_decode_end(data: Seq<u8>, from: int, gap: Seq<u8>)
    requires
        0 <= from,
        is_gap(gap),
        from + gap.len() == data.len(),
        data.subrange(from, from + gap.len()) == gap,
    ensures
        decode_from(data, from) == Some(Seq::<EntryView>::empty()),
{
    lemma_first_occurrence(data, PREFIX@, from);
    assert forall|j: int| from <= j implies !occurs_at(data, PREFIX@, j) by {
        if j < from + gap.len() {
            lemma_no_prefix_in_gap(data, from, gap, j);
        }
    }
}

/// Where a gap and a well-formed marker follow, the marker's declaration is
/// decoded next, and decoding goes on behind the marker.
proof fn lemma_decode_step(
    data: Seq<u8>,
    from: int,
    gap: Seq<u8>,
    kind: DecoderEntryKind,
    arg1: Seq<char>,
    arg2: Seq<char>,
)
    requires
        0 <= from,
        is_gap(gap),
        closes(arg1, 0),
        closes(arg2, 0),
        from + gap.len() <= data.len(),
        data.subrange(from, from + gap.len()) == gap,
        occurs_at(data, marker_bytes(kind, arg1, arg2), from + gap.len()),
    ensures
        decode_from(data, from) == (match decode_from(
            data,
            from + gap.len() + marker_bytes(kind, arg1, arg2).len(),
        ) {
            Some(rest) => Some(seq![entry_of(kind, arg1, arg2)] + rest),
            None => None,
        }),
{
    let marker = marker_bytes(kind, arg1, arg2);
    let start = from + gap.len();
    lemma_marker_begins(kind, arg1, arg2);
    lemma_prefix_has_no_border();
    assert forall|i: int| 0 <= i < 23 implies data[start + i] == PREFIX@[i] by {
        assert(data.subrange(start, start + marker.len())[i] == marker[i]);
        assert(marker.subrange(0, 23)[i] == marker[i]);
    }
    assert(data.subrange(start, start + 23) =~= PREFIX@);
    assert(data[start + 0] == PREFIX@[0]);
    assert forall|j: int| from <= j < start implies !occurs_at(data, PREFIX@, j) by {
        lemma_no_prefix_in_gap(data, from, gap, j);
    }
    assert(is_first_occurrence(data, PREFIX@, from, start));
    lemma_first_occurrence(data, PREFIX@, from);
    lemma_marker_reads(data, start, kind, arg1, arg2);
}

/// How a buffer with at least one marker is laid out behind `head`: the
/// first gap, the first marker, and a buffer of the same form.
proof fn lemma_buffer_layout(head: Seq<u8>, gaps: Seq<Seq<u8>>, markers: Seq<Marker>)
    requires
        gaps.len() == markers.len() + 1,
        markers.len() > 0,
    ensures
        ({
            let data = head + buffer_of(gaps, markers);
            let marker = marker_bytes(markers[0].kind, markers[0].arg1, markers[0].arg2);
            let start = (head.len() + gaps[0].len()) as int;
            &&& start + marker.len() <= data.len()
            &&& data.subrange(head.len() as int, start) == gaps[0]
            &&& occurs_at(data, marker, start)
            &&& data == (head + gaps[0] + marker) + buffer_of(gaps.drop_first(), markers.drop_first())
            &&& (head + gaps[0] + marker).len() == start + marker.len()
        }),
{
    let data = head + buffer_of(gaps, markers);
    let marker = marker_bytes(markers[0].kind, markers[0].arg1, markers[0].arg2);
    let rest = buffer_of(gaps.drop_first(), markers.drop_first());
    let start = (head.len() + gaps[0].len()) as int;
    assert(buffer_of(gaps, markers) == gaps[0] + marker + rest);
    assert(data.subrange(head.len() as int, start) =~= gaps[0]);
    assert(data.subrange(start, start + marker.len()) =~= marker);
    assert(data =~= (head + gaps[0] + marker) + rest);
}

/// How a buffer without markers is laid out behind `head`: one gap.
proof fn lemma_buffer_end(head: Seq<u8>, gaps: Seq<Seq<u8>>, markers: Seq<Marker>)
    requires
        gaps.len() == 1,
        markers.len() == 0,
    ensures
        ({
            let data = head + buffer_of(gaps, markers);
            &&& head.len() + gaps[0].len() == data.len()
            &&& data.subrange(head.len() as int, (head.len() + gaps[0].len()) as int) == gaps[0]
        }),
{
    let data = head + buffer_of(gaps, markers);
    assert(data.subrange(head.len() as int, (head.len() + gaps[0].len()) as int) =~= gaps[0]);
}

/// The declarations of markers are that of the first, then those of the rest.
proof fn lemma_entries_of(markers: Seq<Marker>)
    requires
        markers.len() > 0,
    ensures
        entries_of(markers) == seq![entry_of(markers[0].kind, markers[0].arg1, markers[0].arg2)] + entries_of(
            markers.drop_first(),
        ),
{
    assert(entries_of(markers) =~= seq![entry_of(markers[0].kind, markers[0].arg1, markers[0].arg2)]
        + entries_of(markers.drop_first()));
}

/// The gaps are gaps, and the arguments of the markers are whole arguments.
pub open spec fn well_formed(gaps: Seq<Seq<u8>>, markers: Seq<Marker>) -> bool {
    &&& gaps.len() == markers.len() + 1
    &&& forall|i: int| 0 <= i < gaps.len() ==> is_gap(#[trigger] gaps[i])
    &&& forall|i: int|
        0 <= i < markers.len() ==> closes((#[trigger] markers[i]).arg1, 0) && closes(markers[i].arg2, 0)
}

/// What is left of well-formed gaps and markers behind the first marker is
/// well formed.
proof fn lemma_well_formed_rest(gaps: Seq<Seq<u8>>, markers: Seq<Marker>)
    requires
        well_formed(gaps, markers),
        markers.len() > 0,
    ensures
        well_formed(gaps.drop_first(), markers.drop_first()),
        is_gap(gaps[0]),
        closes(markers[0].arg1, 0),
        closes(markers[0].arg2, 0),
{
    assert forall|i: int| 0 <= i < gaps.drop_first().len() implies is_gap(#[trigger] gaps.drop_first()[i]) by {
        assert(gaps.drop_first()[i] == gaps[i + 1]);
    }
    assert forall|i: int| 0 <= i < markers.drop_first().len() implies closes(
        (#[trigger] markers.drop_first()[i]).arg1,
        0,
    ) && closes(markers.drop_first()[i].arg2, 0) by {
        assert(markers.drop_first()[i] == markers[i + 1]);
    }
}

/// Decoder roundtrip, from any place in a buffer: where well-formed markers
/// follow, with gaps between them that do not hold the prefix, the decoder
/// emits the declarations of the markers, in order.
pub proof fn lemma_roundtrip_from(head: Seq<u8>, gaps: Seq<Seq<u8>>, markers: Seq<Marker>)
    requires
        well_formed(gaps, markers),
    ensures
        decode_from(head + buffer_of(gaps, markers), head.len() as int) == Some(entries_of(markers)),
    decreases markers.len(),
{
    let data = head + buffer_of(gaps, markers);
    let from = head.len() as int;
    if markers.len() == 0 {
        lemma_buffer_end(head, gaps, markers);
        assert(is_gap(gaps[0]));
        lemma_decode_end(data, from, gaps[0]);
        assert(entries_of(markers) =~= Seq::<EntryView>::empty());
    } else {
        let m = markers[0];
        let marker = marker_bytes(m.kind, m.arg1, m.arg2);
        lemma_well_formed_rest(gaps, markers);
        lemma_buffer_layout(head, gaps, markers);
        lemma_decode_step(data, from, gaps[0], m.kind, m.arg1, m.arg2);
        lemma_roundtrip_from(head + gaps[0] + marker, gaps.drop_first(), markers.drop_first());
        lemma_entries_of(markers);
    }
}

/// Decoder roundtrip: from a buffer made of well-formed markers, with bytes
/// between them that do not hold the prefix, the decoder emits exactly the
/// declarations of the markers, in order.
pub proof fn lemma_roundtrip(gaps: Seq<Seq<u8>>, markers: Seq<Marker>)
    requires
        well_formed(gaps, markers),
    ensures
        decode(buffer_of(gaps, markers)) == Some(entries_of(markers)),
{
    lemma_roundtrip_from(Seq::empty(), gaps, markers);
    assert(Seq::<u8>::empty() + buffer_of(gaps, markers) =~= buffer_of(gaps, markers));
}


} // verus!
