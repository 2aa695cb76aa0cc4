use cargo_saddle::decoder::{decode_binary, DecodeError, DecoderEntry, DecoderEntryKind};
use cargo_saddle::validator::Mutability;

fn triples(entries: &[DecoderEntry]) -> Vec<(DecoderEntryKind, &str, &str)> {
    entries.iter().map(|e| (e.kind, e.arg1.as_str(), e.arg2.as_str())).collect()
}

#[test]
fn each_suffix_names_its_kind() {
    let data = b"SaddleInternalV1DeclForDepRef<A,B>\
                 SaddleInternalV1DeclForDepMut<A,B>\
                 SaddleInternalV1DeclForGrantRef<A,B>\
                 SaddleInternalV1DeclForGrantMut<A,B>\
                 SaddleInternalV1DeclForCall<A,B>";
    let entries = decode_binary(data).unwrap();
    assert_eq!(
        triples(&entries),
        vec![
            (DecoderEntryKind::Dep(Mutability::Immutable), "A", "B"),
            (DecoderEntryKind::Dep(Mutability::Mutable), "A", "B"),
            (DecoderEntryKind::Grant(Mutability::Immutable), "A", "B"),
            (DecoderEntryKind::Grant(Mutability::Mutable), "A", "B"),
            (DecoderEntryKind::Calls, "A", "B"),
        ]
    );
}

#[test]
fn markers_are_found_among_other_bytes() {
    let mut data = vec![0u8, 255, 7, b'S', b'a'];
    data.extend_from_slice(b"demo::SaddleInternalV1DeclForCall<demo::Main, demo::Leaf>");
    data.extend_from_slice(&[0, 0, 0xE2, 0x98]);
    data.extend_from_slice(b"SaddleInternalV1DeclForDepMut<demo::Leaf,u32>\0tail");
    let entries = decode_binary(&data).unwrap();
    assert_eq!(
        triples(&entries),
        vec![
            (DecoderEntryKind::Calls, "demo::Main", "demo::Leaf"),
            (DecoderEntryKind::Dep(Mutability::Mutable), "demo::Leaf", "u32"),
        ]
    );
}

#[test]
fn nested_brackets_and_commas_belong_to_the_argument() {
    let data = b"SaddleInternalV1DeclForDepRef<Disamb<Scope<T, U>, 3, 4>, Map<K, Vec<V>>>";
    let entries = decode_binary(data).unwrap();
    assert_eq!(
        triples(&entries),
        vec![(DecoderEntryKind::Dep(Mutability::Immutable), "Disamb<Scope<T,U>,3,4>", "Map<K,Vec<V>>")]
    );
}

#[test]
fn spaces_do_not_count() {
    let tight = decode_binary(b"SaddleInternalV1DeclForCall<A<B>,C>").unwrap();
    let loose = decode_binary(b"SaddleInternalV1DeclForCall  <  A < B > , C  >").unwrap();
    assert_eq!(triples(&tight), triples(&loose));
    assert_eq!(triples(&loose), vec![(DecoderEntryKind::Calls, "A<B>", "C")]);
}

#[test]
fn a_prefix_inside_a_marker_begins_no_marker() {
    let data = b"SaddleInternalV1DeclForCall<SaddleInternalV1DeclForBogus,B>";
    let entries = decode_binary(data).unwrap();
    assert_eq!(triples(&entries), vec![(DecoderEntryKind::Calls, "SaddleInternalV1DeclForBogus", "B")]);
}

#[test]
fn characters_beyond_ascii_are_kept() {
    let data = "SaddleInternalV1DeclForDepRef<caf\u{e9}::Sc\u{f8}pe, \u{2603}<\u{1D783}>>".as_bytes();
    let entries = decode_binary(data).unwrap();
    assert_eq!(
        triples(&entries),
        vec![(DecoderEntryKind::Dep(Mutability::Immutable), "caf\u{e9}::Sc\u{f8}pe", "\u{2603}<\u{1D783}>")]
    );
}

#[test]
fn bytes_that_are_no_character_read_as_the_replacement_character() {
    let mut data = b"SaddleInternalV1DeclForCall<A".to_vec();
    data.push(0xFF);
    data.extend_from_slice(b",B>");
    let entries = decode_binary(&data).unwrap();
    assert_eq!(triples(&entries), vec![(DecoderEntryKind::Calls, "A\u{FFFD}", "B")]);
}

#[test]
fn no_marker_gives_no_entry() {
    assert!(decode_binary(b"").unwrap().is_empty());
    assert!(decode_binary(b"SaddleInternalV1DeclFo<A,B>").unwrap().is_empty());
}

#[test]
fn unknown_suffix_is_malformed() {
    assert_eq!(decode_binary(b"SaddleInternalV1DeclForOther<A,B>").unwrap_err(), DecodeError::Malformed);
    assert_eq!(decode_binary(b"SaddleInternalV1DeclFor").unwrap_err(), DecodeError::Malformed);
}

#[test]
fn missing_bracket_or_comma_is_malformed() {
    for data in [
        &b"SaddleInternalV1DeclForCall A,B>"[..],
        b"SaddleInternalV1DeclForCall<A>",
        b"SaddleInternalV1DeclForCall<A,B",
        b"SaddleInternalV1DeclForCall<A,B,C>",
        b"SaddleInternalV1DeclForCall<A<B,C>",
        b"SaddleInternalV1DeclForCall<",
    ] {
        assert_eq!(decode_binary(data).unwrap_err(), DecodeError::Malformed);
    }
}

#[test]
fn a_malformed_marker_after_good_ones_fails_the_scan() {
    let data = b"SaddleInternalV1DeclForCall<A,B> SaddleInternalV1DeclForCall<A";
    assert_eq!(decode_binary(data).unwrap_err(), DecodeError::Malformed);
}

#[test]
fn the_message_of_a_malformed_marker() {
    assert_eq!(DecodeError::Malformed.message(), "Malformed Saddle marker in binary");
}
