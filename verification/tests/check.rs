use cargo_saddle::check::{build, check_binary, check_entries, CheckError};
use cargo_saddle::decoder::{decode_binary, DecoderEntry, DecoderEntryKind};
use cargo_saddle::validator::{Mutability, ScopeId};

fn entry(kind: DecoderEntryKind, arg1: &str, arg2: &str) -> DecoderEntry {
    DecoderEntry { kind, arg1: arg1.to_string(), arg2: arg2.to_string() }
}

#[test]
fn a_binary_without_markers_has_no_directives() {
    assert!(matches!(check_binary(b"nothing to see"), Err(CheckError::NoDirectives)));
    assert!(matches!(check_entries(&Vec::new()), Err(CheckError::NoDirectives)));
}

#[test]
fn a_malformed_marker_is_surfaced() {
    assert!(matches!(check_binary(b"SaddleInternalV1DeclForCall<A"), Err(CheckError::Malformed)));
}

#[test]
fn a_valid_binary_is_accepted() {
    let data = b"SaddleInternalV1DeclForCall<Root,A>\0SaddleInternalV1DeclForCall<Root,B>\0\
                 SaddleInternalV1DeclForDepRef<A,X>\0SaddleInternalV1DeclForDepRef<B,X>";
    assert!(check_binary(data).is_ok());
}

#[test]
fn a_conflict_in_a_binary_is_traced() {
    let data = b"SaddleInternalV1DeclForDepMut<Root,X>SaddleInternalV1DeclForCall<Root,A>\
                 SaddleInternalV1DeclForDepRef<A,X>";
    match check_binary(data) {
        Err(CheckError::BorrowConflict(text)) => assert_eq!(
            text,
            "Failed to validate the scope graph:\n\n\
             The scope A defined at <unknown> borrows the component X immutably even though it may have already been borrowed mutably.\n    \
             - This scope could have borrowed the component immutably at location <unknown>.\n    \
             - The scope Root defined at <unknown> may have called it while the component was held mutably.\n    \
             \x20 Hint: the following scopes may have been responsible for the aforementioned call...\n        \
             - <unknown>\n    \
             \x20 Tracing back responsibility...\n        \
             - This scope could have borrowed the component mutably at location <unknown>.\n\n\n"
        ),
        other => panic!("expected a borrow conflict, got {:?}", other),
    }
}

#[test]
fn a_grant_in_a_binary_neutralizes() {
    let data = b"SaddleInternalV1DeclForDepMut<Root,X>SaddleInternalV1DeclForCall<Root,A>\
                 SaddleInternalV1DeclForGrantMut<A,X>SaddleInternalV1DeclForDepRef<A,X>";
    assert!(check_binary(data).is_ok());
}

#[test]
fn a_cycle_in_a_binary_is_reported() {
    let data = b"SaddleInternalV1DeclForCall<P,Q>SaddleInternalV1DeclForCall<Q,P>";
    match check_binary(data) {
        Err(CheckError::Cycle(text)) => {
            assert!(text.contains("Cycle 1:\n"));
            assert!(text.contains("    - Scope Q through the invocation declared at <unknown>\n"));
            assert!(text.contains("    - Scope P through the invocation declared at <unknown>\n"));
            assert!(!text.contains("Cycle 2:"));
        }
        other => panic!("expected a cycle, got {:?}", other),
    }
}

#[test]
fn many_cycles_are_numbered_in_decimal() {
    let mut entries = Vec::new();
    for i in 0..12 {
        let name = format!("S{}", i);
        entries.push(entry(DecoderEntryKind::Calls, &name, &name));
    }
    match check_entries(&entries) {
        Err(CheckError::Cycle(text)) => {
            for i in 1..=12 {
                assert!(text.contains(&format!("Cycle {}:\n", i)));
            }
            assert!(!text.contains("Cycle 13:"));
            assert!(!text.contains("Cycle 0:"));
        }
        other => panic!("expected cycles, got {:?}", other),
    }
}

#[test]
fn build_registers_what_the_entries_name() {
    let entries = vec![
        entry(DecoderEntryKind::Calls, "Root", "Leaf"),
        entry(DecoderEntryKind::Dep(Mutability::Mutable), "Leaf", "X"),
        entry(DecoderEntryKind::Grant(Mutability::Immutable), "Root", "Y"),
    ];
    let validator = build(&entries);
    assert_eq!(validator.scope_count(), 2);
    assert_eq!(validator.call_count(), 1);
    assert_eq!(validator.scope_handle(&ScopeId("Root".to_string(), [])), Some(0));
    assert_eq!(validator.scope_handle(&ScopeId("Leaf".to_string(), [])), Some(1));
    assert_eq!(validator.scope_handle(&ScopeId("X".to_string(), [])), None);
    assert!(validator.validate().is_ok());
}

#[test]
fn decoding_then_checking_equals_checking_the_binary() {
    let data = b"SaddleInternalV1DeclForDepMut<Root,X>SaddleInternalV1DeclForCall<Root,A>\
                 SaddleInternalV1DeclForDepMut<A,X>";
    let entries = decode_binary(data).unwrap();
    let direct = format!("{:?}", check_binary(data));
    let staged = format!("{:?}", check_entries(&entries));
    assert_eq!(direct, staged);
}

#[test]
fn messages_of_errors() {
    assert_eq!(CheckError::Malformed.message(), "Malformed Saddle marker in binary");
    assert_eq!(
        CheckError::NoDirectives.message(),
        "Did not find any saddle directives while scanning binary."
    );
    assert_eq!(CheckError::Cycle("cycle text".to_string()).message(), "cycle text");
    assert_eq!(CheckError::BorrowConflict("conflict text".to_string()).message(), "conflict text");
}
