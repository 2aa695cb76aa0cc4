use cargo_saddle::scope::{mark_as_must_use, BoundScopeProof};
use cargo_saddle::validator::{
    BorrowMeta, CallMeta, ComponentId, ConflictLine, CycleLine, Mutability, ScopeId, ValidationError, Validator,
};

fn scope(name: &str) -> ScopeId<'static> {
    ScopeId(name.to_string(), [])
}

fn component(name: &str) -> ComponentId<'static> {
    ComponentId(name.to_string(), [])
}

fn diamond() -> Validator<'static> {
    // Root calls Left and Right, both call Leaf.
    let mut v = Validator::new();
    for (from, to) in [("Root", "Left"), ("Root", "Right"), ("Left", "Leaf"), ("Right", "Leaf")] {
        v.push_call_edge(scope(from), scope(to), CallMeta { def_path: "call" });
    }
    v.push_access(
        scope("Left"),
        component("X"),
        Mutability::Mutable,
        BorrowMeta { def_path: "left", mutability: Mutability::Mutable },
    );
    v.push_access(
        scope("Leaf"),
        component("X"),
        Mutability::Immutable,
        BorrowMeta { def_path: "leaf", mutability: Mutability::Immutable },
    );
    v
}

fn heads(result: Result<(), ValidationError<'static>>) -> Vec<(usize, usize, Mutability, Mutability)> {
    match result {
        Ok(()) => Vec::new(),
        Err(ValidationError::BorrowConflict(lines)) => lines
            .iter()
            .filter_map(|line| match line {
                ConflictLine::Conflict { scope, component, requested, held } => {
                    Some((*scope, *component, *requested, *held))
                }
                _ => None,
            })
            .collect(),
        Err(ValidationError::Cycle(_)) => panic!("no cycle was declared"),
    }
}

#[test]
fn one_pass_finds_the_same_conflicts_in_any_topological_order() {
    let v = diamond();
    // Handles: Root 0, Left 1, Right 2, Leaf 3.
    let expected = vec![(3, 0, Mutability::Immutable, Mutability::Mutable)];
    assert_eq!(heads(v.validate_in_order(&vec![0, 1, 2, 3])), expected);
    assert_eq!(heads(v.validate_in_order(&vec![0, 2, 1, 3])), expected);
    assert_eq!(heads(v.validate()), expected);
}

#[test]
fn a_sibling_does_not_see_what_only_the_other_branch_holds() {
    let mut v = diamond();
    v.push_access(
        scope("Right"),
        component("X"),
        Mutability::Mutable,
        BorrowMeta { def_path: "right", mutability: Mutability::Mutable },
    );
    // Right borrows mutably itself, but nothing is held when Right is entered.
    let found = heads(v.validate());
    assert_eq!(found, vec![(3, 0, Mutability::Immutable, Mutability::Mutable)]);
}

#[test]
fn report_cycles_skips_single_scopes_without_a_self_loop() {
    let mut v = Validator::new();
    v.push_call_edge(scope("A"), scope("B"), CallMeta { def_path: "ab" });
    v.push_call_edge(scope("B"), scope("A"), CallMeta { def_path: "ba" });
    v.push_call_edge(scope("B"), scope("C"), CallMeta { def_path: "bc" });
    v.push_call_edge(scope("D"), scope("D"), CallMeta { def_path: "dd" });
    let lines = v.report_cycles(&vec![vec![2], vec![1, 0], vec![3]]);
    assert_eq!(
        lines,
        vec![
            CycleLine::Cycle { number: 1 },
            CycleLine::Member { scope: 1 },
            CycleLine::Calls { target: 0, def_path: "ba" },
            CycleLine::Member { scope: 0 },
            CycleLine::Calls { target: 1, def_path: "ab" },
            CycleLine::End,
            CycleLine::Cycle { number: 2 },
            CycleLine::Member { scope: 3 },
            CycleLine::Calls { target: 3, def_path: "dd" },
            CycleLine::End,
        ]
    );
}

#[test]
fn explain_names_an_unknown_handle_as_unknown() {
    let v: Validator<'static> = Validator::new();
    let error = ValidationError::Cycle(vec![CycleLine::Cycle { number: 10 }, CycleLine::Member { scope: 7 }]);
    assert_eq!(
        v.explain(&error),
        "Failed to validate saddle scope graph: scopes may be called in a cycle, which could cause borrow violations.\n\n\
         The following scopes form cycles:\n\nCycle 10:\n - Scope <unknown>, which could call into...\n"
    );
    let error = ValidationError::BorrowConflict(Vec::new());
    assert_eq!(v.explain(&error), "Failed to validate the scope graph:\n\n");
}

#[test]
fn handles_follow_the_order_of_first_mention() {
    let mut v = Validator::new();
    v.push_call_edge(scope("B"), scope("A"), CallMeta { def_path: "ba" });
    v.push_grant(
        scope("C"),
        component("Y"),
        Mutability::Mutable,
        BorrowMeta { def_path: "c", mutability: Mutability::Mutable },
    );
    v.push_access(
        scope("A"),
        component("X"),
        Mutability::Mutable,
        BorrowMeta { def_path: "a", mutability: Mutability::Mutable },
    );
    assert_eq!(v.scope_handle(&scope("B")), Some(0));
    assert_eq!(v.scope_handle(&scope("A")), Some(1));
    assert_eq!(v.scope_handle(&scope("C")), Some(2));
    assert_eq!(v.scope_handle(&scope("D")), None);
    assert_eq!(v.component_handle(&component("Y")), Some(0));
    assert_eq!(v.component_handle(&component("X")), Some(1));
    assert_eq!(v.component_handle(&component("Z")), None);
    assert_eq!(v.scope_count(), 3);
    assert_eq!(v.call_count(), 1);
}

#[test]
fn a_held_component_passes_down_through_a_scope_that_does_not_name_it() {
    let mut v = Validator::new();
    v.push_call_edge(scope("Root"), scope("Mid"), CallMeta { def_path: "1" });
    v.push_call_edge(scope("Mid"), scope("Leaf"), CallMeta { def_path: "2" });
    v.push_access(
        scope("Root"),
        component("X"),
        Mutability::Immutable,
        BorrowMeta { def_path: "r", mutability: Mutability::Immutable },
    );
    v.push_grant(
        scope("Mid"),
        component("X"),
        Mutability::Mutable,
        BorrowMeta { def_path: "m", mutability: Mutability::Mutable },
    );
    v.push_access(
        scope("Leaf"),
        component("X"),
        Mutability::Mutable,
        BorrowMeta { def_path: "l", mutability: Mutability::Mutable },
    );
    // Mid's grant stops Root's hold: nothing reaches Leaf.
    assert!(v.validate().is_ok());
}

#[test]
fn must_use_marker_returns_its_argument() {
    assert_eq!(mark_as_must_use(41) + 1, 42);
}

#[test]
fn bound_scope_hands_back_the_reference() {
    let mut value = 5;
    let bound = BoundScopeProof(&mut value);
    *bound.unwrap() += 1;
    assert_eq!(value, 6);
}

#[test]
fn a_mutable_hold_is_not_weakened_by_an_immutable_one_that_arrives_later() {
    // Leaf is reached from Strong, which holds X mutably, and from Weak, which
    // holds it immutably; what Leaf may find held is the stricter of the two,
    // whichever caller is declared or visited first.
    for callers in [["Strong", "Weak"], ["Weak", "Strong"]] {
        let mut v = Validator::new();
        for caller in callers {
            v.push_call_edge(scope(caller), scope("Leaf"), CallMeta { def_path: "call" });
        }
        v.push_access(
            scope("Strong"),
            component("X"),
            Mutability::Mutable,
            BorrowMeta { def_path: "s", mutability: Mutability::Mutable },
        );
        v.push_access(
            scope("Weak"),
            component("X"),
            Mutability::Immutable,
            BorrowMeta { def_path: "w", mutability: Mutability::Immutable },
        );
        v.push_access(
            scope("Leaf"),
            component("X"),
            Mutability::Immutable,
            BorrowMeta { def_path: "l", mutability: Mutability::Immutable },
        );
        let leaf = v.scope_handle(&scope("Leaf")).unwrap();
        assert_eq!(heads(v.validate()), vec![(leaf, 0, Mutability::Immutable, Mutability::Mutable)]);
    }
}

#[test]
fn every_scope_on_a_cycle_is_named_once() {
    let mut v = Validator::new();
    for (from, to) in [("A", "B"), ("B", "C"), ("C", "A"), ("B", "A"), ("C", "D"), ("E", "E"), ("D", "F")] {
        v.push_call_edge(scope(from), scope(to), CallMeta { def_path: "call" });
    }
    let lines = match v.validate() {
        Err(ValidationError::Cycle(lines)) => lines,
        other => panic!("expected cycles, got {:?}", other),
    };
    for (name, times) in [("A", 1), ("B", 1), ("C", 1), ("E", 1), ("D", 0), ("F", 0)] {
        let handle = v.scope_handle(&scope(name)).unwrap();
        let named = lines.iter().filter(|line| **line == CycleLine::Member { scope: handle }).count();
        assert_eq!(named, times, "scope {}", name);
    }
    let blocks = lines.iter().filter(|line| matches!(line, CycleLine::Cycle { .. })).count();
    assert_eq!(blocks, 2);
}
