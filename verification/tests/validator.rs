use cargo_saddle::validator::{
    BorrowMeta, CallMeta, ComponentId, ComponentMeta, ConflictLine, CycleLine, Mutability, ScopeId, ScopeMeta,
    ValidationError, Validator,
};

fn scope(name: &str) -> ScopeId<'static> {
    ScopeId(name.to_string(), [])
}

fn component(name: &str) -> ComponentId<'static> {
    ComponentId(name.to_string(), [])
}

fn site(def_path: &'static str, mutability: Mutability) -> BorrowMeta<'static> {
    BorrowMeta { def_path, mutability }
}

fn call(def_path: &'static str) -> CallMeta<'static> {
    CallMeta { def_path }
}

fn name(validator: &mut Validator<'static>, id: &str, defined_at: &'static str) {
    validator.annotate_scope(scope(id), ScopeMeta { _dummy: [], name: id.to_string(), defined_at });
}

fn borrow(validator: &mut Validator<'static>, s: &str, c: &str, m: Mutability, at: &'static str) {
    validator.push_access(scope(s), component(c), m, site(at, m));
}

fn grant(validator: &mut Validator<'static>, s: &str, c: &str, m: Mutability, at: &'static str) {
    validator.push_grant(scope(s), component(c), m, site(at, m));
}

fn edge(validator: &mut Validator<'static>, from: &str, to: &str, at: &'static str) {
    validator.push_call_edge(scope(from), scope(to), call(at));
}

fn handle(validator: &Validator<'static>, id: &str) -> usize {
    validator.scope_handle(&scope(id)).unwrap()
}

#[test]
fn scenario_a_shared_immutable_borrows_are_accepted() {
    let mut v = Validator::new();
    edge(&mut v, "Root", "A", "root.rs:1");
    edge(&mut v, "Root", "B", "root.rs:2");
    borrow(&mut v, "A", "X", Mutability::Immutable, "a.rs:1");
    borrow(&mut v, "B", "X", Mutability::Immutable, "b.rs:1");
    assert!(v.validate().is_ok());
}

#[test]
fn scenario_b_mutable_aliasing_is_rejected() {
    let mut v = Validator::new();
    name(&mut v, "Root", "root.rs");
    name(&mut v, "A", "a.rs");
    v.annotate_component(component("X"), ComponentMeta { _dummy: [], name: "X".to_string() });
    borrow(&mut v, "Root", "X", Mutability::Mutable, "root.rs:3");
    edge(&mut v, "Root", "A", "root.rs:4");
    borrow(&mut v, "A", "X", Mutability::Immutable, "a.rs:5");
    let a = handle(&v, "A");
    let root = handle(&v, "Root");
    let x = v.component_handle(&component("X")).unwrap();
    let error = v.validate().unwrap_err();
    match &error {
        ValidationError::BorrowConflict(lines) => {
            assert_eq!(
                lines.as_slice(),
                &[
                    ConflictLine::Conflict {
                        scope: a,
                        component: x,
                        requested: Mutability::Immutable,
                        held: Mutability::Mutable,
                    },
                    ConflictLine::Borrowed { depth: 1, mutability: Mutability::Immutable, def_path: "a.rs:5" },
                    ConflictLine::CalledBy { depth: 1, scope: root, held: Mutability::Mutable },
                    ConflictLine::CallSite { depth: 2, def_path: "root.rs:4" },
                    ConflictLine::TracedBack { depth: 1 },
                    ConflictLine::Borrowed { depth: 2, mutability: Mutability::Mutable, def_path: "root.rs:3" },
                    ConflictLine::End,
                ]
            );
        }
        ValidationError::Cycle(_) => panic!("no cycle was declared"),
    }
    assert_eq!(
        v.explain(&error),
        "Failed to validate the scope graph:\n\n\
         The scope A defined at a.rs borrows the component X immutably even though it may have already been borrowed mutably.\n    \
         - This scope could have borrowed the component immutably at location a.rs:5.\n    \
         - The scope Root defined at root.rs may have called it while the component was held mutably.\n    \
         \x20 Hint: the following scopes may have been responsible for the aforementioned call...\n        \
         - root.rs:4\n    \
         \x20 Tracing back responsibility...\n        \
         - This scope could have borrowed the component mutably at location root.rs:3.\n\n\n"
    );
}

#[test]
fn scenario_c_mutable_grant_neutralizes() {
    let mut v = Validator::new();
    borrow(&mut v, "Root", "X", Mutability::Mutable, "root.rs:3");
    edge(&mut v, "Root", "A", "root.rs:4");
    borrow(&mut v, "A", "X", Mutability::Immutable, "a.rs:5");
    grant(&mut v, "A", "X", Mutability::Mutable, "a.rs:1");
    assert!(v.validate().is_ok());
}

#[test]
fn scenario_d_immutable_grant_downgrades_and_still_conflicts() {
    let mut v = Validator::new();
    borrow(&mut v, "Root", "X", Mutability::Mutable, "root.rs:3");
    edge(&mut v, "Root", "A", "root.rs:4");
    grant(&mut v, "A", "X", Mutability::Immutable, "a.rs:1");
    borrow(&mut v, "A", "X", Mutability::Mutable, "a.rs:5");
    let a = handle(&v, "A");
    match v.validate() {
        Err(ValidationError::BorrowConflict(lines)) => {
            assert_eq!(
                lines[0],
                ConflictLine::Conflict {
                    scope: a,
                    component: 0,
                    requested: Mutability::Mutable,
                    held: Mutability::Immutable,
                }
            );
        }
        other => panic!("expected a borrow conflict, got {:?}", other),
    }
}

#[test]
fn immutable_grant_lets_an_immutable_borrow_pass() {
    let mut v = Validator::new();
    borrow(&mut v, "Root", "X", Mutability::Mutable, "root.rs:3");
    edge(&mut v, "Root", "A", "root.rs:4");
    grant(&mut v, "A", "X", Mutability::Immutable, "a.rs:1");
    borrow(&mut v, "A", "X", Mutability::Immutable, "a.rs:5");
    assert!(v.validate().is_ok());
}

#[test]
fn scenario_e_cycle_is_reported_as_one_component() {
    let mut v = Validator::new();
    name(&mut v, "P", "p.rs");
    name(&mut v, "Q", "q.rs");
    edge(&mut v, "P", "Q", "p.rs:1");
    edge(&mut v, "Q", "P", "q.rs:1");
    let p = handle(&v, "P");
    let q = handle(&v, "Q");
    let error = v.validate().unwrap_err();
    let lines = match &error {
        ValidationError::Cycle(lines) => lines.clone(),
        ValidationError::BorrowConflict(_) => panic!("expected a cycle"),
    };
    assert_eq!(lines.len(), 6);
    assert_eq!(lines[0], CycleLine::Cycle { number: 1 });
    assert_eq!(lines[5], CycleLine::End);
    assert!(lines.contains(&CycleLine::Member { scope: p }));
    assert!(lines.contains(&CycleLine::Member { scope: q }));
    assert!(lines.contains(&CycleLine::Calls { target: q, def_path: "p.rs:1" }));
    assert!(lines.contains(&CycleLine::Calls { target: p, def_path: "q.rs:1" }));
    let text = v.explain(&error);
    assert!(text.starts_with(
        "Failed to validate saddle scope graph: scopes may be called in a cycle, which could cause borrow violations.\n\nThe following scopes form cycles:\n\nCycle 1:\n"
    ));
    assert!(text.contains(" - Scope P, which could call into...\n    - Scope Q through the invocation declared at p.rs:1\n"));
    assert!(text.contains(" - Scope Q, which could call into...\n    - Scope P through the invocation declared at q.rs:1\n"));
    assert!(text.ends_with("\n\n"));
}

#[test]
fn self_loop_is_a_cycle() {
    let mut v = Validator::new();
    edge(&mut v, "Solo", "Solo", "solo.rs:1");
    edge(&mut v, "Solo", "Other", "solo.rs:2");
    let solo = handle(&v, "Solo");
    match v.validate() {
        Err(ValidationError::Cycle(lines)) => {
            assert_eq!(
                lines,
                vec![
                    CycleLine::Cycle { number: 1 },
                    CycleLine::Member { scope: solo },
                    CycleLine::Calls { target: solo, def_path: "solo.rs:1" },
                    CycleLine::End,
                ]
            );
        }
        other => panic!("expected a cycle, got {:?}", other),
    }
}

#[test]
fn scenario_f_conflict_is_traced_through_the_chain() {
    let mut v = Validator::new();
    edge(&mut v, "Root", "Mid", "root.rs:1");
    edge(&mut v, "Mid", "Leaf", "mid.rs:1");
    borrow(&mut v, "Root", "X", Mutability::Mutable, "root.rs:2");
    borrow(&mut v, "Leaf", "X", Mutability::Immutable, "leaf.rs:2");
    let (root, mid, leaf) = (handle(&v, "Root"), handle(&v, "Mid"), handle(&v, "Leaf"));
    match v.validate() {
        Err(ValidationError::BorrowConflict(lines)) => {
            assert_eq!(
                lines,
                vec![
                    ConflictLine::Conflict {
                        scope: leaf,
                        component: 0,
                        requested: Mutability::Immutable,
                        held: Mutability::Mutable,
                    },
                    ConflictLine::Borrowed { depth: 1, mutability: Mutability::Immutable, def_path: "leaf.rs:2" },
                    ConflictLine::CalledBy { depth: 1, scope: mid, held: Mutability::Mutable },
                    ConflictLine::CallSite { depth: 2, def_path: "mid.rs:1" },
                    ConflictLine::TracedBack { depth: 1 },
                    ConflictLine::CalledBy { depth: 2, scope: root, held: Mutability::Mutable },
                    ConflictLine::CallSite { depth: 3, def_path: "root.rs:1" },
                    ConflictLine::TracedBack { depth: 2 },
                    ConflictLine::Borrowed { depth: 3, mutability: Mutability::Mutable, def_path: "root.rs:2" },
                    ConflictLine::End,
                ]
            );
        }
        other => panic!("expected a borrow conflict, got {:?}", other),
    }
}

#[test]
fn parallel_edges_are_kept_and_the_caller_is_traced_once() {
    let mut v = Validator::new();
    edge(&mut v, "Root", "A", "first");
    edge(&mut v, "Root", "A", "second");
    borrow(&mut v, "Root", "X", Mutability::Immutable, "root");
    borrow(&mut v, "A", "X", Mutability::Mutable, "a");
    assert_eq!(v.call_count(), 2);
    let root = handle(&v, "Root");
    match v.validate() {
        Err(ValidationError::BorrowConflict(lines)) => {
            let callers: Vec<_> =
                lines.iter().filter(|l| matches!(l, ConflictLine::CalledBy { .. })).collect();
            assert_eq!(callers, vec![&ConflictLine::CalledBy { depth: 1, scope: root, held: Mutability::Immutable }]);
            let sites: Vec<_> = lines
                .iter()
                .filter_map(|l| match l {
                    ConflictLine::CallSite { def_path, .. } => Some(*def_path),
                    _ => None,
                })
                .collect();
            assert_eq!(sites, vec!["second", "first"]);
        }
        other => panic!("expected a borrow conflict, got {:?}", other),
    }
}

#[test]
fn every_conflicting_borrow_of_a_scope_is_reported() {
    let mut v = Validator::new();
    edge(&mut v, "Root", "A", "call");
    borrow(&mut v, "Root", "X", Mutability::Immutable, "rx");
    borrow(&mut v, "Root", "Y", Mutability::Mutable, "ry");
    borrow(&mut v, "Root", "Z", Mutability::Mutable, "rz");
    borrow(&mut v, "A", "X", Mutability::Immutable, "ax");
    borrow(&mut v, "A", "Y", Mutability::Immutable, "ay");
    borrow(&mut v, "A", "Z", Mutability::Mutable, "az");
    match v.validate() {
        Err(ValidationError::BorrowConflict(lines)) => {
            let heads: Vec<_> = lines
                .iter()
                .filter_map(|l| match l {
                    ConflictLine::Conflict { component, .. } => Some(*component),
                    _ => None,
                })
                .collect();
            assert_eq!(heads, vec![1, 2]);
        }
        other => panic!("expected a borrow conflict, got {:?}", other),
    }
}

#[test]
fn strictest_request_wins_whatever_the_order() {
    let mut first = Validator::new();
    borrow(&mut first, "Root", "X", Mutability::Mutable, "1");
    borrow(&mut first, "Root", "X", Mutability::Immutable, "2");
    edge(&mut first, "Root", "A", "call");
    borrow(&mut first, "A", "X", Mutability::Immutable, "a");
    assert!(first.validate().is_err());

    let mut second = Validator::new();
    borrow(&mut second, "Root", "X", Mutability::Immutable, "1");
    borrow(&mut second, "Root", "X", Mutability::Mutable, "2");
    edge(&mut second, "Root", "A", "call");
    borrow(&mut second, "A", "X", Mutability::Immutable, "a");
    assert!(second.validate().is_err());

    let mut third = Validator::new();
    borrow(&mut third, "Root", "X", Mutability::Immutable, "1");
    borrow(&mut third, "Root", "X", Mutability::Immutable, "2");
    edge(&mut third, "Root", "A", "call");
    borrow(&mut third, "A", "X", Mutability::Immutable, "a");
    assert!(third.validate().is_ok());
}

#[test]
fn an_unnamed_scope_is_reported_by_its_id() {
    let mut v = Validator::new();
    borrow(&mut v, "Root", "X", Mutability::Mutable, "r");
    edge(&mut v, "Root", "A", "call");
    borrow(&mut v, "A", "X", Mutability::Mutable, "a");
    let error = v.validate().unwrap_err();
    let text = v.explain(&error);
    assert!(text.contains("The scope A defined at <unknown> borrows the component X mutably"));
}

#[test]
fn empty_validator_is_valid() {
    let v: Validator<'static> = Validator::default();
    assert_eq!(v.scope_count(), 0);
    assert!(v.validate().is_ok());
}

#[test]
fn metadata_is_overwritten() {
    let mut v = Validator::new();
    name(&mut v, "A", "first.rs");
    v.annotate_scope(scope("A"), ScopeMeta { _dummy: [], name: "Renamed".to_string(), defined_at: "second.rs" });
    assert_eq!(v.scope_count(), 1);
    borrow(&mut v, "Root", "X", Mutability::Mutable, "r");
    edge(&mut v, "Root", "A", "call");
    borrow(&mut v, "A", "X", Mutability::Mutable, "a");
    let error = v.validate().unwrap_err();
    assert!(v.explain(&error).contains("The scope Renamed defined at second.rs borrows"));
}
