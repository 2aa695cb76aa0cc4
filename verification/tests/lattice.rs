use cargo_saddle::validator::{borrow_two, Mutability};

const BOTH: [Mutability; 2] = [Mutability::Immutable, Mutability::Mutable];

#[test]
fn adjectives() {
    assert_eq!(Mutability::Mutable.adjective(), "mutably");
    assert_eq!(Mutability::Immutable.adjective(), "immutably");
}

#[test]
fn only_two_immutable_borrows_are_compatible() {
    assert!(Mutability::Immutable.is_compatible_with(Mutability::Immutable));
    assert!(!Mutability::Immutable.is_compatible_with(Mutability::Mutable));
    assert!(!Mutability::Mutable.is_compatible_with(Mutability::Immutable));
    assert!(!Mutability::Mutable.is_compatible_with(Mutability::Mutable));
}

#[test]
fn strictest_is_mutable_if_either_is() {
    assert_eq!(Mutability::Immutable.strictest(Mutability::Immutable), Mutability::Immutable);
    assert_eq!(Mutability::Immutable.strictest(Mutability::Mutable), Mutability::Mutable);
    assert_eq!(Mutability::Mutable.strictest(Mutability::Immutable), Mutability::Mutable);
    assert_eq!(Mutability::Mutable.strictest(Mutability::Mutable), Mutability::Mutable);
}

#[test]
fn strictest_is_a_join() {
    for a in BOTH {
        assert_eq!(a.strictest(a), a);
        assert_eq!(a.strictest(Mutability::Immutable), a);
        for b in BOTH {
            assert_eq!(a.strictest(b), b.strictest(a));
            for c in BOTH {
                assert_eq!(a.strictest(b).strictest(c), a.strictest(b.strictest(c)));
            }
        }
    }
}

#[test]
fn the_default_is_immutable() {
    assert_eq!(Mutability::default(), Mutability::Immutable);
}

#[test]
fn borrow_two_hands_out_both_elements() {
    let mut list = vec![10, 20, 30, 40];
    {
        let (a, b) = borrow_two(&mut list, 1, 3);
        assert_eq!((*a, *b), (20, 40));
        *a += 1;
        *b += 2;
    }
    {
        let (a, b) = borrow_two(&mut list, 2, 0);
        assert_eq!((*a, *b), (30, 10));
        *a = 7;
        *b = 9;
    }
    assert_eq!(list, vec![9, 21, 7, 42]);
}
