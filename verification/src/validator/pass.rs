//! The pass over the scopes in topological order, and why one pass suffices.
//!
//! The pass keeps a table with one row for each scope. When the first `k`
//! scopes of the order have been processed, the table holds what those scopes
//! have handed to their callees, and for each of them its own borrows too.
//! Because a scope comes after all its callers, its row is complete when its
//! turn comes.

use super::callgraph::{has_edge, is_topological_order};
use super::model::ValidatorView;
use super::pbs::{
    held_join, held_le, held_transfer, lemma_full_pbs, lemma_held_on_entry, strictest_possible, Held,
};
use super::Mutability;
use vstd::prelude::*;

verus! {

/// Scope `v` stands among the first `k` scopes of `order`.
pub open spec fn visited(order: Seq<int>, k: int, v: int) -> bool {
    exists|j: int| 0 <= j < k && j < order.len() && #[trigger] order[j] == v
}

impl<'a> ValidatorView<'a> {
    /// One of the first `k` scopes of `order` hands component `c` to `v` at
    /// strength `m`.
    pub open spec fn arrived(self, order: Seq<int>, k: int, v: int, c: int, m: Mutability) -> bool {
        exists|u: int| visited(order, k, u) && #[trigger] self.hands_over(u, v, c, m)
    }

    /// The table's entry for scope `v` and component `c` when the first `k`
    /// scopes of `order` have been processed.
    pub open spec fn pbs_after(self, order: Seq<int>, k: int, v: int, c: int) -> Held {
        held_join(
            strictest_possible(
                self.arrived(order, k, v, c, Mutability::Mutable),
                self.arrived(order, k, v, c, Mutability::Immutable),
            ),
            if visited(order, k, v) {
                self.borrow_of(v, c)
            } else {
                None
            },
        )
    }
}

/// In a topological order, whoever hands something to the scope at position
/// `k` stands before `k`.
pub proof fn lemma_callers_visited(g: ValidatorView, order: Seq<int>, k: int, u: int, c: int, m: Mutability)
    requires
        is_topological_order(g.scopes.len(), g.edges(), order),
        0 <= k < order.len(),
        g.hands_over(u, order[k], c, m),
    ensures
        visited(order, k, u),
{
    assert(order.contains(u));
    let j = choose|j: int| 0 <= j < order.len() && order[j] == u;
    assert(has_edge(g.edges(), order[j], order[k]));
}

/// Topological soundness, first half: when a scope's turn comes, its row
/// holds its potentially-borrowed set on entry, with every contribution of
/// every caller.
pub proof fn lemma_row_complete_on_entry(g: ValidatorView, order: Seq<int>, k: int, c: int)
    requires
        g.wf(),
        is_topological_order(g.scopes.len(), g.edges(), order),
        0 <= k < order.len(),
    ensures
        g.pbs_after(order, k, order[k], c) == g.entry_pbs(order[k], c),
{
    let v = order[k];
    assert(!visited(order, k, v));
    assert forall|m: Mutability| g.arrived(order, k, v, c, m) <==> g.held_on_entry(v, c, m) by {
        lemma_held_on_entry(g, v, c, m);
        if g.held_on_entry(v, c, m) {
            let u = choose|u: int| #[trigger] g.hands_over(u, v, c, m);
            lemma_callers_visited(g, order, k, u, c, m);
        }
    }
}

/// Topological soundness, second half: the row of a scope whose turn has
/// passed holds the set that the scope hands on, and no longer changes.
pub proof fn lemma_row_complete_when_visited(g: ValidatorView, order: Seq<int>, k: int, v: int, c: int)
    requires
        g.wf(),
        is_topological_order(g.scopes.len(), g.edges(), order),
        0 <= k <= order.len(),
        visited(order, k, v),
    ensures
        g.pbs_after(order, k, v, c) == g.full_pbs(v, c),
{
    let j = choose|j: int| 0 <= j < k && j < order.len() && #[trigger] order[j] == v;
    assert forall|m: Mutability| g.arrived(order, k, v, c, m) <==> g.held_on_entry(v, c, m) by {
        lemma_held_on_entry(g, v, c, m);
        if g.held_on_entry(v, c, m) {
            let u = choose|u: int| #[trigger] g.hands_over(u, v, c, m);
            lemma_callers_visited(g, order, j, u, c, m);
            let i = choose|i: int| 0 <= i < j && i < order.len() && #[trigger] order[i] == u;
            assert(0 <= i < k && order[i] == u);
        }
    }
    lemma_full_pbs(g, v, c);
}

/// What the caller `u` contributes to the row of `v`: nothing unless `u` calls
/// `v`, else what passes of `u`'s set through `v`'s grants.
pub open spec fn contribution(g: ValidatorView, u: int, v: int, c: int) -> Held {
    if has_edge(g.edges(), u, v) {
        held_transfer(g.grant_of(v, c), g.full_pbs(u, c))
    } else {
        None
    }
}

/// One step of the pass: processing the scope `u` at position `k` joins its
/// own borrows into its row and its contribution into every other row.
pub proof fn lemma_pass_step(g: ValidatorView, order: Seq<int>, k: int, v: int, c: int)
    requires
        g.wf(),
        is_topological_order(g.scopes.len(), g.edges(), order),
        0 <= k < order.len(),
    ensures
        g.pbs_after(order, k + 1, v, c) == held_join(
            held_join(
                g.pbs_after(order, k, v, c),
                if v == order[k] {
                    g.borrow_of(v, c)
                } else {
                    None
                },
            ),
            contribution(g, order[k], v, c),
        ),
{
    let u = order[k];
    assert(visited(order, k + 1, u));
    assert(visited(order, k + 1, v) <==> visited(order, k, v) || v == u);
    assert(visited(order, k, v) ==> v != u);
    assert forall|m: Mutability| g.arrived(order, k + 1, v, c, m) <==> g.arrived(order, k, v, c, m)
        || g.hands_over(u, v, c, m) by {
        if g.arrived(order, k + 1, v, c, m) {
            let w = choose|w: int| visited(order, k + 1, w) && #[trigger] g.hands_over(w, v, c, m);
            if w != u {
                assert(visited(order, k, w));
            }
        }
        if g.arrived(order, k, v, c, m) {
            let w = choose|w: int| visited(order, k, w) && #[trigger] g.hands_over(w, v, c, m);
            assert(visited(order, k + 1, w));
        }
    }
    assert(g.in_scope(u));
    assert(strictest_possible(
        g.hands_over(u, v, c, Mutability::Mutable),
        g.hands_over(u, v, c, Mutability::Immutable),
    ) == contribution(g, u, v, c));
    assert(g.arrived(order, k + 1, v, c, Mutability::Mutable) <==> g.arrived(
        order,
        k,
        v,
        c,
        Mutability::Mutable,
    ) || g.hands_over(u, v, c, Mutability::Mutable));
    assert(g.arrived(order, k + 1, v, c, Mutability::Immutable) <==> g.arrived(
        order,
        k,
        v,
        c,
        Mutability::Immutable,
    ) || g.hands_over(u, v, c, Mutability::Immutable));
}

/// Monotone table: as the pass goes on, no entry of the table falls in the
/// order of holds.
pub proof fn lemma_table_monotone(g: ValidatorView, order: Seq<int>, j: int, k: int, v: int, c: int)
    requires
        0 <= j <= k,
    ensures
        held_le(g.pbs_after(order, j, v, c), g.pbs_after(order, k, v, c)),
{
    assert forall|u: int| visited(order, j, u) implies visited(order, k, u) by {
        let i = choose|i: int| 0 <= i < j && i < order.len() && #[trigger] order[i] == u;
        assert(0 <= i < k && order[i] == u);
    }
    assert forall|m: Mutability| g.arrived(order, j, v, c, m) implies g.arrived(order, k, v, c, m) by {
        let u = choose|u: int| visited(order, j, u) && #[trigger] g.hands_over(u, v, c, m);
        assert(visited(order, k, u));
    }
}


} // verus!
