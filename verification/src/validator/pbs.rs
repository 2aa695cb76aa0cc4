//! What may already be borrowed when a scope is entered.
//!
//! A borrow travels along call chains. It starts at the scope that declares
//! it and is handed from caller to callee; a callee that grants the component
//! mutably stops it, one that grants it immutably weakens it to `Immutable`.
//! The potentially-borrowed set of a scope is what some chain carries to it.

use super::callgraph::{has_edge, is_walk};
use super::model::ValidatorView;
use super::Mutability;
use vstd::prelude::*;

verus! {

/// A strength at which a component is held, or `None` where it is not held.
pub type Held = Option<Mutability>;

/// What passes of a hold at strength `held` into a scope whose grant for the
/// component is `grant`: a mutable grant stops it, an immutable grant weakens
/// it, no grant lets it pass as it is.
pub open spec fn transfer(grant: Held, held: Mutability) -> Held {
    match grant {
        Some(Mutability::Mutable) => None,
        Some(Mutability::Immutable) => Some(Mutability::Immutable),
        None => Some(held),
    }
}

/// `transfer`, for a component that may not be held at all.
pub open spec fn held_transfer(grant: Held, held: Held) -> Held {
    match held {
        Some(m) => transfer(grant, m),
        None => None,
    }
}

/// The stricter of two holds, where `None` is below both strengths.
pub open spec fn held_join(a: Held, b: Held) -> Held {
    match (a, b) {
        (None, _) => b,
        (_, None) => a,
        (Some(x), Some(y)) => Some(x.join(y)),
    }
}

/// The order of holds: `None`, then `Immutable`, then `Mutable`.
pub open spec fn held_le(a: Held, b: Held) -> bool {
    match (a, b) {
        (None, _) => true,
        (Some(_), None) => false,
        (Some(x), Some(y)) => x.le(y),
    }
}

/// The strictest hold among those possible: `Mutable` if a mutable hold is
/// possible, else `Immutable` if any hold is, else none.
pub open spec fn strictest_possible(mutable: bool, immutable: bool) -> Held {
    if mutable {
        Some(Mutability::Mutable)
    } else if immutable {
        Some(Mutability::Immutable)
    } else {
        None
    }
}

impl<'a> ValidatorView<'a> {
    /// `v` is the handle of a registered scope.
    pub open spec fn in_scope(self, v: int) -> bool {
        0 <= v < self.scopes.len()
    }

    /// `chain` is a call chain: it starts at a registered scope and each of
    /// its scopes calls the next.
    pub open spec fn is_chain(self, chain: Seq<int>) -> bool {
        is_walk(self.edges(), chain) && self.in_scope(chain[0])
    }

    /// What arrives at the end of `chain` of the borrow of component `c` that
    /// the first scope of the chain declares.
    pub open spec fn carried(self, chain: Seq<int>, c: int) -> Held
        decreases chain.len(),
    {
        if chain.len() == 0 {
            None
        } else if chain.len() == 1 {
            self.borrow_of(chain[0], c)
        } else {
            held_transfer(self.grant_of(chain.last(), c), self.carried(chain.drop_last(), c))
        }
    }

    /// `chain` is a call chain that ends at `v` and carries component `c` to
    /// it at strength `m`.
    pub open spec fn carries(self, chain: Seq<int>, v: int, c: int, m: Mutability) -> bool {
        self.is_chain(chain) && chain.last() == v && self.carried(chain, c) == Some(m)
    }

    /// Component `c` may be held at strength `m` while `v` runs: by `v` itself
    /// or by a scope from which a call chain leads to `v`.
    pub open spec fn may_hold(self, v: int, c: int, m: Mutability) -> bool {
        exists|chain: Seq<int>| #[trigger] self.carries(chain, v, c, m)
    }

    /// Component `c` may be held at strength `m` at the moment `v` is entered:
    /// a chain of at least one call carries it to `v`.
    pub open spec fn held_on_entry(self, v: int, c: int, m: Mutability) -> bool {
        exists|chain: Seq<int>| chain.len() >= 2 && #[trigger] self.carries(chain, v, c, m)
    }

    /// The potentially-borrowed set of `v` on entry, at component `c`: the
    /// strictest strength at which `c` may be held when `v` is entered.
    pub open spec fn entry_pbs(self, v: int, c: int) -> Held {
        strictest_possible(
            self.held_on_entry(v, c, Mutability::Mutable),
            self.held_on_entry(v, c, Mutability::Immutable),
        )
    }

    /// The potentially-borrowed set that `v` hands to its callees, at
    /// component `c`: its set on entry together with its own borrows.
    pub open spec fn full_pbs(self, v: int, c: int) -> Held {
        strictest_possible(
            self.may_hold(v, c, Mutability::Mutable),
            self.may_hold(v, c, Mutability::Immutable),
        )
    }

    /// The caller `u` hands component `c` to its callee `v` at strength `m`.
    pub open spec fn hands_over(self, u: int, v: int, c: int, m: Mutability) -> bool {
        &&& has_edge(self.edges(), u, v)
        &&& self.in_scope(u)
        &&& {
            ||| self.may_hold(u, c, Mutability::Mutable) && transfer(
                self.grant_of(v, c),
                Mutability::Mutable,
            ) == Some(m)
            ||| self.may_hold(u, c, Mutability::Immutable) && transfer(
                self.grant_of(v, c),
                Mutability::Immutable,
            ) == Some(m)
        }
    }

    /// Scope `v` borrows component `c` at a strength that is incompatible
    /// with what may be held when `v` is entered.
    pub open spec fn conflict(self, v: int, c: int) -> bool {
        match (self.borrow_of(v, c), self.entry_pbs(v, c)) {
            (Some(requested), Some(held)) => !held.compatible(requested),
            _ => false,
        }
    }

    /// Some scope has a conflict on some component.
    pub open spec fn has_conflict(self) -> bool {
        exists|v: int, c: int| self.in_scope(v) && #[trigger] self.conflict(v, c)
    }
}

/// Every scope of a call chain is registered.
pub proof fn lemma_chain_in_scope(g: ValidatorView, chain: Seq<int>, i: int)
    requires
        g.wf(),
        g.is_chain(chain),
        0 <= i < chain.len(),
    ensures
        g.in_scope(chain[i]),
    decreases i,
{
    if i > 0 {
        lemma_chain_in_scope(g, chain, i - 1);
        assert(has_edge(g.edges(), chain[i - 1], chain[i - 1 + 1]));
        let e = choose|e: int| 0 <= e < g.edges().len() && #[trigger] g.edges()[e] == (chain[i - 1], chain[i]);
        assert(g.calls[e].to == chain[i]);
    }
}

/// A call chain without its last scope is a call chain, if a scope is left.
pub proof fn lemma_chain_drop_last(g: ValidatorView, chain: Seq<int>)
    requires
        g.is_chain(chain),
        chain.len() >= 2,
    ensures
        g.is_chain(chain.drop_last()),
        has_edge(g.edges(), chain.drop_last().last(), chain.last()),
{
    let pre = chain.drop_last();
    assert forall|i: int| 0 <= i < pre.len() - 1 implies has_edge(g.edges(), #[trigger] pre[i], pre[i + 1]) by {
        assert(has_edge(g.edges(), chain[i], chain[i + 1]));
    }
    assert(has_edge(g.edges(), chain[chain.len() - 2], chain[chain.len() - 2 + 1]));
}

/// A call chain followed by a callee of its last scope is a call chain.
pub proof fn lemma_chain_push(g: ValidatorView, chain: Seq<int>, v: int)
    requires
        g.is_chain(chain),
        has_edge(g.edges(), chain.last(), v),
    ensures
        g.is_chain(chain.push(v)),
        chain.push(v).drop_last() == chain,
{
    let next = chain.push(v);
    assert forall|i: int| 0 <= i < next.len() - 1 implies has_edge(g.edges(), #[trigger] next[i], next[i + 1]) by {
        if i < chain.len() - 1 {
            assert(has_edge(g.edges(), chain[i], chain[i + 1]));
        }
    }
    assert(next.drop_last() =~= chain);
}

/// A component may be held while `v` runs exactly if `v` borrows it or it may
/// be held when `v` is entered.
pub proof fn lemma_may_hold(g: ValidatorView, v: int, c: int, m: Mutability)
    requires
        g.in_scope(v),
    ensures
        g.may_hold(v, c, m) <==> g.borrow_of(v, c) == Some(m) || g.held_on_entry(v, c, m),
{
    if g.may_hold(v, c, m) {
        let chain = choose|chain: Seq<int>| #[trigger] g.carries(chain, v, c, m);
        if chain.len() >= 2 {
            assert(g.held_on_entry(v, c, m));
        }
    }
    if g.borrow_of(v, c) == Some(m) {
        let chain = seq![v];
        assert(g.carries(chain, v, c, m));
    }
    if g.held_on_entry(v, c, m) {
        let chain = choose|chain: Seq<int>| chain.len() >= 2 && #[trigger] g.carries(chain, v, c, m);
        assert(g.carries(chain, v, c, m));
    }
}

/// A component may be held when `v` is entered exactly if some caller of `v`
/// hands it over.
pub proof fn lemma_held_on_entry(g: ValidatorView, v: int, c: int, m: Mutability)
    requires
        g.wf(),
    ensures
        g.held_on_entry(v, c, m) <==> exists|u: int| #[trigger] g.hands_over(u, v, c, m),
{
    if g.held_on_entry(v, c, m) {
        let chain = choose|chain: Seq<int>| chain.len() >= 2 && #[trigger] g.carries(chain, v, c, m);
        let pre = chain.drop_last();
        let u = pre.last();
        lemma_chain_drop_last(g, chain);
        lemma_chain_in_scope(g, pre, pre.len() - 1);
        let m0 = g.carried(pre, c)->0;
        assert(g.carries(pre, u, c, m0));
        assert(g.hands_over(u, v, c, m));
    }
    if exists|u: int| #[trigger] g.hands_over(u, v, c, m) {
        let u = choose|u: int| #[trigger] g.hands_over(u, v, c, m);
        let m0 = if g.may_hold(u, c, Mutability::Mutable) && transfer(g.grant_of(v, c), Mutability::Mutable)
            == Some(m) {
            Mutability::Mutable
        } else {
            Mutability::Immutable
        };
        let pre = choose|chain: Seq<int>| #[trigger] g.carries(chain, u, c, m0);
        lemma_chain_push(g, pre, v);
        assert(g.carries(pre.push(v), v, c, m));
    }
}

/// The set that a scope hands on is its set on entry joined with its own
/// borrows.
pub proof fn lemma_full_pbs(g: ValidatorView, v: int, c: int)
    requires
        g.in_scope(v),
    ensures
        g.full_pbs(v, c) == held_join(g.entry_pbs(v, c), g.borrow_of(v, c)),
{
    lemma_may_hold(g, v, c, Mutability::Mutable);
    lemma_may_hold(g, v, c, Mutability::Immutable);
}

/// Grant masking: a scope that grants a component mutably finds it held by
/// no caller when it is entered, whatever its callers hold.
pub proof fn lemma_grant_masks(g: ValidatorView, v: int, c: int)
    requires
        g.wf(),
        g.grant_of(v, c) == Some(Mutability::Mutable),
    ensures
        g.entry_pbs(v, c) is None,
        forall|u: int, m: Mutability| !g.hands_over(u, v, c, m),
{
    lemma_held_on_entry(g, v, c, Mutability::Mutable);
    lemma_held_on_entry(g, v, c, Mutability::Immutable);
}

/// Grant downgrade: a scope that grants a component immutably, and has a
/// caller that may hold it (mutably, say), finds it held immutably when it is
/// entered.
pub proof fn lemma_grant_downgrades(g: ValidatorView, u: int, v: int, c: int, m: Mutability)
    requires
        g.wf(),
        g.grant_of(v, c) == Some(Mutability::Immutable),
        has_edge(g.edges(), u, v),
        g.in_scope(u),
        g.may_hold(u, c, m),
    ensures
        g.entry_pbs(v, c) == Some(Mutability::Immutable),
        g.hands_over(u, v, c, Mutability::Immutable),
        !g.hands_over(u, v, c, Mutability::Mutable),
{
    lemma_held_on_entry(g, v, c, Mutability::Mutable);
    lemma_held_on_entry(g, v, c, Mutability::Immutable);
    assert(g.hands_over(u, v, c, Mutability::Immutable));
}

} // verus!
