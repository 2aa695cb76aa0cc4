//! What the validator reports: the lines of a diagnostic, in order.
//!
//! A diagnostic is a tree, flattened. Each line says how deep it stands; a
//! scope or a component is named by its handle in the validator that made the
//! diagnostic.

use super::callgraph::{callers_of, edges_between};
use super::model::{access_components, ValidatorView};
use super::Mutability;
use vstd::prelude::*;

verus! {

/// One line of a report on borrow conflicts.
#[derive(Debug, Copy, Clone, PartialEq, Eq)]
pub enum ConflictLine<'a> {
    /// The scope borrows the component at strength `requested` although it may
    /// already be held at strength `held` when the scope is entered. Opens the
    /// block of one conflict.
    Conflict { scope: usize, component: usize, requested: Mutability, held: Mutability },
    /// The scope that is being traced borrows the component itself, at this site.
    Borrowed { depth: usize, mutability: Mutability, def_path: &'a str },
    /// The scope `scope` may have called the scope that is being traced while
    /// it held the component at strength `held`.
    CalledBy { depth: usize, scope: usize, held: Mutability },
    /// A site of such a call.
    CallSite { depth: usize, def_path: &'a str },
    /// The lines that follow, one level deeper, trace the caller in turn.
    TracedBack { depth: usize },
    /// Closes the block of one conflict.
    End,
}

/// One line of a report on cycles.
#[derive(Debug, Copy, Clone, PartialEq, Eq)]
pub enum CycleLine<'a> {
    /// Opens the block of one strongly connected component; blocks are
    /// numbered from one.
    Cycle { number: usize },
    /// A scope of the component.
    Member { scope: usize },
    /// A call from that scope to the scope `target` of the same component.
    Calls { target: usize, def_path: &'a str },
    /// Closes the block.
    End,
}

/// Why a graph was rejected.
#[derive(Debug)]
pub enum ValidationError<'a> {
    /// Scopes may call each other in a cycle.
    Cycle(Vec<CycleLine<'a>>),
    /// A scope borrows what may already be held incompatibly.
    BorrowConflict(Vec<ConflictLine<'a>>),
}

impl<'a> ValidatorView<'a> {
    /// The caller `u` may hold component `c` at a strength that is
    /// incompatible with a request at strength `requested`.
    pub open spec fn blames(self, u: int, c: int, requested: Mutability) -> bool {
        match self.full_pbs(u, c) {
            Some(held) => !held.compatible(requested),
            None => false,
        }
    }

    /// One line for each site at which `target` itself borrows `c`.
    pub open spec fn direct_lines(self, target: int, c: int, depth: int) -> Seq<ConflictLine<'a>> {
        let borrows = self.scopes[target].borrows;
        match access_components(borrows).index_of_first(c) {
            Some(j) => Seq::new(
                borrows[j].sites.len(),
                |i: int|
                    ConflictLine::Borrowed {
                        depth: depth as usize,
                        mutability: borrows[j].sites[i].mutability,
                        def_path: borrows[j].sites[i].def_path,
                    },
            ),
            None => Seq::empty(),
        }
    }

    /// One line for each call edge from `u` to `target`, latest first.
    pub open spec fn call_site_lines(self, u: int, target: int, depth: int) -> Seq<ConflictLine<'a>> {
        let between = edges_between(self.edges(), u, target);
        Seq::new(
            between.len(),
            |i: int|
                ConflictLine::CallSite { depth: depth as usize, def_path: self.calls[between[i]].meta.def_path },
        )
    }

    /// The trace of component `c` at `target`: where `target` borrows it, then
    /// each caller that may hold it incompatibly with `requested`, with the
    /// caller's own trace one level deeper.
    pub open spec fn trace_lines(
        self,
        order: Seq<int>,
        c: int,
        requested: Mutability,
        target: int,
        depth: int,
    ) -> Seq<ConflictLine<'a>>
        decreases order.index_of(target), 1int, 0int,
    {
        self.direct_lines(target, c, depth) + self.caller_lines(order, c, requested, target, depth, 0)
    }

    /// The part of `target`'s trace that its callers from position `i` of
    /// `callers_of` on contribute. A caller is traced where it first occurs.
    pub open spec fn caller_lines(
        self,
        order: Seq<int>,
        c: int,
        requested: Mutability,
        target: int,
        depth: int,
        i: int,
    ) -> Seq<ConflictLine<'a>>
        decreases order.index_of(target), 0int, callers_of(self.edges(), target).len() - i,
    {
        let callers = callers_of(self.edges(), target);
        if i < 0 || i >= callers.len() {
            Seq::empty()
        } else {
            let u = callers[i];
            let rest = self.caller_lines(order, c, requested, target, depth, i + 1);
            if callers.take(i).contains(u) {
                rest
            } else if self.blames(u, c, requested) && 0 <= order.index_of(u) < order.index_of(target) {
                seq![
                    ConflictLine::CalledBy { depth: depth as usize, scope: u as usize, held: self.full_pbs(u, c)->0 },
                ] + self.call_site_lines(u, target, depth + 1) + seq![
                    ConflictLine::TracedBack { depth: depth as usize },
                ] + self.trace_lines(order, c, requested, u, depth + 1) + rest
            } else {
                rest
            }
        }
    }

    /// The block for the `j`-th borrow of scope `v`, empty unless the borrow
    /// conflicts with what may be held when `v` is entered.
    pub open spec fn borrow_lines(self, order: Seq<int>, v: int, j: int) -> Seq<ConflictLine<'a>> {
        let access = self.scopes[v].borrows[j];
        match self.entry_pbs(v, access.component) {
            Some(held) => if held.compatible(access.mutability) {
                Seq::empty()
            } else {
                seq![
                    ConflictLine::Conflict {
                        scope: v as usize,
                        component: access.component as usize,
                        requested: access.mutability,
                        held,
                    },
                ] + self.trace_lines(order, access.component, access.mutability, v, 1) + seq![ConflictLine::End]
            },
            None => Seq::empty(),
        }
    }

    /// The blocks for the first `upto` borrows of scope `v`.
    pub open spec fn scope_lines(self, order: Seq<int>, v: int, upto: int) -> Seq<ConflictLine<'a>>
        decreases upto,
    {
        if upto <= 0 {
            Seq::empty()
        } else {
            self.scope_lines(order, v, upto - 1) + self.borrow_lines(order, v, upto - 1)
        }
    }

    /// The blocks for the first `upto` scopes of `order`.
    pub open spec fn pass_lines(self, order: Seq<int>, upto: int) -> Seq<ConflictLine<'a>>
        decreases upto,
    {
        if upto <= 0 {
            Seq::empty()
        } else {
            self.pass_lines(order, upto - 1) + self.scope_lines(
                order,
                order[upto - 1],
                self.scopes[order[upto - 1]].borrows.len() as int,
            )
        }
    }

    /// The report on borrow conflicts: one block for each conflicting borrow,
    /// scopes in the order `order`, the borrows of a scope in the order of
    /// their first declaration.
    pub open spec fn conflict_lines(self, order: Seq<int>) -> Seq<ConflictLine<'a>> {
        self.pass_lines(order, order.len() as int)
    }
}

} // verus!
