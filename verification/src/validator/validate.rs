//! Validation: the cycle check and the pass that propagates borrows from
//! callers to callees and checks each scope against what may be held when it
//! is entered.

use super::hashing::{hashing_insert, hashing_new};
use super::callgraph::{
    callers_of, edges_between, edges_from, enters, has_cycle, has_edge, ints, is_topological_order, joins,
    leaves, lemma_edges_where, lemma_order_positions, lemma_ordered_is_acyclic, sccs_of, topology_callers,
    topology_connecting, topology_outgoing, topology_sccs, topology_toposort, toposort_of,
};
use super::model::{access_components, accesses_wf, strength_of, AccessView, ValidatorView};
use super::pass::{lemma_pass_step, lemma_row_complete_on_entry, lemma_row_complete_when_visited, visited};
use super::pbs::{held_join, held_le, held_transfer, lemma_full_pbs};
use super::builder::find_access;
use super::report::{ConflictLine, ValidationError};
use super::{access_views, Access, Mutability, Validator};
use vstd::prelude::*;

verus! {

/// Hands out two distinct elements of a slice at once.
pub fn borrow_two<T>(list: &mut [T], a: usize, b: usize) -> (r: (&mut T, &mut T))
    requires
        a != b,
        a < old(list)@.len(),
        b < old(list)@.len(),
    ensures
        *r.0 == old(list)@[a as int],
        *r.1 == old(list)@[b as int],
        final(list)@ == old(list)@.update(a as int, *final(r.0)).update(b as int, *final(r.1)),
    decreases
            (if a < b {
                0int
            } else {
                1int
            }),
{
    if a < b {
        let (left, right) = list.split_at_mut(a + 1);
        (&mut left[a], &mut right[b - a - 1])
    } else {
        let (b, a) = borrow_two(list, b, a);
        (a, b)
    }
}

/// What the first `j + 1` entries of a map without repetition record for a
/// component: what entry `j` records if it is for that component, else what
/// the first `j` entries record.
proof fn lemma_strength_of_take(list: Seq<AccessView>, j: int, c: int)
    requires
        access_components(list).no_duplicates(),
        0 <= j < list.len(),
    ensures
        strength_of(list.take(j + 1), c) == (if c == list[j].component {
            Some(list[j].mutability)
        } else {
            strength_of(list.take(j), c)
        }),
        c == list[j].component ==> strength_of(list.take(j), c) is None,
{
    let shorter = access_components(list.take(j));
    let longer = access_components(list.take(j + 1));
    shorter.index_of_first_ensures(c);
    longer.index_of_first_ensures(c);
    assert forall|i: int| 0 <= i < j implies #[trigger] longer[i] == shorter[i] && shorter[i]
        == access_components(list)[i] by {}
    assert(longer[j] == access_components(list)[j]);
    if c == list[j].component {
        assert(longer.contains(c));
        if shorter.contains(c) {
            let i = choose|i: int| 0 <= i < shorter.len() && shorter[i] == c;
            assert(access_components(list)[i] == c);
        }
    } else {
        if longer.contains(c) {
            let i = choose|i: int| 0 <= i < longer.len() && longer[i] == c;
            assert(shorter[i] == c);
        }
        match shorter.index_of_first(c) {
            Some(i) => {
                assert(longer[i] == c);
                let k = longer.index_of_first(c)->0;
                if k < i {
                    assert(shorter[k] == c);
                }
                if i < k {
                    assert(longer[i] == c);
                }
            },
            None => {},
        }
    }
}

/// The strength that a borrow or grant map records for component `c`, if any.
fn lookup<'a>(list: &Vec<Access<'a>>, c: usize) -> (r: Option<Mutability>)
    ensures
        r == strength_of(access_views(list@), c as int),
{
    let j = find_access(list, c);
    if j < list.len() {
        Some(list[j].mutability)
    } else {
        None
    }
}

/// Whether `x` stands among the first `i + 1` items of `s`.
pub(crate) proof fn lemma_take_contains(s: Seq<int>, i: int, x: int)
    requires
        0 <= i < s.len(),
    ensures
        s.take(i + 1).contains(x) <==> s.take(i).contains(x) || s[i] == x,
{
    let shorter = s.take(i);
    let longer = s.take(i + 1);
    if shorter.contains(x) {
        let j = choose|j: int| 0 <= j < shorter.len() && shorter[j] == x;
        assert(longer[j] == x);
    }
    if s[i] == x {
        assert(longer[i] == x);
    }
    if longer.contains(x) {
        let j = choose|j: int| 0 <= j < longer.len() && longer[j] == x;
        if j < i {
            assert(shorter[j] == x);
        }
    }
}

/// Joins into the callee's row what passes of the caller's row through the
/// callee's grants.
fn hand_over<'a>(
    caller_pbs: &Vec<Option<Mutability>>,
    callee_pbs: &mut Vec<Option<Mutability>>,
    grants: &Vec<Access<'a>>,
)
    requires
        caller_pbs@.len() == old(callee_pbs)@.len(),
    ensures
        final(callee_pbs)@.len() == old(callee_pbs)@.len(),
        forall|c: int|
            0 <= c < caller_pbs@.len() ==> #[trigger] final(callee_pbs)@[c] == held_join(
                old(callee_pbs)@[c],
                held_transfer(strength_of(access_views(grants@), c), caller_pbs@[c]),
            ),
{
    let mut c: usize = 0;
    while c < caller_pbs.len()
        invariant
            c <= caller_pbs@.len(),
            callee_pbs@.len() == caller_pbs@.len(),
            callee_pbs@.len() == old(callee_pbs)@.len(),
            forall|d: int|
                0 <= d < c ==> #[trigger] callee_pbs@[d] == held_join(
                    old(callee_pbs)@[d],
                    held_transfer(strength_of(access_views(grants@), d), caller_pbs@[d]),
                ),
            forall|d: int| c <= d < caller_pbs@.len() ==> #[trigger] callee_pbs@[d] == old(callee_pbs)@[d],
        decreases caller_pbs@.len() - c,
    {
        match caller_pbs[c] {
            None => {},
            Some(held) => {
                let mut req_mut = held;
                let mut dropped = false;
                // Downgrade what the callee receives if it has a grant for the component.
                match lookup(grants, c) {
                    Some(Mutability::Immutable) => {
                        req_mut = Mutability::Immutable;
                    },
                    Some(Mutability::Mutable) => {
                        dropped = true;
                    },
                    None => {},
                }
                if !dropped {
                    // Extend the callee's row.
                    let pbs_mut = match callee_pbs[c] {
                        Some(m) => m,
                        None => Mutability::Immutable,
                    };
                    callee_pbs[c] = Some(pbs_mut.strictest(req_mut));
                }
            },
        }
        c += 1;
    }
}

/// The table of the pass and the report it has written so far.
struct ValidationCx<'v, 'a> {
    validator: &'v Validator<'a>,
    potentially_borrowed: Vec<Vec<Option<Mutability>>>,
    lines: Vec<ConflictLine<'a>>,
}

/// The table has one row for each scope and one column for each component.
spec fn table_ok(table: Seq<Vec<Option<Mutability>>>, scopes: nat, components: nat) -> bool {
    &&& table.len() == scopes
    &&& forall|v: int| 0 <= v < scopes ==> (#[trigger] table[v])@.len() == components
}

/// The table is what the pass holds when the first `k` scopes of `order` have
/// been processed.
spec fn table_agrees(g: ValidatorView, order: Seq<int>, k: int, table: Seq<Vec<Option<Mutability>>>) -> bool {
    forall|v: int, c: int|
        0 <= v < g.scopes.len() && 0 <= c < g.components.len() ==> #[trigger] table[v]@[c] == g.pbs_after(
            order,
            k,
            v,
            c,
        )
}

/// Monotone table: no entry of `after` is below the entry of `before`.
spec fn table_le(before: Seq<Vec<Option<Mutability>>>, after: Seq<Vec<Option<Mutability>>>) -> bool {
    forall|v: int, c: int|
        0 <= v < before.len() && 0 <= c < before[v]@.len() ==> held_le(
            before[v]@[c],
            #[trigger] after[v]@[c],
        )
}

impl<'v, 'a> ValidationCx<'v, 'a> {
    spec fn wf(&self) -> bool {
        &&& self.validator.wf()
        &&& table_ok(self.potentially_borrowed@, self.validator@.scopes.len(), self.validator@.components.len())
    }

    fn new(validator: &'v Validator<'a>) -> (cx: Self)
        requires
            validator.wf(),
        ensures
            cx.wf(),
            cx.validator == validator,
            cx.lines@ == Seq::<ConflictLine<'a>>::empty(),
            forall|v: int, c: int|
                0 <= v < validator@.scopes.len() && 0 <= c < validator@.components.len()
                    ==> #[trigger] cx.potentially_borrowed@[v]@[c] is None,
    {
        let node_count = validator.scopes.len();
        let component_count = validator.components.len();
        let mut table: Vec<Vec<Option<Mutability>>> = Vec::new();
        let mut v: usize = 0;
        while v < node_count
            invariant
                v <= node_count,
                table@.len() == v,
                forall|w: int| 0 <= w < v ==> (#[trigger] table@[w])@.len() == component_count,
                forall|w: int, c: int| 0 <= w < v && 0 <= c < component_count ==> #[trigger] table@[w]@[c] is None,
            decreases node_count - v,
        {
            let mut row: Vec<Option<Mutability>> = Vec::new();
            let mut c: usize = 0;
            while c < component_count
                invariant
                    c <= component_count,
                    row@.len() == c,
                    forall|d: int| 0 <= d < c ==> #[trigger] row@[d] is None,
                decreases component_count - c,
            {
                row.push(None);
                c += 1;
            }
            table.push(row);
            v += 1;
        }
        ValidationCx { validator, potentially_borrowed: table, lines: Vec::new() }
    }

    /// Self-extension: joins the scope's own borrows into its row.
    fn propagate_borrows_to_self(&mut self, src_idx: usize)
        requires
            old(self).wf(),
            src_idx < old(self).validator@.scopes.len(),
        ensures
            final(self).wf(),
            final(self).validator == old(self).validator,
            final(self).lines == old(self).lines,
            forall|v: int, c: int|
                0 <= v < old(self).validator@.scopes.len() && 0 <= c < old(self).validator@.components.len()
                    ==> #[trigger] final(self).potentially_borrowed@[v]@[c] == (if v == src_idx {
                    held_join(
                        old(self).potentially_borrowed@[v]@[c],
                        old(self).validator@.borrow_of(v, c),
                    )
                } else {
                    old(self).potentially_borrowed@[v]@[c]
                }),
            table_le(old(self).potentially_borrowed@, final(self).potentially_borrowed@),
    {
        let validator = self.validator;
        let borrows = &validator.scopes[src_idx].borrows;
        let ghost views = access_views(borrows@);
        let ghost g = validator@;
        proof {
            validator.lemma_wf_model();
            assert(g.scopes[src_idx as int].borrows == views);
            assert(accesses_wf(views, g.components.len()));
            assert forall|c: int| strength_of(views.take(0), c) is None by {
                access_components(views.take(0)).index_of_first_ensures(c);
            }
        }
        let mut j: usize = 0;
        while j < borrows.len()
            invariant
                j <= borrows@.len(),
                views == access_views(borrows@),
                accesses_wf(views, g.components.len()),
                g == validator@,
                self.validator == validator,
                self.lines == old(self).lines,
                old(self).wf(),
                old(self).validator == validator,
                src_idx < g.scopes.len(),
                table_ok(self.potentially_borrowed@, g.scopes.len(), g.components.len()),
                forall|v: int|
                    0 <= v < g.scopes.len() && v != src_idx ==> #[trigger] self.potentially_borrowed@[v]
                        == old(self).potentially_borrowed@[v],
                forall|c: int|
                    0 <= c < g.components.len() ==> #[trigger] self.potentially_borrowed@[src_idx as int]@[c]
                        == held_join(
                        old(self).potentially_borrowed@[src_idx as int]@[c],
                        strength_of(views.take(j as int), c),
                    ),
            decreases borrows@.len() - j,
        {
            let req_ty = borrows[j].component;
            let req_mut = borrows[j].mutability;
            proof {
                assert(views[j as int].component == req_ty);
                assert forall|c: int| 0 <= c < g.components.len() implies strength_of(
                    views.take(j + 1),
                    c,
                ) == (if c == req_ty {
                    Some(req_mut)
                } else {
                    strength_of(views.take(j as int), c)
                }) && (c == req_ty ==> strength_of(views.take(j as int), c) is None) by {
                    lemma_strength_of_take(views, j as int, c);
                }
            }
            let pbs_mut = match self.potentially_borrowed[src_idx][req_ty] {
                Some(m) => m,
                None => Mutability::Immutable,
            };
            self.potentially_borrowed[src_idx][req_ty] = Some(pbs_mut.strictest(req_mut));
            j += 1;
        }
        proof {
            assert(views.take(borrows@.len() as int) =~= views);
        }
    }

    /// Propagation to a callee: joins into the callee's row what passes of
    /// the caller's row through the callee's grants.
    fn propagate_borrows_to_others(&mut self, caller: usize, callee: usize)
        requires
            old(self).wf(),
            caller != callee,
            caller < old(self).validator@.scopes.len(),
            callee < old(self).validator@.scopes.len(),
        ensures
            final(self).wf(),
            final(self).validator == old(self).validator,
            final(self).lines == old(self).lines,
            forall|v: int, c: int|
                0 <= v < old(self).validator@.scopes.len() && 0 <= c < old(self).validator@.components.len()
                    ==> #[trigger] final(self).potentially_borrowed@[v]@[c] == (if v == callee {
                    held_join(
                        old(self).potentially_borrowed@[v]@[c],
                        held_transfer(
                            old(self).validator@.grant_of(v, c),
                            old(self).potentially_borrowed@[caller as int]@[c],
                        ),
                    )
                } else {
                    old(self).potentially_borrowed@[v]@[c]
                }),
            table_le(old(self).potentially_borrowed@, final(self).potentially_borrowed@),
    {
        let validator = self.validator;
        let grants = &validator.scopes[callee].grants;
        proof {
            assert(validator@.scopes[callee as int].grants == access_views(grants@));
        }
        let (caller_pbs, callee_pbs) = borrow_two(self.potentially_borrowed.as_mut_slice(), caller, callee);
        hand_over(caller_pbs, callee_pbs, grants);
    }
    /// Local validation: checks every borrow of the scope against the
    /// scope's row and writes a block for each conflict.
    fn validate_scope(&mut self, scope: usize, Ghost(order): Ghost<Seq<int>>, Ghost(k): Ghost<int>)
        requires
            old(self).wf(),
            is_topological_order(old(self).validator@.scopes.len(), old(self).validator@.edges(), order),
            0 <= k < order.len(),
            order[k] == scope,
            table_agrees(old(self).validator@, order, k, old(self).potentially_borrowed@),
        ensures
            final(self).wf(),
            final(self).validator == old(self).validator,
            final(self).potentially_borrowed == old(self).potentially_borrowed,
            final(self).lines@ == old(self).lines@ + old(self).validator@.scope_lines(
                order,
                scope as int,
                old(self).validator@.scopes[scope as int].borrows.len() as int,
            ),
    {
        let validator = self.validator;
        let ghost g = validator@;
        let ghost start = self.lines@;
        proof {
            validator.lemma_wf_model();
            lemma_order_positions(g.scopes.len(), g.edges(), order);
        }
        let borrows = &validator.scopes[scope].borrows;
        proof {
            assert(g.scopes[scope as int].borrows == access_views(borrows@));
            assert(self.lines@ =~= start + g.scope_lines(order, scope as int, 0));
        }
        let mut j: usize = 0;
        while j < borrows.len()
            invariant
                j <= borrows@.len(),
                self.wf(),
                self.validator == validator,
                old(self).validator == validator,
                self.potentially_borrowed == old(self).potentially_borrowed,
                g == validator@,
                g.wf(),
                g.scopes.len() <= usize::MAX,
                g.scopes[scope as int].borrows == access_views(borrows@),
                is_topological_order(g.scopes.len(), g.edges(), order),
                0 <= k < order.len(),
                order[k] == scope,
                scope < g.scopes.len(),
                table_agrees(g, order, k, self.potentially_borrowed@),
                self.lines@ == start + g.scope_lines(order, scope as int, j as int),
            decreases borrows@.len() - j,
        {
            let req_ty = borrows[j].component;
            let req_mut = borrows[j].mutability;
            let ghost before = self.lines@;
            let ghost block = g.borrow_lines(order, scope as int, j as int);
            proof {
                let access = g.scopes[scope as int].borrows[j as int];
                assert(access.component == req_ty && access.mutability == req_mut);
                assert(0 <= req_ty < g.components.len());
                lemma_row_complete_on_entry(g, order, k, req_ty as int);
                lemma_order_positions(g.scopes.len(), g.edges(), order);
                assert(self.potentially_borrowed@[scope as int]@[req_ty as int] == g.entry_pbs(
                    scope as int,
                    req_ty as int,
                ));
                assert forall|u: int|
                    0 <= u < g.scopes.len() && order.index_of(u) < order.index_of(
                        scope as int,
                    ) implies #[trigger] self.potentially_borrowed@[u]@[req_ty as int] == g.full_pbs(
                    u,
                    req_ty as int,
                ) by {
                    assert(order[order.index_of(u)] == u);
                    assert(visited(order, k, u));
                    lemma_row_complete_when_visited(g, order, k, u, req_ty as int);
                }
            }
            match self.potentially_borrowed[scope][req_ty] {
                Some(pre_mut) => {
                    // A borrow that is compatible with the row is accepted.
                    if !pre_mut.is_compatible_with(req_mut) {
                        self.lines.push(
                            ConflictLine::Conflict {
                                scope,
                                component: req_ty,
                                requested: req_mut,
                                held: pre_mut,
                            },
                        );
                        print_tree(
                            &mut self.lines,
                            validator,
                            &self.potentially_borrowed,
                            req_ty,
                            req_mut,
                            scope,
                            1,
                            Ghost(order),
                        );
                        self.lines.push(ConflictLine::End);
                    }
                },
                None => {},
            }
            proof {
                assert(self.lines@ =~= before + block);
                assert(self.lines@ =~= start + g.scope_lines(order, scope as int, j + 1));
            }
            j += 1;
        }
    }
}


/// Writes the trace of a component at `target`: where `target` borrows it,
/// then each caller that may hold it incompatibly with `desired_mut`, with
/// the caller's own trace one level deeper.
#[verifier::rlimit(40)]
fn print_tree<'a>(
    lines: &mut Vec<ConflictLine<'a>>,
    validator: &Validator<'a>,
    potentially_borrowed: &Vec<Vec<Option<Mutability>>>,
    desired_comp: usize,
    desired_mut: Mutability,
    target: usize,
    depth: usize,
    Ghost(order): Ghost<Seq<int>>,
)
    requires
        validator.wf(),
        is_topological_order(validator@.scopes.len(), validator@.edges(), order),
        table_ok(potentially_borrowed@, validator@.scopes.len(), validator@.components.len()),
        target < validator@.scopes.len(),
        desired_comp < validator@.components.len(),
        depth + order.index_of(target as int) <= validator@.scopes.len(),
        forall|u: int|
            0 <= u < validator@.scopes.len() && order.index_of(u) < order.index_of(target as int)
                ==> #[trigger] potentially_borrowed@[u]@[desired_comp as int] == validator@.full_pbs(
                u,
                desired_comp as int,
            ),
    ensures
        final(lines)@ == old(lines)@ + validator@.trace_lines(
            order,
            desired_comp as int,
            desired_mut,
            target as int,
            depth as int,
        ),
    decreases order.index_of(target as int),
{
    let ghost g = validator@;
    let ghost start = lines@;
    let ghost c = desired_comp as int;
    proof {
        validator.lemma_wf_model();
        lemma_order_positions(g.scopes.len(), g.edges(), order);
    }

    // The target's own borrows of the component.
    let borrows = &validator.scopes[target].borrows;
    let ghost direct = g.direct_lines(target as int, c, depth as int);
    proof {
        assert(g.scopes[target as int].borrows == access_views(borrows@));
    }
    let j = find_access(borrows, desired_comp);
    if j < borrows.len() {
        let sites = &borrows[j].sites;
        let mut i: usize = 0;
        while i < sites.len()
            invariant
                i <= sites@.len(),
                direct.len() == sites@.len(),
                forall|k: int|
                    0 <= k < sites@.len() ==> direct[k] == (ConflictLine::Borrowed {
                        depth,
                        mutability: sites@[k].mutability,
                        def_path: sites@[k].def_path,
                    }),
                lines@ == start + direct.take(i as int),
            decreases sites@.len() - i,
        {
            lines.push(
                ConflictLine::Borrowed { depth, mutability: sites[i].mutability, def_path: sites[i].def_path },
            );
            proof {
                assert(direct.take(i + 1) =~= direct.take(i as int).push(direct[i as int]));
                assert(lines@ =~= start + direct.take(i + 1));
            }
            i += 1;
        }
        proof {
            assert(direct.take(sites@.len() as int) =~= direct);
        }
    } else {
        proof {
            assert(lines@ =~= start + direct);
        }
    }

    // The callers that may hold the component.
    let callers = topology_callers(&validator.call_graph, target);
    let ghost callers_spec = callers_of(g.edges(), target as int);
    let ghost total = start + g.trace_lines(order, c, desired_mut, target as int, depth as int);
    proof {
        lemma_edges_where(g.edges(), enters(target as int));
        assert(ints(callers@) == callers_spec);
        assert(callers_spec.len() == callers@.len());
        assert(total =~= (start + direct) + g.caller_lines(order, c, desired_mut, target as int, depth as int, 0));
    }
    let mut printed_callers = hashing_new();
    let mut i: usize = 0;
    while i < callers.len()
        invariant
            i <= callers@.len(),
            validator.wf(),
            g == validator@,
            g.wf(),
            c == desired_comp as int,
            callers_spec == callers_of(g.edges(), target as int),
            ints(callers@) == callers_spec,
            is_topological_order(g.scopes.len(), g.edges(), order),
            table_ok(potentially_borrowed@, g.scopes.len(), g.components.len()),
            target < g.scopes.len(),
            desired_comp < g.components.len(),
            depth + order.index_of(target as int) <= g.scopes.len(),
            g.scopes.len() <= usize::MAX,
            forall|u: int|
                0 <= u < g.scopes.len() && order.index_of(u) < order.index_of(target as int)
                    ==> #[trigger] potentially_borrowed@[u]@[c] == g.full_pbs(u, c),
            forall|x: usize| printed_callers@.contains(x) <==> callers_spec.take(i as int).contains(x as int),
            lines@ + g.caller_lines(order, c, desired_mut, target as int, depth as int, i as int) == total,
        decreases callers@.len() - i,
    {
        let caller = callers[i];
        let ghost u = caller as int;
        let ghost rest = g.caller_lines(order, c, desired_mut, target as int, depth as int, i + 1);
        let ghost before = lines@;
        proof {
            lemma_order_positions(g.scopes.len(), g.edges(), order);
            lemma_edges_where(g.edges(), enters(target as int));
            let into = super::callgraph::edges_into(g.edges(), target as int);
            assert(callers_spec[i as int] == u);
            let e = into[i as int];
            assert(g.edges()[e] == (u, target as int));
            assert(g.calls[e].from == u);
            assert(g.in_scope(u));
            assert(has_edge(g.edges(), u, target as int));
            assert(order.index_of(u) < order.index_of(target as int));
            assert(potentially_borrowed@[u]@[c] == g.full_pbs(u, c));
            assert forall|x: usize| printed_callers@.insert(caller).contains(x) <==> callers_spec.take(
                i + 1,
            ).contains(x as int) by {
                lemma_take_contains(callers_spec, i as int, x as int);
            }
        }
        let fresh = hashing_insert(&mut printed_callers, caller);
        if fresh {
            match potentially_borrowed[caller][desired_comp] {
                Some(caller_mut) => {
                    if !caller_mut.is_compatible_with(desired_mut) {
                        lines.push(ConflictLine::CalledBy { depth, scope: caller, held: caller_mut });
                        let between = topology_connecting(&validator.call_graph, caller, target);
                        let ghost sites = g.call_site_lines(u, target as int, depth + 1);
                        let ghost opened = lines@;
                        proof {
                            lemma_edges_where(g.edges(), joins(u, target as int));
                            assert(ints(between@) == edges_between(g.edges(), u, target as int));
                        }
                        let mut t: usize = 0;
                        while t < between.len()
                            invariant
                                t <= between@.len(),
                                validator.wf(),
                                g == validator@,
                                sites == g.call_site_lines(u, target as int, depth + 1),
                                ints(between@) == edges_between(g.edges(), u, target as int),
                                forall|k: int|
                                    0 <= k < between@.len() ==> 0 <= #[trigger] ints(between@)[k]
                                        < g.calls.len(),
                                depth < usize::MAX,
                                lines@ == opened + sites.take(t as int),
                            decreases between@.len() - t,
                        {
                            proof {
                                assert(ints(between@)[t as int] == between@[t as int]);
                            }
                            lines.push(
                                ConflictLine::CallSite {
                                    depth: depth + 1,
                                    def_path: validator.calls[between[t]].meta.def_path,
                                },
                            );
                            proof {
                                assert(sites.take(t + 1) =~= sites.take(t as int).push(sites[t as int]));
                                assert(lines@ =~= opened + sites.take(t + 1));
                            }
                            t += 1;
                        }
                        lines.push(ConflictLine::TracedBack { depth });
                        let ghost traced = lines@;
                        print_tree(
                            lines,
                            validator,
                            potentially_borrowed,
                            desired_comp,
                            desired_mut,
                            caller,
                            depth + 1,
                            Ghost(order),
                        );
                        proof {
                            assert(sites.take(between@.len() as int) =~= sites);
                            assert(lines@ + rest =~= before + g.caller_lines(
                                order,
                                c,
                                desired_mut,
                                target as int,
                                depth as int,
                                i as int,
                            ));
                        }
                    }
                },
                None => {},
            }
        }
        i += 1;
    }
    proof {
        assert(lines@ =~= total);
    }
}


/// Among the first `i` edges of `outs`, one leads to `v`.
spec fn reached(edges: Seq<(int, int)>, outs: Seq<int>, i: int, v: int) -> bool {
    exists|t: int| 0 <= t < i && t < outs.len() && (#[trigger] edges[outs[t]]).1 == v
}

impl<'a> Validator<'a> {
    /// The pass over the scopes in the order `topos`: each scope is checked
    /// against what may be held when it is entered, then its own borrows and
    /// what it holds are handed to its callees.
    ///
    /// One pass suffices whatever topological order is given: the report
    /// holds a block for exactly the conflicting borrows.
    pub fn validate_in_order(&self, topos: &Vec<usize>) -> (r: Result<(), ValidationError<'a>>)
        requires
            self.wf(),
            is_topological_order(self@.scopes.len(), self@.edges(), ints(topos@)),
        ensures
            r is Ok <==> !self@.has_conflict(),
            match r {
                Ok(_) => self@.conflict_lines(ints(topos@)).len() == 0,
                Err(ValidationError::BorrowConflict(lines)) => lines@ == self@.conflict_lines(ints(topos@))
                    && lines@.len() > 0,
                Err(_) => false,
            },
    {
        let ghost g = self@;
        let ghost order = ints(topos@);
        proof {
            self.lemma_wf_model();
            lemma_report_empty_iff_no_conflict(g, order);
        }
        let mut cx = ValidationCx::new(self);
        proof {
            assert forall|v: int, c: int|
                0 <= v < g.scopes.len() && 0 <= c < g.components.len() implies #[trigger] cx.potentially_borrowed@[v]@[c]
                == g.pbs_after(order, 0, v, c) by {
                assert(!visited(order, 0, v));
            }
        }
        let mut k: usize = 0;
        while k < topos.len()
            invariant
                k <= topos@.len(),
                self.wf(),
                g == self@,
                g.wf(),
                order == ints(topos@),
                is_topological_order(g.scopes.len(), g.edges(), order),
                cx.wf(),
                cx.validator == self,
                table_agrees(g, order, k as int, cx.potentially_borrowed@),
                cx.lines@ == g.pass_lines(order, k as int),
            decreases topos@.len() - k,
        {
            let src_idx = topos[k];
            proof {
                assert(order[k as int] == src_idx);
                lemma_order_positions(g.scopes.len(), g.edges(), order);
            }

            // Validate the scope given its row.
            cx.validate_scope(src_idx, Ghost(order), Ghost(k as int));

            // Extend its row with its own borrows.
            let ghost entered = cx.potentially_borrowed@;
            cx.propagate_borrows_to_self(src_idx);
            let ghost extended = cx.potentially_borrowed@;

            // Hand the row to the callees.
            let outs = self.outgoing(src_idx);
            proof {
                assert forall|c: int| 0 <= c < g.components.len() implies #[trigger] extended[src_idx as int]@[c]
                    == g.full_pbs(src_idx as int, c) by {
                    lemma_row_complete_on_entry(g, order, k as int, c);
                    lemma_full_pbs(g, src_idx as int, c);
                    assert(entered[src_idx as int]@[c] == g.pbs_after(order, k as int, src_idx as int, c));
                }
                lemma_edges_where(g.edges(), leaves(src_idx as int));
                assert(!has_edge(g.edges(), src_idx as int, src_idx as int)) by {
                    if has_edge(g.edges(), src_idx as int, src_idx as int) {
                        assert(has_edge(g.edges(), order[k as int], order[k as int]));
                    }
                }
            }
            let mut i: usize = 0;
            while i < outs.len()
                invariant
                    i <= outs@.len(),
                    self.wf(),
                    g == self@,
                    g.wf(),
                    cx.wf(),
                    cx.validator == self,
                    cx.lines@ == g.pass_lines(order, k + 1),
                    src_idx < g.scopes.len(),
                    ints(outs@) == edges_from(g.edges(), src_idx as int),
                    forall|t: int|
                        0 <= t < outs@.len() ==> 0 <= #[trigger] ints(outs@)[t] < g.calls.len() && g.edges()[ints(
                            outs@,
                        )[t]].0 == src_idx,
                    !has_edge(g.edges(), src_idx as int, src_idx as int),
                    table_ok(extended, g.scopes.len(), g.components.len()),
                    forall|c: int|
                        0 <= c < g.components.len() ==> #[trigger] extended[src_idx as int]@[c] == g.full_pbs(
                            src_idx as int,
                            c,
                        ),
                    forall|v: int, c: int|
                        0 <= v < g.scopes.len() && 0 <= c < g.components.len()
                            ==> #[trigger] cx.potentially_borrowed@[v]@[c] == held_join(
                            extended[v]@[c],
                            if reached(g.edges(), ints(outs@), i as int, v) {
                                held_transfer(g.grant_of(v, c), g.full_pbs(src_idx as int, c))
                            } else {
                                None
                            },
                        ),
                decreases outs@.len() - i,
            {
                let ghost e = ints(outs@)[i as int];
                proof {
                    assert(e == outs@[i as int]);
                    assert(g.edges()[e] == (g.calls[e].from, g.calls[e].to));
                }
                let callee = self.calls[outs[i]].to;
                let ghost current = cx.potentially_borrowed@;
                proof {
                    assert(g.edges()[e].1 == callee);
                    assert(has_edge(g.edges(), src_idx as int, callee as int));
                    assert(!reached(g.edges(), ints(outs@), i as int, src_idx as int)) by {
                        if reached(g.edges(), ints(outs@), i as int, src_idx as int) {
                            let t = choose|t: int|
                                0 <= t < i && t < ints(outs@).len() && (#[trigger] g.edges()[ints(outs@)[t]]).1
                                    == src_idx as int;
                            assert(g.edges()[ints(outs@)[t]] == (src_idx as int, src_idx as int));
                        }
                    }
                }
                cx.propagate_borrows_to_others(src_idx, callee);
                proof {
                    assert forall|v: int, c: int|
                        0 <= v < g.scopes.len() && 0 <= c < g.components.len() implies #[trigger] cx.potentially_borrowed@[v]@[c]
                        == held_join(
                        extended[v]@[c],
                        if reached(g.edges(), ints(outs@), i + 1, v) {
                            held_transfer(g.grant_of(v, c), g.full_pbs(src_idx as int, c))
                        } else {
                            None
                        },
                    ) by {
                        assert(current[src_idx as int]@[c] == extended[src_idx as int]@[c]);
                        if v == callee {
                            assert(reached(g.edges(), ints(outs@), i + 1, v)) by {
                                assert(g.edges()[ints(outs@)[i as int]].1 == v);
                            }
                        } else {
                            if reached(g.edges(), ints(outs@), i + 1, v) {
                                let t = choose|t: int|
                                    0 <= t < i + 1 && t < ints(outs@).len() && (#[trigger] g.edges()[ints(
                                        outs@,
                                    )[t]]).1 == v;
                                assert(t < i);
                                assert(reached(g.edges(), ints(outs@), i as int, v));
                            }
                            if reached(g.edges(), ints(outs@), i as int, v) {
                                let t = choose|t: int|
                                    0 <= t < i && t < ints(outs@).len() && (#[trigger] g.edges()[ints(
                                        outs@,
                                    )[t]]).1 == v;
                                assert(reached(g.edges(), ints(outs@), i + 1, v));
                            }
                        }
                    }
                }
                i += 1;
            }
            proof {
                assert forall|v: int, c: int|
                    0 <= v < g.scopes.len() && 0 <= c < g.components.len() implies #[trigger] cx.potentially_borrowed@[v]@[c]
                    == g.pbs_after(order, k + 1, v, c) by {
                    lemma_pass_step(g, order, k as int, v, c);
                    assert(entered[v]@[c] == g.pbs_after(order, k as int, v, c));
                    let outs_spec = ints(outs@);
                    if reached(g.edges(), outs_spec, outs@.len() as int, v) {
                        let t = choose|t: int|
                            0 <= t < outs@.len() && t < outs_spec.len() && (#[trigger] g.edges()[outs_spec[t]]).1
                                == v;
                        assert(g.edges()[outs_spec[t]] == (src_idx as int, v));
                    }
                    if has_edge(g.edges(), src_idx as int, v) {
                        let e = choose|e: int| 0 <= e < g.edges().len() && #[trigger] g.edges()[e] == (src_idx as int, v);
                        assert(leaves(src_idx as int)(g.edges()[e]));
                        assert(outs_spec.contains(e));
                        let t = choose|t: int| 0 <= t < outs_spec.len() && outs_spec[t] == e;
                        assert(g.edges()[outs_spec[t]].1 == v);
                        assert(reached(g.edges(), outs_spec, outs@.len() as int, v));
                    }
                }
            }
            k += 1;
        }
        if cx.lines.len() == 0 {
            Ok(())
        } else {
            Err(ValidationError::BorrowConflict(cx.lines))
        }
    }

    /// The indices of the call edges that leave `scope`, latest first.
    fn outgoing(&self, scope: usize) -> (outs: Vec<usize>)
        requires
            self.wf(),
            scope < self@.scopes.len(),
        ensures
            ints(outs@) == edges_from(self@.edges(), scope as int),
    {
        topology_outgoing(&self.call_graph, scope)
    }
}


/// A block of the report stands for a conflicting borrow, and the other way
/// round: the `j`-th borrow of `v` has a block exactly if `v` conflicts on its
/// component.
proof fn lemma_borrow_lines(g: ValidatorView, order: Seq<int>, v: int, j: int)
    requires
        g.wf(),
        g.in_scope(v),
        0 <= j < g.scopes[v].borrows.len(),
    ensures
        g.borrow_lines(order, v, j).len() > 0 <==> g.conflict(v, g.scopes[v].borrows[j].component),
        g.borrow_of(v, g.scopes[v].borrows[j].component) == Some(g.scopes[v].borrows[j].mutability),
{
    let list = g.scopes[v].borrows;
    let c = list[j].component;
    let names = access_components(list);
    names.index_of_first_ensures(c);
    assert(names[j] == c);
    let first = names.index_of_first(c)->0;
    assert(names[first] == c);
    assert(first == j);
}

/// The blocks of a scope's first `upto` borrows are empty exactly if none of
/// those borrows conflicts.
proof fn lemma_scope_lines(g: ValidatorView, order: Seq<int>, v: int, upto: int)
    requires
        g.wf(),
        g.in_scope(v),
        0 <= upto <= g.scopes[v].borrows.len(),
    ensures
        g.scope_lines(order, v, upto).len() == 0 <==> forall|j: int|
            0 <= j < upto ==> !g.conflict(v, (#[trigger] g.scopes[v].borrows[j]).component),
    decreases upto,
{
    if upto > 0 {
        lemma_scope_lines(g, order, v, upto - 1);
        lemma_borrow_lines(g, order, v, upto - 1);
        if g.scope_lines(order, v, upto).len() == 0 {
            assert forall|j: int| 0 <= j < upto implies !g.conflict(
                v,
                (#[trigger] g.scopes[v].borrows[j]).component,
            ) by {}
        }
    }
}

/// The blocks of the first `upto` scopes of `order` are empty exactly if none
/// of those scopes conflicts on a component it borrows.
proof fn lemma_pass_lines(g: ValidatorView, order: Seq<int>, upto: int)
    requires
        g.wf(),
        0 <= upto <= order.len(),
        forall|k: int| 0 <= k < order.len() ==> g.in_scope(#[trigger] order[k]),
    ensures
        g.pass_lines(order, upto).len() == 0 <==> forall|k: int, j: int|
            0 <= k < upto && 0 <= j < g.scopes[order[k]].borrows.len() ==> !g.conflict(
                order[k],
                (#[trigger] g.scopes[order[k]].borrows[j]).component,
            ),
    decreases upto,
{
    if upto > 0 {
        let v = order[upto - 1];
        lemma_pass_lines(g, order, upto - 1);
        lemma_scope_lines(g, order, v, g.scopes[v].borrows.len() as int);
        if g.pass_lines(order, upto).len() == 0 {
            assert forall|k: int, j: int|
                0 <= k < upto && 0 <= j < g.scopes[order[k]].borrows.len() implies !g.conflict(
                order[k],
                (#[trigger] g.scopes[order[k]].borrows[j]).component,
            ) by {}
        }
    }
}

/// The report of a pass in topological order is empty exactly if no scope
/// has a conflict.
pub proof fn lemma_report_empty_iff_no_conflict(g: ValidatorView, order: Seq<int>)
    requires
        g.wf(),
        is_topological_order(g.scopes.len(), g.edges(), order),
    ensures
        g.conflict_lines(order).len() == 0 <==> !g.has_conflict(),
{
    lemma_pass_lines(g, order, order.len() as int);
    if g.has_conflict() {
        let (v, c) = choose|v: int, c: int| g.in_scope(v) && #[trigger] g.conflict(v, c);
        assert(order.contains(v));
        let k = choose|k: int| 0 <= k < order.len() && order[k] == v;
        let names = access_components(g.scopes[v].borrows);
        names.index_of_first_ensures(c);
        let j = names.index_of_first(c)->0;
        assert(names[j] == c);
        assert(g.conflict(order[k], g.scopes[order[k]].borrows[j].component));
    }
    if g.conflict_lines(order).len() != 0 {
        let (k, j) = choose|k: int, j: int|
            0 <= k < order.len() && 0 <= j < g.scopes[order[k]].borrows.len() && g.conflict(
                order[k],
                (#[trigger] g.scopes[order[k]].borrows[j]).component,
            );
        assert(g.in_scope(order[k]));
    }
}

impl<'a> Validator<'a> {
    /// Validates the graph: rejects it if scopes may call each other in a
    /// cycle, and else if some scope borrows a component that may already be
    /// held incompatibly when the scope is entered.
    pub fn validate(&self) -> (r: Result<(), ValidationError<'a>>)
        requires
            self.wf(),
        ensures
            match r {
                Ok(_) => !has_cycle(self@.edges()) && !self@.has_conflict(),
                Err(ValidationError::Cycle(lines)) => has_cycle(self@.edges()) && lines@
                    == self@.cycle_lines(sccs_of(self@.scopes.len(), self@.edges())),
                Err(ValidationError::BorrowConflict(lines)) => !has_cycle(self@.edges())
                    && self@.has_conflict() && toposort_of(self@.scopes.len(), self@.edges()) is Some
                    && lines@ == self@.conflict_lines(
                    toposort_of(self@.scopes.len(), self@.edges())->0,
                ),
            },
    {
        proof {
            self.lemma_wf_model();
        }
        // Assuming the graph is acyclic, sort the scopes topologically.
        match topology_toposort(&self.call_graph) {
            Some(topos) => {
                proof {
                    let g = self@;
                    assert forall|e: int| 0 <= e < g.edges().len() implies 0 <= (#[trigger] g.edges()[e]).0
                        < g.scopes.len() && 0 <= g.edges()[e].1 < g.scopes.len() by {
                        assert(g.edges()[e] == (g.calls[e].from, g.calls[e].to));
                    }
                    lemma_ordered_is_acyclic(g.scopes.len(), g.edges(), ints(topos@));
                    lemma_report_empty_iff_no_conflict(g, ints(topos@));
                }
                self.validate_in_order(&topos)
            },
            None => {
                // A cycle lets a scope be reached through itself: report where.
                let sccs = topology_sccs(&self.call_graph);
                proof {
                    let g = self@;
                    let rows = super::callgraph::int_rows(sccs@);
                    assert forall|i: int, j: int| 0 <= i < sccs@.len() && 0 <= j < sccs@[i]@.len() implies #[trigger] sccs@[i]@[j]
                        < g.scopes.len() by {
                        assert(rows[i] == ints(sccs@[i]@));
                        assert(rows[i][j] == sccs@[i]@[j]);
                        assert(super::callgraph::scc_holds(rows, i, sccs@[i]@[j] as int));
                    }
                }
                Err(ValidationError::Cycle(self.report_cycles(&sccs)))
            },
        }
    }
}


} // verus!
