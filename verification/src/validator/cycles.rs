//! The report on cycles: the strongly connected components that hold one.

use super::callgraph::{
    edges_from, has_edge, int_rows, ints, is_cycle, is_scc_partition, is_walk, leaves, lemma_edges_where,
    reaches, scc_covers, scc_holds, topology_outgoing,
};
use super::hashing::{hashing_contains, hashing_insert, hashing_new};
use super::model::ValidatorView;
use super::report::CycleLine;
use super::validate::lemma_take_contains;
use super::Validator;
use vstd::prelude::*;

verus! {

impl<'a> ValidatorView<'a> {
    /// The component `scc` is reported: it has more than one scope, or its
    /// one scope calls itself.
    pub open spec fn is_reported(self, scc: Seq<int>) -> bool {
        scc.len() != 1 || has_edge(self.edges(), scc[0], scc[0])
    }

    /// One line for each of the first `upto` edges of `outs` that leads into
    /// `scc`.
    pub open spec fn calls_within(self, scc: Seq<int>, outs: Seq<int>, upto: int) -> Seq<CycleLine<'a>>
        decreases upto,
    {
        if upto <= 0 {
            Seq::empty()
        } else {
            let e = outs[upto - 1];
            let before = self.calls_within(scc, outs, upto - 1);
            if scc.contains(self.calls[e].to) {
                before.push(
                    CycleLine::Calls { target: self.calls[e].to as usize, def_path: self.calls[e].meta.def_path },
                )
            } else {
                before
            }
        }
    }

    /// The lines for the scope `v` of `scc`: the scope, then its calls into
    /// `scc`, latest first.
    pub open spec fn member_lines(self, scc: Seq<int>, v: int) -> Seq<CycleLine<'a>> {
        let outs = edges_from(self.edges(), v);
        seq![CycleLine::Member { scope: v as usize }] + self.calls_within(scc, outs, outs.len() as int)
    }

    /// The lines for the first `upto` scopes of `scc`.
    pub open spec fn members_lines(self, scc: Seq<int>, upto: int) -> Seq<CycleLine<'a>>
        decreases upto,
    {
        if upto <= 0 {
            Seq::empty()
        } else {
            self.members_lines(scc, upto - 1) + self.member_lines(scc, scc[upto - 1])
        }
    }

    /// How many of the first `upto` components of `sccs` are reported.
    pub open spec fn reported_count(self, sccs: Seq<Seq<int>>, upto: int) -> nat
        decreases upto,
    {
        if upto <= 0 {
            0
        } else if self.is_reported(sccs[upto - 1]) {
            self.reported_count(sccs, upto - 1) + 1
        } else {
            self.reported_count(sccs, upto - 1)
        }
    }

    /// The block of a reported component, with the number it bears.
    pub open spec fn block_lines(self, scc: Seq<int>, number: nat) -> Seq<CycleLine<'a>> {
        seq![CycleLine::Cycle { number: number as usize }] + self.members_lines(scc, scc.len() as int) + seq![
            CycleLine::End,
        ]
    }

    /// The blocks of the reported components among the first `upto` of `sccs`.
    pub open spec fn blocks_lines(self, sccs: Seq<Seq<int>>, upto: int) -> Seq<CycleLine<'a>>
        decreases upto,
    {
        if upto <= 0 {
            Seq::empty()
        } else if self.is_reported(sccs[upto - 1]) {
            self.blocks_lines(sccs, upto - 1) + self.block_lines(
                sccs[upto - 1],
                self.reported_count(sccs, upto - 1) + 1,
            )
        } else {
            self.blocks_lines(sccs, upto - 1)
        }
    }

    /// The report on cycles: one block for each component of `sccs` that is
    /// reported, in the order of `sccs`, numbered from one.
    pub open spec fn cycle_lines(self, sccs: Seq<Seq<int>>) -> Seq<CycleLine<'a>> {
        self.blocks_lines(sccs, sccs.len() as int)
    }

    /// The scope `v` lies on a cycle: some walk of at least one edge leads
    /// from `v` back to `v`.
    pub open spec fn on_cycle(self, v: int) -> bool {
        exists|walk: Seq<int>| is_cycle(self.edges(), walk) && walk[0] == v
    }
}

/// The rest of a walk, from its position `i` on, is a walk.
proof fn lemma_walk_skip(edges: Seq<(int, int)>, walk: Seq<int>, i: int)
    requires
        is_walk(edges, walk),
        0 <= i < walk.len(),
    ensures
        is_walk(edges, walk.skip(i)),
        walk.skip(i).first() == walk[i],
        walk.skip(i).last() == walk.last(),
{
    let rest = walk.skip(i);
    assert forall|k: int| 0 <= k < rest.len() - 1 implies has_edge(edges, #[trigger] rest[k], rest[k + 1]) by {
        assert(has_edge(edges, walk[i + k], walk[i + k + 1]));
    }
}

/// SCC coverage: a scope that lies on a cycle stands in exactly one component
/// of the partition, and that component is reported.
pub proof fn lemma_scc_coverage(g: ValidatorView, sccs: Seq<Seq<int>>, v: int)
    requires
        g.wf(),
        is_scc_partition(g.scopes.len(), g.edges(), sccs),
        g.on_cycle(v),
    ensures
        g.in_scope(v),
        exists|i: int| #[trigger] scc_holds(sccs, i, v) && g.is_reported(sccs[i]),
        forall|i: int, k: int| scc_holds(sccs, i, v) && scc_holds(sccs, k, v) ==> i == k,
{
    let edges = g.edges();
    let walk = choose|walk: Seq<int>| is_cycle(edges, walk) && walk[0] == v;
    let w = walk[1];
    assert(has_edge(edges, walk[0int], walk[0int + 1]));
    let first = choose|e: int| 0 <= e < edges.len() && #[trigger] edges[e] == (v, w);
    assert(g.calls[first].from == v);
    assert(scc_covers(sccs, v));
    let i = choose|i: int| scc_holds(sccs, i, v);
    if sccs[i].len() == 1 && !has_edge(edges, sccs[i][0], sccs[i][0]) {
        let only = sccs[i][0];
        let at = choose|at: int| 0 <= at < sccs[i].len() && sccs[i][at] == v;
        assert(only == v);
        assert(w != v);
        // `v` reaches `w` by one edge, and `w` reaches `v` by the rest of the cycle.
        let there = seq![v, w];
        assert(is_walk(edges, there)) by {
            assert forall|k: int| 0 <= k < there.len() - 1 implies has_edge(edges, #[trigger] there[k], there[k + 1]) by {
                assert(there[0] == v && there[1] == w);
            }
        }
        assert(there.first() == v && there.last() == w);
        assert(reaches(edges, v, w));
        lemma_walk_skip(edges, walk, 1);
        assert(reaches(edges, w, v));
        let e = choose|e: int| 0 <= e < edges.len() && #[trigger] edges[e] == (v, w);
        assert(g.calls[e].to == w);
        assert(scc_covers(sccs, w));
        let k = choose|k: int| scc_holds(sccs, k, w);
        assert(i == k);
        let at_w = choose|at_w: int| 0 <= at_w < sccs[i].len() && sccs[i][at_w] == w;
        assert(false);
    }
    assert(scc_holds(sccs, i, v) && g.is_reported(sccs[i]));
    assert forall|a: int, b: int| scc_holds(sccs, a, v) && scc_holds(sccs, b, v) implies a == b by {
        let only = seq![v];
        assert(is_walk(edges, only));
        assert(only.first() == v && only.last() == v);
        assert(reaches(edges, v, v));
    }
}

/// How many of `lines` name the scope `v` as a member of a cycle.
pub open spec fn member_count(lines: Seq<CycleLine>, v: int) -> nat
    decreases lines.len(),
{
    if lines.len() == 0 {
        0
    } else {
        member_count(lines.drop_last(), v) + (if lines.last() == (CycleLine::Member { scope: v as usize }) {
            1nat
        } else {
            0nat
        })
    }
}

/// The member lines of two reports, one after the other, add up.
proof fn lemma_member_count_add(a: Seq<CycleLine>, b: Seq<CycleLine>, v: int)
    ensures
        member_count(a + b, v) == member_count(a, v) + member_count(b, v),
    decreases b.len(),
{
    if b.len() == 0 {
        assert(a + b =~= a);
    } else {
        assert((a + b).drop_last() =~= a + b.drop_last());
        lemma_member_count_add(a, b.drop_last(), v);
    }
}

/// One line names the scope `v` as a member if it is the line for that.
proof fn lemma_member_count_one(line: CycleLine, v: int)
    ensures
        member_count(seq![line], v) == (if line == (CycleLine::Member { scope: v as usize }) {
            1nat
        } else {
            0nat
        }),
{
    let one = seq![line];
    assert(one.drop_last() =~= Seq::<CycleLine>::empty());
    assert(member_count(Seq::<CycleLine>::empty(), v) == 0);
    assert(one.last() == line);
}

/// The lines for calls name no member.
proof fn lemma_calls_name_no_member(g: ValidatorView, scc: Seq<int>, outs: Seq<int>, upto: int, v: int)
    ensures
        member_count(g.calls_within(scc, outs, upto), v) == 0,
    decreases upto,
{
    if upto > 0 {
        lemma_calls_name_no_member(g, scc, outs, upto - 1, v);
        let before = g.calls_within(scc, outs, upto - 1);
        let e = outs[upto - 1];
        if scc.contains(g.calls[e].to) {
            let line = CycleLine::Calls { target: g.calls[e].to as usize, def_path: g.calls[e].meta.def_path };
            assert(before.push(line).drop_last() =~= before);
        }
    }
}

/// Among the lines for the first `upto` scopes of a component without
/// repetition, one names `v` if `v` is among those scopes, and none else.
proof fn lemma_members_name_each_once(g: ValidatorView, scc: Seq<int>, upto: int, v: int)
    requires
        scc.no_duplicates(),
        0 <= upto <= scc.len(),
        0 <= v <= usize::MAX,
        forall|j: int| 0 <= j < scc.len() ==> 0 <= #[trigger] scc[j] <= usize::MAX,
    ensures
        member_count(g.members_lines(scc, upto), v) == (if scc.take(upto).contains(v) {
            1nat
        } else {
            0nat
        }),
    decreases upto,
{
    if upto > 0 {
        let u = scc[upto - 1];
        let outs = edges_from(g.edges(), u);
        let calls = g.calls_within(scc, outs, outs.len() as int);
        let head = seq![CycleLine::Member { scope: u as usize }];
        lemma_members_name_each_once(g, scc, upto - 1, v);
        lemma_calls_name_no_member(g, scc, outs, outs.len() as int, v);
        lemma_member_count_add(head, calls, v);
        lemma_member_count_add(g.members_lines(scc, upto - 1), g.member_lines(scc, u), v);
        lemma_member_count_one(CycleLine::Member { scope: u as usize }, v);
        lemma_take_contains(scc, upto - 1, v);
        let earlier = scc.take(upto - 1);
        if earlier.contains(v) {
            let j = choose|j: int| 0 <= j < earlier.len() && earlier[j] == v;
            assert(scc[j] == v);
            assert(u != v);
        }
    } else {
        assert(scc.take(0) =~= Seq::<int>::empty());
    }
}

/// The block of a component names `v` once if the component holds `v`, and
/// not at all if it does not.
proof fn lemma_block_names_each_once(g: ValidatorView, scc: Seq<int>, number: nat, v: int)
    requires
        scc.no_duplicates(),
        0 <= v <= usize::MAX,
        forall|j: int| 0 <= j < scc.len() ==> 0 <= #[trigger] scc[j] <= usize::MAX,
    ensures
        member_count(g.block_lines(scc, number), v) == (if scc.contains(v) {
            1nat
        } else {
            0nat
        }),
{
    let head = seq![CycleLine::Cycle { number: number as usize }];
    let members = g.members_lines(scc, scc.len() as int);
    let tail = seq![CycleLine::End];
    lemma_members_name_each_once(g, scc, scc.len() as int, v);
    assert(scc.take(scc.len() as int) =~= scc);
    lemma_member_count_add(head, members, v);
    lemma_member_count_add(head + members, tail, v);
    lemma_member_count_one(CycleLine::Cycle { number: number as usize }, v);
    lemma_member_count_one(CycleLine::End, v);
}

/// The blocks of the first `upto` components name `v` once if one of those
/// components holds `v` and is reported, else not at all.
proof fn lemma_blocks_name_each_once(g: ValidatorView, sccs: Seq<Seq<int>>, upto: int, v: int, home: int)
    requires
        g.scopes.len() <= usize::MAX,
        is_scc_partition(g.scopes.len(), g.edges(), sccs),
        0 <= upto <= sccs.len(),
        scc_holds(sccs, home, v),
    ensures
        member_count(g.blocks_lines(sccs, upto), v) == (if home < upto && g.is_reported(sccs[home]) {
            1nat
        } else {
            0nat
        }),
    decreases upto,
{
    if upto > 0 {
        let scc = sccs[upto - 1];
        lemma_blocks_name_each_once(g, sccs, upto - 1, v, home);
        if g.is_reported(scc) {
            let number = g.reported_count(sccs, upto - 1) + 1;
            assert forall|j: int| 0 <= j < scc.len() implies 0 <= #[trigger] scc[j] <= usize::MAX by {
                assert(scc_holds(sccs, upto - 1, scc[j]));
            }
            lemma_block_names_each_once(g, scc, number, v);
            lemma_member_count_add(g.blocks_lines(sccs, upto - 1), g.block_lines(scc, number), v);
            if scc.contains(v) {
                assert(scc_holds(sccs, upto - 1, v));
                let only = seq![v];
                assert(is_walk(g.edges(), only));
                assert(only.first() == v && only.last() == v);
                assert(reaches(g.edges(), v, v));
            }
        } else {
            if upto - 1 == home {
            }
        }
    }
}

/// SCC coverage, in the report: a scope that lies on a cycle is named as a
/// member in the report on cycles, exactly once.
pub proof fn lemma_cycle_member_reported_once(g: ValidatorView, sccs: Seq<Seq<int>>, v: int)
    requires
        g.wf(),
        g.scopes.len() <= usize::MAX,
        is_scc_partition(g.scopes.len(), g.edges(), sccs),
        g.on_cycle(v),
    ensures
        member_count(g.cycle_lines(sccs), v) == 1,
{
    lemma_scc_coverage(g, sccs, v);
    let home = choose|i: int| #[trigger] scc_holds(sccs, i, v) && g.is_reported(sccs[i]);
    lemma_blocks_name_each_once(g, sccs, sccs.len() as int, v, home);
}

/// The first `upto` handles of `scc` are exactly what `set` holds.
spec fn holds_prefix(set: Set<usize>, scc: Seq<int>, upto: int) -> bool {
    forall|x: usize| set.contains(x) <==> scc.take(upto).contains(x as int)
}

impl<'a> Validator<'a> {
    /// Whether the scope calls itself.
    fn calls_itself(&self, scope: usize) -> (r: bool)
        requires
            self.wf(),
            scope < self@.scopes.len(),
        ensures
            r == has_edge(self@.edges(), scope as int, scope as int),
    {
        let ghost g = self@;
        let outs = topology_outgoing(&self.call_graph, scope);
        proof {
            lemma_edges_where(g.edges(), leaves(scope as int));
        }
        let mut t: usize = 0;
        while t < outs.len()
            invariant
                t <= outs@.len(),
                self.wf(),
                g == self@,
                ints(outs@) == edges_from(g.edges(), scope as int),
                forall|k: int|
                    0 <= k < outs@.len() ==> 0 <= #[trigger] ints(outs@)[k] < g.calls.len() && g.edges()[ints(
                        outs@,
                    )[k]].0 == scope,
                forall|k: int| 0 <= k < t ==> g.edges()[#[trigger] ints(outs@)[k]].1 != scope,
            decreases outs@.len() - t,
        {
            proof {
                assert(ints(outs@)[t as int] == outs@[t as int]);
                let e = ints(outs@)[t as int];
                assert(g.edges()[e] == (g.calls[e].from, g.calls[e].to));
            }
            if self.calls[outs[t]].to == scope {
                proof {
                    assert(g.edges()[ints(outs@)[t as int]] == (scope as int, scope as int));
                }
                return true;
            }
            t += 1;
        }
        proof {
            if has_edge(g.edges(), scope as int, scope as int) {
                let e = choose|e: int| 0 <= e < g.edges().len() && #[trigger] g.edges()[e] == (scope as int, scope as int);
                assert(leaves(scope as int)(g.edges()[e]));
                assert(ints(outs@).contains(e));
                let k = choose|k: int| 0 <= k < ints(outs@).len() && ints(outs@)[k] == e;
                assert(g.edges()[ints(outs@)[k]].1 == scope);
            }
        }
        false
    }

    /// The report on cycles for the strongly connected components `sccs`: a
    /// block for each component that has more than one scope or whose one
    /// scope calls itself.
    pub fn report_cycles(&self, sccs: &Vec<Vec<usize>>) -> (lines: Vec<CycleLine<'a>>)
        requires
            self.wf(),
            forall|i: int, j: int|
                0 <= i < sccs@.len() && 0 <= j < sccs@[i]@.len() ==> #[trigger] sccs@[i]@[j] < self@.scopes.len(),
        ensures
            lines@ == self@.cycle_lines(int_rows(sccs@)),
    {
        let ghost g = self@;
        let ghost rows = int_rows(sccs@);
        let mut lines: Vec<CycleLine<'a>> = Vec::new();
        let mut count: usize = 0;
        let mut i: usize = 0;
        while i < sccs.len()
            invariant
                i <= sccs@.len(),
                self.wf(),
                g == self@,
                rows == int_rows(sccs@),
                forall|a: int, b: int|
                    0 <= a < sccs@.len() && 0 <= b < sccs@[a]@.len() ==> #[trigger] sccs@[a]@[b] < g.scopes.len(),
                count == g.reported_count(rows, i as int),
                count <= i,
                lines@ == g.blocks_lines(rows, i as int),
            decreases sccs@.len() - i,
        {
            let scc = &sccs[i];
            let ghost row = rows[i as int];
            proof {
                assert(row == ints(scc@));
                assert(row.len() == scc@.len());
            }
            // A component that is one scope without a call to itself holds no cycle.
            let mut skip = false;
            if scc.len() == 1 {
                proof {
                    assert(row[0] == scc@[0]);
                }
                skip = !self.calls_itself(scc[0]);
            }
            if !skip {
                let ghost before = lines@;
                lines.push(CycleLine::Cycle { number: count + 1 });
                count += 1;

                let mut members = hashing_new();
                let mut m: usize = 0;
                while m < scc.len()
                    invariant
                        m <= scc@.len(),
                        row == ints(scc@),
                        holds_prefix(members@, row, m as int),
                    decreases scc@.len() - m,
                {
                    proof {
                        assert(row[m as int] == scc@[m as int]);
                        assert forall|x: usize| members@.insert(scc@[m as int]).contains(x) <==> row.take(
                            m + 1,
                        ).contains(x as int) by {
                            lemma_take_contains(row, m as int, x as int);
                        }
                    }
                    hashing_insert(&mut members, scc[m]);
                    m += 1;
                }
                proof {
                    assert(row.take(scc@.len() as int) =~= row);
                }

                let ghost opened = lines@;
                let mut j: usize = 0;
                while j < scc.len()
                    invariant
                        j <= scc@.len(),
                        self.wf(),
                        g == self@,
                        row == ints(scc@),
                        forall|b: int| 0 <= b < scc@.len() ==> #[trigger] scc@[b] < g.scopes.len(),
                        forall|x: usize| members@.contains(x) <==> row.contains(x as int),
                        lines@ == opened + g.members_lines(row, j as int),
                    decreases scc@.len() - j,
                {
                    let scope = scc[j];
                    let ghost v = scope as int;
                    proof {
                        assert(row[j as int] == v);
                    }
                    let ghost at_member = lines@;
                    lines.push(CycleLine::Member { scope });
                    let outs = topology_outgoing(&self.call_graph, scope);
                    let ghost outs_spec = edges_from(g.edges(), v);
                    proof {
                        lemma_edges_where(g.edges(), leaves(v));
                    }
                    let ghost named = lines@;
                    let mut t: usize = 0;
                    while t < outs.len()
                        invariant
                            t <= outs@.len(),
                            self.wf(),
                            g == self@,
                            outs_spec == edges_from(g.edges(), v),
                            ints(outs@) == outs_spec,
                            forall|k: int| 0 <= k < outs@.len() ==> 0 <= #[trigger] ints(outs@)[k] < g.calls.len(),
                            forall|x: usize| members@.contains(x) <==> row.contains(x as int),
                            lines@ == named + g.calls_within(row, outs_spec, t as int),
                        decreases outs@.len() - t,
                    {
                        proof {
                            assert(ints(outs@)[t as int] == outs@[t as int]);
                            self.lemma_wf_model();
                        }
                        let call = &self.calls[outs[t]];
                        if hashing_contains(&members, call.to) {
                            lines.push(CycleLine::Calls { target: call.to, def_path: call.meta.def_path });
                        }
                        proof {
                            assert(lines@ =~= named + g.calls_within(row, outs_spec, t + 1));
                        }
                        t += 1;
                    }
                    proof {
                        assert(lines@ =~= at_member + g.member_lines(row, v));
                        assert(lines@ =~= opened + g.members_lines(row, j + 1));
                    }
                    j += 1;
                }
                lines.push(CycleLine::End);
                proof {
                    assert(lines@ =~= before + g.block_lines(row, g.reported_count(rows, i as int) + 1));
                }
            }
            i += 1;
        }
        lines
    }
}

} // verus!
