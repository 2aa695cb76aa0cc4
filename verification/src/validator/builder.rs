//! Building the graph: registering scopes and components and recording calls,
//! borrows and grants.

use super::callgraph::{topology_add_edge, topology_add_node, topology_new, MAX_GRAPH_ITEMS};
use super::hashing::{index_entries, index_get, index_insert, index_new};
use super::model::{access_components, accesses_wf, record_access, ValidatorView};
use super::{
    access_views, Access, BorrowMeta, Call, CallMeta, Component, ComponentId, ComponentMeta, Mutability,
    Scope, ScopeId, ScopeMeta, Validator,
};
use vstd::prelude::*;

verus! {

/// `i` is the first position of `x` in `s`, or the length of `s` if `x` does
/// not occur.
pub proof fn lemma_first_index<A>(s: Seq<A>, x: A, i: int)
    requires
        0 <= i <= s.len(),
        forall|j: int| 0 <= j < i ==> s[j] != x,
        i < s.len() ==> s[i] == x,
    ensures
        i < s.len() ==> s.index_of_first(x) == Some(i) && s.contains(x),
        i == s.len() ==> s.index_of_first(x) is None && !s.contains(x),
{
    s.index_of_first_ensures(x);
}

/// In a sequence without repetition, the first position of what it holds is
/// its only position.
pub proof fn lemma_position(ids: Seq<Seq<char>>, id: Seq<char>)
    requires
        ids.no_duplicates(),
    ensures
        forall|i: int| 0 <= i < ids.len() && ids[i] == id ==> ids.index_of_first(id) == Some(i),
        !ids.contains(id) ==> ids.index_of_first(id) is None,
{
    ids.index_of_first_ensures(id);
}

/// An index that agrees with `ids` agrees with `ids` and one new id, once it
/// gives the new id the next position.
pub proof fn lemma_index_grows(index: Map<Seq<char>, usize>, ids: Seq<Seq<char>>, id: Seq<char>)
    requires
        super::index_agrees(index, ids),
        !ids.contains(id),
        ids.len() <= usize::MAX,
    ensures
        super::index_agrees(index.insert(id, ids.len() as usize), ids.push(id)),
{
    let longer = ids.push(id);
    let grown = index.insert(id, ids.len() as usize);
    assert forall|x: Seq<char>| #[trigger] grown.dom().contains(x) <==> longer.contains(x) by {
        if ids.contains(x) {
            let i = choose|i: int| 0 <= i < ids.len() && ids[i] == x;
            assert(longer[i] == x);
        }
        if x == id {
            assert(longer[ids.len() as int] == x);
        }
        if longer.contains(x) && x != id {
            let i = choose|i: int| 0 <= i < longer.len() && longer[i] == x;
            assert(ids[i] == x);
        }
    }
    assert forall|i: int| 0 <= i < longer.len() implies grown[#[trigger] longer[i]] == i by {
        if i < ids.len() {
            assert(longer[i] == ids[i]);
            assert(ids.contains(ids[i]));
        }
    }
}

/// Recording a declaration for a registered component keeps a borrow or grant
/// map well formed.
pub proof fn lemma_record_access_wf<'a>(
    list: Seq<super::AccessView<'a>>,
    c: int,
    requested: Mutability,
    site: BorrowMeta<'a>,
    components: nat,
)
    requires
        accesses_wf(list, components),
        0 <= c < components,
    ensures
        accesses_wf(record_access(list, c, requested, site), components),
{
    let after = record_access(list, c, requested, site);
    access_components(list).index_of_first_ensures(c);
    match access_components(list).index_of_first(c) {
        Some(j) => {
            assert(access_components(after) =~= access_components(list));
        },
        None => {
            assert(access_components(after) =~= access_components(list).push(c));
        },
    }
}

/// The position of component `c` in a borrow or grant map, or the map's
/// length if the map does not hold `c`.
pub(super) fn find_access<'a>(list: &Vec<Access<'a>>, c: usize) -> (j: usize)
    ensures
        j <= list@.len(),
        j < list@.len() ==> list@[j as int].component == c,
        j < list@.len() ==> access_components(access_views(list@)).index_of_first(c as int) == Some(j as int),
        j == list@.len() ==> access_components(access_views(list@)).index_of_first(c as int) is None,
{
    let mut j: usize = 0;
    while j < list.len()
        invariant
            j <= list@.len(),
            forall|k: int| 0 <= k < j ==> access_components(access_views(list@))[k] != c as int,
        decreases list@.len() - j,
    {
        if list[j].component == c {
            proof {
                lemma_first_index(access_components(access_views(list@)), c as int, j as int);
            }
            return j;
        }
        j += 1;
    }
    proof {
        lemma_first_index(access_components(access_views(list@)), c as int, j as int);
    }
    j
}

/// Records one more declaration for component `c` in a borrow or grant map.
fn record<'a>(list: &mut Vec<Access<'a>>, c: usize, requested: Mutability, site: BorrowMeta<'a>)
    ensures
        access_views(final(list)@) == record_access(access_views(old(list)@), c as int, requested, site),
{
    let ghost before = access_views(list@);
    let j = find_access(list, c);
    if j < list.len() {
        let ghost entry = before[j as int];
        assert(entry.component == c);
        list[j].mutability = list[j].mutability.strictest(requested);
        list[j].sites.push(site);
        assert(access_views(list@) =~= before.update(
            j as int,
            super::AccessView {
                component: c as int,
                mutability: entry.mutability.join(requested),
                sites: entry.sites.push(site),
            },
        ));
    } else {
        let mut sites = Vec::new();
        sites.push(site);
        list.push(Access { component: c, mutability: Mutability::Immutable.strictest(requested), sites });
        assert(access_views(list@) =~= record_access(before, c as int, requested, site));
    }
}

impl<'a> Validator<'a> {
    /// A validator that holds nothing.
    pub fn new() -> (r: Self)
        ensures
            r.wf(),
            r@ == ValidatorView::<'a>::empty(),
    {
        let r = Validator {
            call_graph: topology_new(),
            scopes: Vec::new(),
            scope_id_to_node: index_new(),
            components: Vec::new(),
            component_id_to_handle: index_new(),
            calls: Vec::new(),
        };
        assert(r@.scopes =~= Seq::empty());
        assert(r@.components =~= Seq::empty());
        assert(r@.calls =~= Seq::empty());
        assert(r@.edges() =~= Seq::empty());
        r
    }

    /// The number of scopes registered so far.
    pub fn scope_count(&self) -> (n: usize)
        ensures
            n == self@.scopes.len(),
    {
        self.scopes.len()
    }

    /// The number of call edges recorded so far.
    pub fn call_count(&self) -> (n: usize)
        ensures
            n == self@.calls.len(),
    {
        self.calls.len()
    }

    /// The handle of the scope `id` (see `ValidatorView::scope_handle`).
    fn find_scope(&self, id: &ScopeId<'a>) -> (v: usize)
        requires
            self.wf(),
        ensures
            v == self@.scope_handle(id.0@),
            v <= self@.scopes.len(),
            v < self@.scopes.len() <==> self@.scope_ids().contains(id.0@),
    {
        let found = index_get(&self.scope_id_to_node, id.0.as_str());
        proof {
            lemma_position(self@.scope_ids(), id.0@);
        }
        match found {
            Some(v) => v,
            None => self.scopes.len(),
        }
    }

    /// The handle of the component `id` (see `ValidatorView::component_handle`).
    fn find_component(&self, id: &ComponentId<'a>) -> (c: usize)
        requires
            self.wf(),
        ensures
            c == self@.component_handle(id.0@),
            c <= self@.components.len(),
            c < self@.components.len() <==> self@.component_ids().contains(id.0@),
    {
        let found = index_get(&self.component_id_to_handle, id.0.as_str());
        proof {
            lemma_position(self@.component_ids(), id.0@);
        }
        match found {
            Some(c) => c,
            None => self.components.len(),
        }
    }

    /// The handle of the scope `id`, if it is registered.
    pub fn scope_handle(&self, id: &ScopeId<'a>) -> (r: Option<usize>)
        requires
            self.wf(),
        ensures
            match r {
                Some(v) => self@.scope_ids().contains(id.0@) && v == self@.scope_handle(id.0@) && v
                    < self@.scopes.len(),
                None => !self@.scope_ids().contains(id.0@),
            },
    {
        let v = self.find_scope(id);
        if v < self.scopes.len() {
            Some(v)
        } else {
            None
        }
    }

    /// The handle of the component `id`, if it is registered.
    pub fn component_handle(&self, id: &ComponentId<'a>) -> (r: Option<usize>)
        requires
            self.wf(),
        ensures
            match r {
                Some(c) => self@.component_ids().contains(id.0@) && c == self@.component_handle(id.0@) && c
                    < self@.components.len(),
                None => !self@.component_ids().contains(id.0@),
            },
    {
        let c = self.find_component(id);
        if c < self.components.len() {
            Some(c)
        } else {
            None
        }
    }

    /// Registers the scope if it is new and returns its handle, which is also
    /// its node in the call graph.
    fn get_scope_node(&mut self, scope: ScopeId<'a>) -> (v: usize)
        requires
            old(self).wf(),
            old(self)@.register_scope(scope.0@).scopes.len() <= MAX_GRAPH_ITEMS,
        ensures
            final(self).wf(),
            final(self)@ == old(self)@.register_scope(scope.0@),
            v == old(self)@.scope_handle(scope.0@),
            v < final(self)@.scopes.len(),
    {
        let v = self.find_scope(&scope);
        if v < self.scopes.len() {
            return v;
        }
        let ghost before = self@;
        let ghost id = scope.0@;
        let ghost index = index_entries(&self.scope_id_to_node);
        index_insert(&mut self.scope_id_to_node, scope.0.clone(), v);
        self.scopes.push(Scope { id: scope, borrows: Vec::new(), grants: Vec::new(), meta: None });
        let node = topology_add_node(&mut self.call_graph);
        proof {
            lemma_index_grows(index, before.scope_ids(), id);
            assert(access_views(Seq::<Access<'a>>::empty()) =~= Seq::empty());
            assert(self@.scopes =~= before.scopes.push(super::ScopeView::fresh(id)));
            assert(self@.components =~= before.components);
            assert(self@.calls =~= before.calls);
            assert(self@.edges() =~= before.edges());
            assert(self@.scope_ids() =~= before.scope_ids().push(id));
            assert(self@.component_ids() =~= before.component_ids());
        }
        v
    }

    /// Registers the component if it is new and returns its handle.
    fn get_component(&mut self, component: ComponentId<'a>) -> (c: usize)
        requires
            old(self).wf(),
        ensures
            final(self).wf(),
            final(self)@ == old(self)@.register_component(component.0@),
            c == old(self)@.component_handle(component.0@),
            c < final(self)@.components.len(),
    {
        let c = self.find_component(&component);
        if c < self.components.len() {
            return c;
        }
        let ghost before = self@;
        let ghost id = component.0@;
        let ghost index = index_entries(&self.component_id_to_handle);
        index_insert(&mut self.component_id_to_handle, component.0.clone(), c);
        self.components.push(Component { id: component, meta: None });
        proof {
            lemma_index_grows(index, before.component_ids(), id);
            assert(self@.scopes =~= before.scopes);
            assert(self@.components =~= before.components.push(
                super::ComponentView { id, meta: None },
            ));
            assert(self@.calls =~= before.calls);
            assert(self@.edges() =~= before.edges());
            assert(self@.scope_ids() =~= before.scope_ids());
            assert(self@.component_ids() =~= before.component_ids().push(id));
        }
        c
    }

    pub fn push_call_edge(&mut self, from: ScopeId<'a>, to: ScopeId<'a>, meta: CallMeta<'a>)
        requires
            old(self).wf(),
            old(self)@.register_scope(from.0@).register_scope(to.0@).scopes.len() <= MAX_GRAPH_ITEMS,
            old(self)@.calls.len() < MAX_GRAPH_ITEMS,
        ensures
            final(self).wf(),
            final(self)@ == old(self)@.push_call_edge(from.0@, to.0@, meta),
    {
        let from_idx = self.get_scope_node(from);
        let to_idx = self.get_scope_node(to);
        let ghost before = self@;
        topology_add_edge(&mut self.call_graph, from_idx, to_idx);
        self.calls.push(Call { from: from_idx, to: to_idx, meta });
        proof {
            assert(self@.scopes =~= before.scopes);
            assert(self@.components =~= before.components);
            assert(self@.calls =~= before.calls.push(
                super::CallView { from: from_idx as int, to: to_idx as int, meta },
            ));
            assert(self@.edges() =~= before.edges().push((from_idx as int, to_idx as int)));
            assert(self@.scope_ids() =~= before.scope_ids());
            assert(self@.component_ids() =~= before.component_ids());
        }
    }

    pub fn push_access(
        &mut self,
        scope: ScopeId<'a>,
        component: ComponentId<'a>,
        req_access: Mutability,
        meta: BorrowMeta<'a>,
    )
        requires
            old(self).wf(),
            old(self)@.register_scope(scope.0@).scopes.len() <= MAX_GRAPH_ITEMS,
        ensures
            final(self).wf(),
            final(self)@ == old(self)@.push_access(scope.0@, component.0@, req_access, meta),
    {
        let scope_idx = self.get_scope_node(scope);
        let component_idx = self.get_component(component);
        let ghost before = self@;
        record(&mut self.scopes[scope_idx].borrows, component_idx, req_access, meta);
        proof {
            let v = scope_idx as int;
            let updated = super::ScopeView {
                borrows: record_access(before.scopes[v].borrows, component_idx as int, req_access, meta),
                ..before.scopes[v]
            };
            lemma_record_access_wf(
                before.scopes[v].borrows,
                component_idx as int,
                req_access,
                meta,
                before.components.len(),
            );
            assert(self@.scopes =~= before.scopes.update(v, updated));
            assert(self@.components =~= before.components);
            assert(self@.calls =~= before.calls);
            assert(self@.edges() =~= before.edges());
            assert(self@.scope_ids() =~= before.scope_ids());
            assert(self@.component_ids() =~= before.component_ids());
        }
    }

    pub fn push_grant(
        &mut self,
        scope: ScopeId<'a>,
        component: ComponentId<'a>,
        req_access: Mutability,
        meta: BorrowMeta<'a>,
    )
        requires
            old(self).wf(),
            old(self)@.register_scope(scope.0@).scopes.len() <= MAX_GRAPH_ITEMS,
        ensures
            final(self).wf(),
            final(self)@ == old(self)@.push_grant(scope.0@, component.0@, req_access, meta),
    {
        let scope_idx = self.get_scope_node(scope);
        let component_idx = self.get_component(component);
        let ghost before = self@;
        record(&mut self.scopes[scope_idx].grants, component_idx, req_access, meta);
        proof {
            let v = scope_idx as int;
            let updated = super::ScopeView {
                grants: record_access(before.scopes[v].grants, component_idx as int, req_access, meta),
                ..before.scopes[v]
            };
            lemma_record_access_wf(
                before.scopes[v].grants,
                component_idx as int,
                req_access,
                meta,
                before.components.len(),
            );
            assert(self@.scopes =~= before.scopes.update(v, updated));
            assert(self@.components =~= before.components);
            assert(self@.calls =~= before.calls);
            assert(self@.edges() =~= before.edges());
            assert(self@.scope_ids() =~= before.scope_ids());
            assert(self@.component_ids() =~= before.component_ids());
        }
    }

    pub fn annotate_scope(&mut self, scope: ScopeId<'a>, meta: ScopeMeta<'a>)
        requires
            old(self).wf(),
            old(self)@.register_scope(scope.0@).scopes.len() <= MAX_GRAPH_ITEMS,
        ensures
            final(self).wf(),
            final(self)@ == old(self)@.annotate_scope(scope.0@, meta@),
    {
        let scope_idx = self.get_scope_node(scope);
        let ghost before = self@;
        let ghost view = meta@;
        self.scopes[scope_idx].meta = Some(meta);
        proof {
            let v = scope_idx as int;
            let updated = super::ScopeView { meta: Some(view), ..before.scopes[v] };
            assert(self@.scopes =~= before.scopes.update(v, updated));
            assert(self@.components =~= before.components);
            assert(self@.calls =~= before.calls);
            assert(self@.edges() =~= before.edges());
            assert(self@.scope_ids() =~= before.scope_ids());
            assert(self@.component_ids() =~= before.component_ids());
        }
    }

    pub fn annotate_component(&mut self, component: ComponentId<'a>, meta: ComponentMeta<'a>)
        requires
            old(self).wf(),
        ensures
            final(self).wf(),
            final(self)@ == old(self)@.annotate_component(component.0@, meta@),
    {
        let component_idx = self.get_component(component);
        let ghost before = self@;
        let ghost view = meta@;
        self.components[component_idx].meta = Some(meta);
        proof {
            let c = component_idx as int;
            let updated = super::ComponentView { meta: Some(view), ..before.components[c] };
            assert(self@.scopes =~= before.scopes);
            assert(self@.components =~= before.components.update(c, updated));
            assert(self@.calls =~= before.calls);
            assert(self@.edges() =~= before.edges());
            assert(self@.scope_ids() =~= before.scope_ids());
            assert(self@.component_ids() =~= before.component_ids());
        }
    }
}

impl<'a> Default for Validator<'a> {
    fn default() -> (r: Self)
        ensures
            r.wf(),
            r@ == ValidatorView::<'a>::empty(),
    {
        Validator::new()
    }
}

} // verus!
