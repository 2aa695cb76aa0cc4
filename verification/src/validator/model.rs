//! The mathematical model of a validator: what has been declared so far, and
//! how each declaration changes it.
//!
//! Scopes and components are kept in the order in which they were first
//! named; a scope's or component's position in that order is its handle.

use super::{BorrowMeta, CallMeta, Mutability};
use vstd::prelude::*;

verus! {

/// What is known of a scope beyond its id: the model of a `ScopeMeta`.
pub struct ScopeMetaView<'a> {
    pub name: Seq<char>,
    pub defined_at: &'a str,
}

/// What is known of a component beyond its id: the model of a
/// `ComponentMeta`.
pub struct ComponentMetaView {
    pub name: Seq<char>,
}

/// One entry of a borrow map or of a grant map: a component, the strictest
/// strength declared for it, and the sites that declared it, oldest first.
#[verifier::ext_equal]
pub struct AccessView<'a> {
    pub component: int,
    pub mutability: Mutability,
    pub sites: Seq<BorrowMeta<'a>>,
}

/// A scope: its id, its metadata if any was attached, and its borrow and grant
/// maps, each in the order in which its components were first declared.
#[verifier::ext_equal]
pub struct ScopeView<'a> {
    pub id: Seq<char>,
    pub meta: Option<ScopeMetaView<'a>>,
    pub borrows: Seq<AccessView<'a>>,
    pub grants: Seq<AccessView<'a>>,
}

/// A component: its id and its metadata if any was attached.
#[verifier::ext_equal]
pub struct ComponentView {
    pub id: Seq<char>,
    pub meta: Option<ComponentMetaView>,
}

/// A call edge between two scope handles.
pub struct CallView<'a> {
    pub from: int,
    pub to: int,
    pub meta: CallMeta<'a>,
}

/// Everything a validator holds.
#[verifier::ext_equal]
pub struct ValidatorView<'a> {
    pub scopes: Seq<ScopeView<'a>>,
    pub components: Seq<ComponentView>,
    pub calls: Seq<CallView<'a>>,
}

/// The components of a borrow or grant map, in order.
pub open spec fn access_components(list: Seq<AccessView>) -> Seq<int> {
    Seq::new(list.len(), |j: int| list[j].component)
}

/// The strength that `list` records for component `c`, if any.
pub open spec fn strength_of(list: Seq<AccessView>, c: int) -> Option<Mutability> {
    match access_components(list).index_of_first(c) {
        Some(j) => Some(list[j].mutability),
        None => None,
    }
}

/// `list` after one more declaration for component `c`: the entry's strength
/// climbs to the join with `requested` and `site` is appended to its sites. A
/// component not yet in `list` gets a new entry at the end.
pub open spec fn record_access<'a>(
    list: Seq<AccessView<'a>>,
    c: int,
    requested: Mutability,
    site: BorrowMeta<'a>,
) -> Seq<AccessView<'a>> {
    match access_components(list).index_of_first(c) {
        Some(j) => list.update(
            j,
            AccessView {
                component: c,
                mutability: list[j].mutability.join(requested),
                sites: list[j].sites.push(site),
            },
        ),
        None => list.push(
            AccessView {
                component: c,
                mutability: Mutability::Immutable.join(requested),
                sites: seq![site],
            },
        ),
    }
}

/// No component occurs twice in `list`, and each is a handle below `components`.
pub open spec fn accesses_wf(list: Seq<AccessView>, components: nat) -> bool {
    &&& access_components(list).no_duplicates()
    &&& forall|j: int| 0 <= j < list.len() ==> 0 <= (#[trigger] list[j]).component < components
}

impl<'a> ScopeView<'a> {
    /// A scope that has only been named.
    pub open spec fn fresh(id: Seq<char>) -> Self {
        ScopeView { id, meta: None, borrows: Seq::empty(), grants: Seq::empty() }
    }
}

impl<'a> ValidatorView<'a> {
    /// Nothing declared.
    pub open spec fn empty() -> Self {
        ValidatorView { scopes: Seq::empty(), components: Seq::empty(), calls: Seq::empty() }
    }

    /// The ids of the scopes, by handle.
    pub open spec fn scope_ids(self) -> Seq<Seq<char>> {
        Seq::new(self.scopes.len(), |v: int| self.scopes[v].id)
    }

    /// The ids of the components, by handle.
    pub open spec fn component_ids(self) -> Seq<Seq<char>> {
        Seq::new(self.components.len(), |c: int| self.components[c].id)
    }

    /// The call edges as `(caller, callee)` pairs of handles, oldest first.
    pub open spec fn edges(self) -> Seq<(int, int)> {
        Seq::new(self.calls.len(), |e: int| (self.calls[e].from, self.calls[e].to))
    }

    /// Ids are unique within their kind, and every handle in a call edge or in
    /// a borrow or grant map names something that is registered.
    pub open spec fn wf(self) -> bool {
        &&& self.scope_ids().no_duplicates()
        &&& self.component_ids().no_duplicates()
        &&& forall|e: int|
            0 <= e < self.calls.len() ==> 0 <= (#[trigger] self.calls[e]).from < self.scopes.len() && 0
                <= self.calls[e].to < self.scopes.len()
        &&& forall|v: int|
            0 <= v < self.scopes.len() ==> accesses_wf(
                (#[trigger] self.scopes[v]).borrows,
                self.components.len(),
            ) && accesses_wf(self.scopes[v].grants, self.components.len())
    }

    /// The handle of the scope `id`: its position if it is registered, else
    /// the position that registering it would give it.
    pub open spec fn scope_handle(self, id: Seq<char>) -> int {
        match self.scope_ids().index_of_first(id) {
            Some(v) => v,
            None => self.scopes.len() as int,
        }
    }

    /// The handle of the component `id`, as for scopes.
    pub open spec fn component_handle(self, id: Seq<char>) -> int {
        match self.component_ids().index_of_first(id) {
            Some(c) => c,
            None => self.components.len() as int,
        }
    }

    /// The scope `id` is registered if it was not.
    pub open spec fn register_scope(self, id: Seq<char>) -> Self {
        if self.scope_ids().contains(id) {
            self
        } else {
            ValidatorView { scopes: self.scopes.push(ScopeView::fresh(id)), ..self }
        }
    }

    /// The component `id` is registered if it was not.
    pub open spec fn register_component(self, id: Seq<char>) -> Self {
        if self.component_ids().contains(id) {
            self
        } else {
            ValidatorView { components: self.components.push(ComponentView { id, meta: None }), ..self }
        }
    }

    /// The scope is registered if new, and `meta` replaces its metadata.
    pub open spec fn annotate_scope(self, id: Seq<char>, meta: ScopeMetaView<'a>) -> Self {
        let v = self.scope_handle(id);
        let r = self.register_scope(id);
        ValidatorView { scopes: r.scopes.update(v, ScopeView { meta: Some(meta), ..r.scopes[v] }), ..r }
    }

    /// The component is registered if new, and `meta` replaces its metadata.
    pub open spec fn annotate_component(self, id: Seq<char>, meta: ComponentMetaView) -> Self {
        let c = self.component_handle(id);
        let r = self.register_component(id);
        ValidatorView {
            components: r.components.update(c, ComponentView { meta: Some(meta), ..r.components[c] }),
            ..r
        }
    }

    /// Both scopes are registered if new, and one more edge joins them.
    pub open spec fn push_call_edge(self, from: Seq<char>, to: Seq<char>, meta: CallMeta<'a>) -> Self {
        let r1 = self.register_scope(from);
        let r2 = r1.register_scope(to);
        ValidatorView {
            calls: r2.calls.push(CallView { from: self.scope_handle(from), to: r1.scope_handle(to), meta }),
            ..r2
        }
    }

    /// Scope and component are registered if new, and the scope's borrow map
    /// records one more declaration.
    pub open spec fn push_access(
        self,
        scope: Seq<char>,
        component: Seq<char>,
        requested: Mutability,
        site: BorrowMeta<'a>,
    ) -> Self {
        let v = self.scope_handle(scope);
        let c = self.component_handle(component);
        let r = self.register_scope(scope).register_component(component);
        ValidatorView {
            scopes: r.scopes.update(
                v,
                ScopeView { borrows: record_access(r.scopes[v].borrows, c, requested, site), ..r.scopes[v] },
            ),
            ..r
        }
    }

    /// Scope and component are registered if new, and the scope's grant map
    /// records one more declaration.
    pub open spec fn push_grant(
        self,
        scope: Seq<char>,
        component: Seq<char>,
        requested: Mutability,
        site: BorrowMeta<'a>,
    ) -> Self {
        let v = self.scope_handle(scope);
        let c = self.component_handle(component);
        let r = self.register_scope(scope).register_component(component);
        ValidatorView {
            scopes: r.scopes.update(
                v,
                ScopeView { grants: record_access(r.scopes[v].grants, c, requested, site), ..r.scopes[v] },
            ),
            ..r
        }
    }

    /// The strength at which scope `v` borrows component `c`, if it does.
    pub open spec fn borrow_of(self, v: int, c: int) -> Option<Mutability> {
        strength_of(self.scopes[v].borrows, c)
    }

    /// The strength at which scope `v` grants component `c`, if it does.
    pub open spec fn grant_of(self, v: int, c: int) -> Option<Mutability> {
        strength_of(self.scopes[v].grants, c)
    }
}

/// How the sizes of a model change under each declaration: a registration
/// adds at most one scope or component, a call edge exactly one call, and
/// nothing is ever taken away.
pub proof fn lemma_sizes<'a>(
    v: ValidatorView<'a>,
    scope: Seq<char>,
    other: Seq<char>,
    component: Seq<char>,
    requested: Mutability,
    site: BorrowMeta<'a>,
    scope_meta: ScopeMetaView<'a>,
    component_meta: ComponentMetaView,
    call: CallMeta<'a>,
)
    ensures
        v.scopes.len() <= v.register_scope(scope).scopes.len() <= v.scopes.len() + 1,
        v.register_scope(scope).calls == v.calls,
        v.register_scope(scope).components == v.components,
        v.register_component(component).scopes == v.scopes,
        v.register_component(component).calls == v.calls,
        v.annotate_scope(scope, scope_meta).scopes.len() == v.register_scope(scope).scopes.len(),
        v.annotate_scope(scope, scope_meta).calls == v.calls,
        v.annotate_component(component, component_meta).scopes == v.scopes,
        v.annotate_component(component, component_meta).calls == v.calls,
        v.push_access(scope, component, requested, site).scopes.len() == v.register_scope(scope).scopes.len(),
        v.push_access(scope, component, requested, site).calls == v.calls,
        v.push_grant(scope, component, requested, site).scopes.len() == v.register_scope(scope).scopes.len(),
        v.push_grant(scope, component, requested, site).calls == v.calls,
        v.scopes.len() <= v.push_call_edge(scope, other, call).scopes.len() <= v.scopes.len() + 2,
        v.push_call_edge(scope, other, call).scopes.len() == v.register_scope(scope).register_scope(
            other,
        ).scopes.len(),
        v.push_call_edge(scope, other, call).calls.len() == v.calls.len() + 1,
{
    v.scope_ids().index_of_first_ensures(scope);
    v.component_ids().index_of_first_ensures(component);
    let r = v.register_scope(scope).register_component(component);
    assert(0 <= v.scope_handle(scope) < r.scopes.len());
    assert(0 <= v.component_handle(component) < r.components.len());
}


/// A scope that has been annotated is registered: registering it again
/// changes nothing.
pub proof fn lemma_annotated_is_registered<'a>(v: ValidatorView<'a>, scope: Seq<char>, meta: ScopeMetaView<'a>)
    ensures
        v.annotate_scope(scope, meta).scope_ids().contains(scope),
        v.annotate_scope(scope, meta).register_scope(scope) == v.annotate_scope(scope, meta),
{
    let r = v.register_scope(scope);
    let a = v.annotate_scope(scope, meta);
    let at = v.scope_handle(scope);
    v.scope_ids().index_of_first_ensures(scope);
    if v.scope_ids().contains(scope) {
        assert(v.scope_ids()[at] == scope);
    } else {
        assert(r.scopes[at].id == scope);
    }
    assert(a.scopes[at].id == scope);
    assert(a.scope_ids()[at] == scope);
}


} // verus!
