//! Laws of the graph builder.

use super::model::{
    access_components, accesses_wf, record_access, strength_of, AccessView, ScopeView, ValidatorView,
};
use super::pbs::{held_join, Held};
use super::{BorrowMeta, Mutability};
use vstd::prelude::*;

verus! {

/// One request for a borrow: its strength and its site.
pub struct Request<'a> {
    pub requested: Mutability,
    pub site: BorrowMeta<'a>,
}

/// The join of the strengths of the first `upto` requests.
pub open spec fn join_all(requests: Seq<Request>, upto: int) -> Mutability
    decreases upto,
{
    if upto <= 0 {
        Mutability::Immutable
    } else {
        join_all(requests, upto - 1).join(requests[upto - 1].requested)
    }
}

impl<'a> ValidatorView<'a> {
    /// The model after `push_access` for each of the first `upto` requests,
    /// all on the same scope and component.
    pub open spec fn push_accesses(
        self,
        scope: Seq<char>,
        component: Seq<char>,
        requests: Seq<Request<'a>>,
        upto: int,
    ) -> Self
        decreases upto,
    {
        if upto <= 0 {
            self
        } else {
            self.push_accesses(scope, component, requests, upto - 1).push_access(
                scope,
                component,
                requests[upto - 1].requested,
                requests[upto - 1].site,
            )
        }
    }

    /// The strength at which the scope `scope` borrows the component
    /// `component`, by their ids; `None` where either is not registered.
    pub open spec fn borrow_by_id(self, scope: Seq<char>, component: Seq<char>) -> Held {
        if self.scope_ids().contains(scope) && self.component_ids().contains(component) {
            self.borrow_of(self.scope_handle(scope), self.component_handle(component))
        } else {
            None
        }
    }
}

/// What a borrow map records for `c` after one more declaration for `c`.
pub proof fn lemma_record_access(list: Seq<AccessView>, c: int, requested: Mutability, site: BorrowMeta)
    requires
        access_components(list).no_duplicates(),
    ensures
        strength_of(record_access(list, c, requested, site), c) == held_join(
            strength_of(list, c),
            Some(requested),
        ),
        access_components(record_access(list, c, requested, site)).no_duplicates(),
{
    let names = access_components(list);
    let after = record_access(list, c, requested, site);
    let names_after = access_components(after);
    names.index_of_first_ensures(c);
    names_after.index_of_first_ensures(c);
    match names.index_of_first(c) {
        Some(j) => {
            assert(names_after =~= names);
        },
        None => {
            assert(names_after =~= names.push(c));
            assert(names_after[names.len() as int] == c);
            let k = names_after.index_of_first(c)->0;
            if k < names.len() {
                assert(names[k] == c);
            }
        },
    }
}

/// One `push_access` keeps a model well formed, registers scope and
/// component, and lifts the scope's strength for the component to the join
/// with the request.
pub proof fn lemma_push_access(
    v: ValidatorView,
    scope: Seq<char>,
    component: Seq<char>,
    requested: Mutability,
    site: BorrowMeta,
)
    requires
        v.wf(),
    ensures
        v.push_access(scope, component, requested, site).wf(),
        v.push_access(scope, component, requested, site).borrow_by_id(scope, component) == held_join(
            v.borrow_by_id(scope, component),
            Some(requested),
        ),
{
    let s = v.scope_handle(scope);
    let c = v.component_handle(component);
    let r = v.register_scope(scope).register_component(component);
    let w = v.push_access(scope, component, requested, site);
    v.scope_ids().index_of_first_ensures(scope);
    v.component_ids().index_of_first_ensures(component);
    assert(r.scope_ids() =~= if v.scope_ids().contains(scope) {
        v.scope_ids()
    } else {
        v.scope_ids().push(scope)
    });
    assert(r.component_ids() =~= if v.component_ids().contains(component) {
        v.component_ids()
    } else {
        v.component_ids().push(component)
    });
    assert(0 <= s < r.scopes.len() && r.scope_ids()[s] == scope);
    assert(0 <= c < r.components.len() && r.component_ids()[c] == component);
    assert(r.wf()) by {
        assert forall|x: int| 0 <= x < r.scopes.len() implies accesses_wf(
            (#[trigger] r.scopes[x]).borrows,
            r.components.len(),
        ) && accesses_wf(r.scopes[x].grants, r.components.len()) by {
            if x < v.scopes.len() {
                assert(r.scopes[x] == v.scopes[x]);
            } else {
                assert(r.scopes[x] == ScopeView::fresh(scope));
                assert(access_components(Seq::<AccessView>::empty()) =~= Seq::<int>::empty());
            }
        }
    }
    let list = r.scopes[s].borrows;
    lemma_record_access(list, c, requested, site);
    super::builder::lemma_record_access_wf(list, c, requested, site, r.components.len());
    assert(w.scope_ids() =~= r.scope_ids());
    assert(w.component_ids() =~= r.component_ids());
    assert(w.components == r.components);
    assert(w.edges() =~= r.edges());
    assert(w.wf()) by {
        assert forall|x: int| 0 <= x < w.scopes.len() implies accesses_wf(
            (#[trigger] w.scopes[x]).borrows,
            w.components.len(),
        ) && accesses_wf(w.scopes[x].grants, w.components.len()) by {
            if x != s {
                assert(w.scopes[x] == r.scopes[x]);
            }
        }
    }
    w.scope_ids().index_of_first_ensures(scope);
    w.component_ids().index_of_first_ensures(component);
    assert(w.scope_handle(scope) == s) by {
        let k = w.scope_ids().index_of_first(scope)->0;
        assert(w.scope_ids()[k] == scope && w.scope_ids()[s] == scope);
    }
    assert(w.component_handle(component) == c) by {
        let k = w.component_ids().index_of_first(component)->0;
        assert(w.component_ids()[k] == component && w.component_ids()[c] == component);
    }
    // What the scope recorded for the component before.
    if v.scope_ids().contains(scope) && v.component_ids().contains(component) {
        assert(r.scopes[s] == v.scopes[s]);
    } else if v.scope_ids().contains(scope) {
        assert(r.scopes[s] == v.scopes[s]);
        // A component that was not registered stands in no borrow map.
        let names = access_components(list);
        names.index_of_first_ensures(c);
        if names.contains(c) {
            let j = choose|j: int| 0 <= j < names.len() && names[j] == c;
            assert(list[j].component == c);
            assert(false);
        }
    } else {
        assert(list =~= Seq::<AccessView>::empty());
        access_components(list).index_of_first_ensures(c);
    }
}

/// Strictest is a join: after any sequence of `push_access` calls on one
/// scope and component, the scope's strength for the component is the join of
/// what it was before, if it borrowed the component, and of all the requests.
pub proof fn lemma_strictest_is_join(
    v: ValidatorView,
    scope: Seq<char>,
    component: Seq<char>,
    requests: Seq<Request>,
    upto: int,
)
    requires
        v.wf(),
        0 <= upto <= requests.len(),
    ensures
        v.push_accesses(scope, component, requests, upto).wf(),
        upto > 0 ==> v.push_accesses(scope, component, requests, upto).borrow_by_id(scope, component)
            == held_join(v.borrow_by_id(scope, component), Some(join_all(requests, upto))),
    decreases upto,
{
    if upto > 0 {
        lemma_strictest_is_join(v, scope, component, requests, upto - 1);
        let before = v.push_accesses(scope, component, requests, upto - 1);
        lemma_push_access(before, scope, component, requests[upto - 1].requested, requests[upto - 1].site);
    }
}

} // verus!
