//! The data model of scopes, components and calls, and the validator itself.

use vstd::prelude::*;

pub mod builder;
pub mod callgraph;
pub mod cycles;
pub mod explain;
pub mod hashing;
pub mod lattice;
pub mod laws;
pub mod model;
pub mod pass;
pub mod pbs;
pub mod report;
pub mod validate;

pub use self::lattice::Mutability;
pub use self::model::{
    AccessView, CallView, ComponentMetaView, ComponentView, ScopeMetaView, ScopeView, ValidatorView,
};
pub use self::report::{ConflictLine, CycleLine, ValidationError};
pub use self::validate::borrow_two;

verus! {

/// Textual key of a scope. Two ids name the same scope when their text is equal.
#[derive(Debug, Clone, Hash, Eq, PartialEq)]
pub struct ScopeId<'a>(pub String, pub [&'a (); 0]);

/// Textual key of a component. Two ids name the same component when their text is equal.
#[derive(Debug, Clone, Hash, Eq, PartialEq)]
pub struct ComponentId<'a>(pub String, pub [&'a (); 0]);

/// What is known of a scope beyond its id.
#[derive(Debug, Clone)]
pub struct ScopeMeta<'a> {
    pub _dummy: [&'a (); 0],
    pub name: String,
    pub defined_at: &'a str,
}

/// What is known of a component beyond its id.
#[derive(Debug, Clone)]
pub struct ComponentMeta<'a> {
    pub _dummy: [&'a (); 0],
    pub name: String,
}

impl<'a> View for ScopeMeta<'a> {
    type V = ScopeMetaView<'a>;

    open spec fn view(&self) -> ScopeMetaView<'a> {
        ScopeMetaView { name: self.name@, defined_at: self.defined_at }
    }
}

impl<'a> View for ComponentMeta<'a> {
    type V = ComponentMetaView;

    open spec fn view(&self) -> ComponentMetaView {
        ComponentMetaView { name: self.name@ }
    }
}

/// The model of metadata that may be missing.
pub open spec fn scope_meta_view<'a>(meta: Option<ScopeMeta<'a>>) -> Option<ScopeMetaView<'a>> {
    match meta {
        Some(m) => Some(m@),
        None => None,
    }
}

/// The model of metadata that may be missing.
pub open spec fn component_meta_view<'a>(meta: Option<ComponentMeta<'a>>) -> Option<ComponentMetaView> {
    match meta {
        Some(m) => Some(m@),
        None => None,
    }
}

/// One syntactic call site.
#[derive(Debug, Copy, Clone)]
pub struct CallMeta<'a> {
    pub def_path: &'a str,
}

/// One syntactic borrow or grant site.
#[derive(Debug, Copy, Clone)]
pub struct BorrowMeta<'a> {
    pub def_path: &'a str,
    pub mutability: Mutability,
}

/// One entry of a borrow or grant map.
#[derive(Debug)]
struct Access<'a> {
    component: usize,
    mutability: Mutability,
    sites: Vec<BorrowMeta<'a>>,
}

/// A registered scope.
#[derive(Debug)]
struct Scope<'a> {
    id: ScopeId<'a>,
    borrows: Vec<Access<'a>>,
    grants: Vec<Access<'a>>,
    meta: Option<ScopeMeta<'a>>,
}

/// A registered component.
#[derive(Debug)]
struct Component<'a> {
    id: ComponentId<'a>,
    meta: Option<ComponentMeta<'a>>,
}

/// A call edge, at the index that the graph gave it.
#[derive(Debug)]
struct Call<'a> {
    from: usize,
    to: usize,
    meta: CallMeta<'a>,
}

/// Gathers the declarations of a program and validates them.
///
/// Scopes and components are kept in the order of their first mention, and a
/// scope's position is also its node in `call_graph`, which holds the shape of
/// the call graph and nothing else. The two indexes lead from an id to its
/// position.
#[derive(Debug)]
pub struct Validator<'a> {
    call_graph: petgraph::graph::Graph<(), ()>,
    scopes: Vec<Scope<'a>>,
    scope_id_to_node: rustc_hash::FxHashMap<String, usize>,
    components: Vec<Component<'a>>,
    component_id_to_handle: rustc_hash::FxHashMap<String, usize>,
    calls: Vec<Call<'a>>,
}

impl<'a> Access<'a> {
    spec fn view(&self) -> AccessView<'a> {
        AccessView { component: self.component as int, mutability: self.mutability, sites: self.sites@ }
    }
}

/// The model of a borrow or grant map.
spec fn access_views<'a>(list: Seq<Access<'a>>) -> Seq<AccessView<'a>> {
    Seq::new(list.len(), |j: int| list[j].view())
}

impl<'a> Scope<'a> {
    spec fn view(&self) -> ScopeView<'a> {
        ScopeView {
            id: self.id.0@,
            meta: scope_meta_view(self.meta),
            borrows: access_views(self.borrows@),
            grants: access_views(self.grants@),
        }
    }
}

impl<'a> View for Validator<'a> {
    type V = ValidatorView<'a>;

    closed spec fn view(&self) -> ValidatorView<'a> {
        ValidatorView {
            scopes: Seq::new(self.scopes@.len(), |v: int| self.scopes@[v].view()),
            components: Seq::new(
                self.components@.len(),
                |c: int|
                    ComponentView {
                        id: self.components@[c].id.0@,
                        meta: component_meta_view(self.components@[c].meta),
                    },
            ),
            calls: Seq::new(
                self.calls@.len(),
                |e: int|
                    CallView {
                        from: self.calls@[e].from as int,
                        to: self.calls@[e].to as int,
                        meta: self.calls@[e].meta,
                    },
            ),
        }
    }
}

/// The index gives each of `ids` its position, and knows no other text.
pub open spec fn index_agrees(index: Map<Seq<char>, usize>, ids: Seq<Seq<char>>) -> bool {
    &&& forall|id: Seq<char>| #[trigger] index.dom().contains(id) <==> ids.contains(id)
    &&& forall|i: int| 0 <= i < ids.len() ==> index[#[trigger] ids[i]] == i
}

impl<'a> Validator<'a> {
    /// The validator's tables agree with its call graph, its model is well
    /// formed, and it is within the graph's capacity.
    pub closed spec fn wf(&self) -> bool {
        &&& self@.wf()
        &&& callgraph::graph_nodes(&self.call_graph) == self.scopes@.len()
        &&& callgraph::graph_edges(&self.call_graph) == self@.edges()
        &&& self.scopes@.len() <= callgraph::MAX_GRAPH_ITEMS
        &&& self.calls@.len() <= callgraph::MAX_GRAPH_ITEMS
        &&& index_agrees(hashing::index_entries(&self.scope_id_to_node), self@.scope_ids())
        &&& index_agrees(hashing::index_entries(&self.component_id_to_handle), self@.component_ids())
    }

    /// A well-formed validator has a well-formed model.
    pub proof fn lemma_wf_model(&self)
        requires
            self.wf(),
        ensures
            self@.wf(),
            self@.scopes.len() <= callgraph::MAX_GRAPH_ITEMS,
            self@.calls.len() <= callgraph::MAX_GRAPH_ITEMS,
    {
    }
}

} // verus!
