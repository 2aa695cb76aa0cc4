//! Checking a binary as a whole: decode the declarations, gather them into a
//! graph and validate it.

use crate::decoder::grammar::{decode, EntryView};
use crate::decoder::laws::lemma_decoded_count;
use crate::decoder::{decode_binary, entry_views, DecodeError, DecoderEntry, DecoderEntryKind};
use crate::validator::callgraph::{has_cycle, sccs_of, toposort_of};
use crate::validator::model::{lemma_annotated_is_registered, lemma_sizes};
use crate::validator::report::ValidationError;
use crate::validator::{
    BorrowMeta, CallMeta, ComponentId, ComponentMeta, ComponentMetaView, Mutability, ScopeId, ScopeMeta,
    ScopeMetaView, Validator, ValidatorView,
};
use vstd::prelude::*;
use vstd::string::StringExecFns;

verus! {

/// The most declarations that one graph is built from: each may name two
/// scopes that are new.
pub const MAX_DIRECTIVES: usize = 2147483647;

/// What a declaration says of where it stands: the decoder cannot know.
pub open spec fn unknown_place() -> &'static str {
    "<unknown>"
}

/// The model after one more declaration. The scope that declares is named
/// after its id; so is the component it borrows or grants.
pub open spec fn declare<'a>(v: ValidatorView<'a>, entry: EntryView) -> ValidatorView<'a> {
    let named = v.annotate_scope(
        entry.arg1,
        ScopeMetaView { name: entry.arg1, defined_at: unknown_place() },
    );
    match entry.kind {
        DecoderEntryKind::Dep(mutability) => named.annotate_component(
            entry.arg2,
            ComponentMetaView { name: entry.arg2 },
        ).push_access(entry.arg1, entry.arg2, mutability, BorrowMeta { def_path: unknown_place(), mutability }),
        DecoderEntryKind::Grant(mutability) => named.annotate_component(
            entry.arg2,
            ComponentMetaView { name: entry.arg2 },
        ).push_grant(entry.arg1, entry.arg2, mutability, BorrowMeta { def_path: unknown_place(), mutability }),
        DecoderEntryKind::Calls => named.push_call_edge(
            entry.arg1,
            entry.arg2,
            CallMeta { def_path: unknown_place() },
        ),
    }
}

/// The model after the first `upto` declarations of `entries`.
pub open spec fn declare_all<'a>(entries: Seq<EntryView>, upto: int) -> ValidatorView<'a>
    decreases upto,
{
    if upto <= 0 {
        ValidatorView::empty()
    } else {
        declare(declare_all(entries, upto - 1), entries[upto - 1])
    }
}

/// Registering a scope adds at most one scope and nothing else.
proof fn lemma_declare_grows(v: ValidatorView, entry: EntryView)
    ensures
        declare(v, entry).scopes.len() <= v.scopes.len() + 2,
        declare(v, entry).calls.len() <= v.calls.len() + 1,
{
    let place = unknown_place();
    let scope_meta = ScopeMetaView { name: entry.arg1, defined_at: place };
    let component_meta = ComponentMetaView { name: entry.arg2 };
    let site = BorrowMeta { def_path: place, mutability: Mutability::Immutable };
    let call = CallMeta { def_path: place };
    let named = v.annotate_scope(entry.arg1, scope_meta);
    lemma_sizes(v, entry.arg1, entry.arg2, entry.arg2, Mutability::Immutable, site, scope_meta, component_meta, call);
    lemma_annotated_is_registered(v, entry.arg1, scope_meta);
    match entry.kind {
        DecoderEntryKind::Dep(mutability) => {
            let site = BorrowMeta { def_path: place, mutability };
            let known = named.annotate_component(entry.arg2, component_meta);
            lemma_sizes(named, entry.arg1, entry.arg2, entry.arg2, mutability, site, scope_meta, component_meta, call);
            lemma_sizes(known, entry.arg1, entry.arg2, entry.arg2, mutability, site, scope_meta, component_meta, call);
            assert(known.scope_ids() =~= named.scope_ids());
        },
        DecoderEntryKind::Grant(mutability) => {
            let site = BorrowMeta { def_path: place, mutability };
            let known = named.annotate_component(entry.arg2, component_meta);
            lemma_sizes(named, entry.arg1, entry.arg2, entry.arg2, mutability, site, scope_meta, component_meta, call);
            lemma_sizes(known, entry.arg1, entry.arg2, entry.arg2, mutability, site, scope_meta, component_meta, call);
            assert(known.scope_ids() =~= named.scope_ids());
        },
        DecoderEntryKind::Calls => {
            lemma_sizes(named, entry.arg1, entry.arg2, entry.arg2, Mutability::Immutable, site, scope_meta, component_meta, call);
        },
    }
}

/// Why a binary was not accepted.
#[derive(Debug)]
pub enum CheckError {
    /// A marker in the binary is malformed.
    Malformed,
    /// The binary holds no marker at all.
    NoDirectives,
    /// Scopes may call each other in a cycle; the text names them.
    Cycle(String),
    /// A scope borrows what may already be held incompatibly; the text
    /// traces each conflict.
    BorrowConflict(String),
}

impl CheckError {
    /// What the message of this error is.
    pub open spec fn message_text(self) -> Seq<char> {
        match self {
            CheckError::Malformed => "Malformed Saddle marker in binary"@,
            CheckError::NoDirectives => "Did not find any saddle directives while scanning binary."@,
            CheckError::Cycle(text) => text@,
            CheckError::BorrowConflict(text) => text@,
        }
    }

    /// The message for this error.
    pub fn message(&self) -> (r: String)
        ensures
            r@ == self.message_text(),
    {
        match self {
            CheckError::Malformed => String::from_str(DecodeError::Malformed.message()),
            CheckError::NoDirectives => String::from_str(
                "Did not find any saddle directives while scanning binary.",
            ),
            CheckError::Cycle(text) => text.clone(),
            CheckError::BorrowConflict(text) => text.clone(),
        }
    }
}

/// Gathers decoded declarations into a validator, in order.
pub fn build<'a>(entries: &Vec<DecoderEntry>) -> (validator: Validator<'a>)
    requires
        entries@.len() <= MAX_DIRECTIVES,
    ensures
        validator.wf(),
        validator@ == declare_all::<'a>(entry_views(entries@), entries@.len() as int),
{
    let mut validator = Validator::new();
    let ghost views = entry_views(entries@);
    let mut k: usize = 0;
    while k < entries.len()
        invariant
            k <= entries@.len(),
            entries@.len() <= MAX_DIRECTIVES,
            views == entry_views(entries@),
            validator.wf(),
            validator@ == declare_all::<'a>(views, k as int),
            validator@.scopes.len() <= 2 * k,
            validator@.calls.len() <= k,
        decreases entries@.len() - k,
    {
        let entry = &entries[k];
        let ghost before = validator@;
        proof {
            assert(views[k as int] == entry@);
            lemma_declare_grows(before, entry@);
            let place = unknown_place();
            let scope_meta = ScopeMetaView { name: entry@.arg1, defined_at: place };
            let component_meta = ComponentMetaView { name: entry@.arg2 };
            let site = BorrowMeta { def_path: place, mutability: Mutability::Immutable };
            let call = CallMeta { def_path: place };
            let named = before.annotate_scope(entry@.arg1, scope_meta);
            let known = named.annotate_component(entry@.arg2, component_meta);
            lemma_sizes(before, entry@.arg1, entry@.arg2, entry@.arg2, Mutability::Immutable, site, scope_meta, component_meta, call);
            lemma_sizes(named, entry@.arg1, entry@.arg2, entry@.arg2, Mutability::Immutable, site, scope_meta, component_meta, call);
            lemma_sizes(known, entry@.arg1, entry@.arg2, entry@.arg2, Mutability::Immutable, site, scope_meta, component_meta, call);
            lemma_annotated_is_registered(before, entry@.arg1, scope_meta);
            assert(known.scope_ids() =~= named.scope_ids());
        }
        validator.annotate_scope(
            ScopeId(entry.arg1.clone(), []),
            ScopeMeta { _dummy: [], name: entry.arg1.clone(), defined_at: "<unknown>" },
        );
        match entry.kind {
            DecoderEntryKind::Dep(mutability) => {
                validator.annotate_component(
                    ComponentId(entry.arg2.clone(), []),
                    ComponentMeta { _dummy: [], name: entry.arg2.clone() },
                );
                validator.push_access(
                    ScopeId(entry.arg1.clone(), []),
                    ComponentId(entry.arg2.clone(), []),
                    mutability,
                    BorrowMeta { def_path: "<unknown>", mutability },
                );
            },
            DecoderEntryKind::Grant(mutability) => {
                validator.annotate_component(
                    ComponentId(entry.arg2.clone(), []),
                    ComponentMeta { _dummy: [], name: entry.arg2.clone() },
                );
                validator.push_grant(
                    ScopeId(entry.arg1.clone(), []),
                    ComponentId(entry.arg2.clone(), []),
                    mutability,
                    BorrowMeta { def_path: "<unknown>", mutability },
                );
            },
            DecoderEntryKind::Calls => {
                validator.push_call_edge(
                    ScopeId(entry.arg1.clone(), []),
                    ScopeId(entry.arg2.clone(), []),
                    CallMeta { def_path: "<unknown>" },
                );
            },
        }
        proof {
            assert(validator@ == declare(before, entry@));
        }
        k += 1;
    }
    validator
}


/// The verdict that `r` gives is the one that the declarations `entries`
/// call for: an error for no declarations; else the verdict of the graph that
/// they describe, with the message of its report.
pub open spec fn is_verdict_on(entries: Seq<EntryView>, r: Result<(), CheckError>) -> bool {
    let g = declare_all(entries, entries.len() as int);
    let edges = g.edges();
    if entries.len() == 0 {
        r matches Err(CheckError::NoDirectives)
    } else {
        match r {
            Ok(_) => !has_cycle(edges) && !g.has_conflict(),
            Err(CheckError::Cycle(text)) => has_cycle(edges) && text@ == g.cycle_message(
                g.cycle_lines(sccs_of(g.scopes.len(), edges)),
            ),
            Err(CheckError::BorrowConflict(text)) => !has_cycle(edges) && g.has_conflict() && toposort_of(
                g.scopes.len(),
                edges,
            ) is Some && text@ == g.conflict_message(g.conflict_lines(toposort_of(g.scopes.len(), edges)->0)),
            Err(_) => false,
        }
    }
}

/// Validates the graph that `entries` describe.
pub fn check_entries(entries: &Vec<DecoderEntry>) -> (r: Result<(), CheckError>)
    requires
        entries@.len() <= MAX_DIRECTIVES,
    ensures
        is_verdict_on(entry_views(entries@), r),
{
    if entries.len() == 0 {
        return Err(CheckError::NoDirectives);
    }
    let validator = build(entries);
    match validator.validate() {
        Ok(_) => Ok(()),
        Err(error) => {
            let text = validator.explain(&error);
            match error {
                ValidationError::Cycle(_) => Err(CheckError::Cycle(text)),
                ValidationError::BorrowConflict(_) => Err(CheckError::BorrowConflict(text)),
            }
        },
    }
}

/// Checks a binary: decodes the declarations that its markers hold and
/// validates the graph that they describe. The binary must be small enough
/// for its declarations to fit in one graph; a marker takes thirty bytes at
/// least.
pub fn check_binary(data: &[u8]) -> (r: Result<(), CheckError>)
    requires
        data@.len() / 30 <= MAX_DIRECTIVES,
    ensures
        match decode(data@) {
            None => r matches Err(CheckError::Malformed),
            Some(entries) => is_verdict_on(entries, r),
        },
{
    proof {
        lemma_decoded_count(data@, 0);
    }
    match decode_binary(data) {
        Err(_) => Err(CheckError::Malformed),
        Ok(entries) => check_entries(&entries),
    }
}


} // verus!
