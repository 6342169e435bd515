//! The role that a node plays in the navigational structure of a document.

use crate::model::{EntriesView, NodeView};
use crate::names::{
    catalog, outline, outlines, page, pages, CATALOG, OUTLINE, OUTLINES, PAGE, PAGES, TYPE,
};
use crate::pdf::{as_dict, dictionary_model, dictionary_type_is, object_model};
use vstd::prelude::*;

verus! {

/// The roles. A node has one of the first five only if it is an entry set
/// whose entry `Type` is the name of that role.
#[derive(Clone, Copy, PartialEq, Eq, Structural, Debug)]
pub enum Role {
    /// The entry point of a graph, typed `Catalog`.
    Root,
    /// A node that gathers pages, typed `Pages`.
    PageCollection,
    /// A leaf of the page hierarchy, typed `Page`.
    Page,
    /// The head of a table of contents, typed `Outlines`.
    OutlineRoot,
    /// An entry of a table of contents, typed `Outline`.
    OutlineEntry,
    /// Anything else.
    Other,
}

/// Whether the entry `Type` of `entries` is the name `name`.
pub open spec fn typed(entries: EntriesView, name: Seq<u8>) -> bool {
    entries.contains_key(TYPE()) && entries[TYPE()] == NodeView::Name(name)
}

/// The role of an entry set.
pub open spec fn entries_role(entries: EntriesView) -> Role {
    if typed(entries, CATALOG()) {
        Role::Root
    } else if typed(entries, PAGES()) {
        Role::PageCollection
    } else if typed(entries, PAGE()) {
        Role::Page
    } else if typed(entries, OUTLINES()) {
        Role::OutlineRoot
    } else if typed(entries, OUTLINE()) {
        Role::OutlineEntry
    } else {
        Role::Other
    }
}

/// The role of a node: that of its entries where it is an entry set, and
/// `Other` for every other kind of node.
pub open spec fn role_of(node: NodeView) -> Role {
    match node {
        NodeView::Entries(entries) => entries_role(entries),
        _ => Role::Other,
    }
}

/// Classifies a dictionary by its entry `Type`.
pub fn classify_entries(entries: &lopdf::Dictionary) -> (role: Role)
    ensures
        role == entries_role(dictionary_model(*entries)),
{
    if dictionary_type_is(entries, catalog().as_slice()) {
        Role::Root
    } else if dictionary_type_is(entries, pages().as_slice()) {
        Role::PageCollection
    } else if dictionary_type_is(entries, page().as_slice()) {
        Role::Page
    } else if dictionary_type_is(entries, outlines().as_slice()) {
        Role::OutlineRoot
    } else if dictionary_type_is(entries, outline().as_slice()) {
        Role::OutlineEntry
    } else {
        Role::Other
    }
}

/// Classifies an object.
pub fn classify(node: &lopdf::Object) -> (role: Role)
    ensures
        role == role_of(object_model(*node)),
{
    match as_dict(node) {
        Some(entries) => classify_entries(entries),
        None => Role::Other,
    }
}

} // verus!
