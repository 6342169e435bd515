//! The join: from the nodes, pages and bookmarks of all sources to one graph.

use crate::bookmark::{bookmarks_view, Bookmark};
use crate::merger::{
    candidate_view, collection_of, merge_nodes, nodes_view, others_of, root_of, Candidates,
};
use crate::model::{BookmarkView, EntriesView, GraphView, Id, NodeView};
use crate::pdf::{
    bookmarks_sound, document_model, new_document, outline_built, renumbered,
    zero_pages_adjusted,
};
use crate::rebuild::{finish, finished, pages_view, placed, rebuild, rebuilt};
use crate::renumber::{collect, collected, documents_view, total_nodes, COLLECT_LIMIT};
use vstd::prelude::*;
use vstd::string::StringExecFns;

verus! {

/// Why a join gives no graph.
#[derive(Clone, Copy, PartialEq, Eq, Structural, Debug)]
pub enum MergeError {
    /// No source holds a page collection.
    MissingPageCollection,
    /// No source holds a root.
    MissingRoot,
}

impl MergeError {
    /// The diagnostic that names the missing role.
    pub open spec fn message(self) -> Seq<char> {
        match self {
            MergeError::MissingPageCollection => "Pages root not found."@,
            MergeError::MissingRoot => "Catalog root not found."@,
        }
    }

    /// The diagnostic that names the missing role.
    pub fn describe(&self) -> (text: String)
        ensures
            text@ == self.message(),
    {
        match self {
            MergeError::MissingPageCollection => String::from_str("Pages root not found."),
            MergeError::MissingRoot => String::from_str("Catalog root not found."),
        }
    }
}

/// The role that is missing where a root and a page collection were looked
/// for and `root` and `collection` were found: the page collection where
/// there is none, else the root where there is none.
pub open spec fn lacking(
    root: Option<(Id, EntriesView)>,
    collection: Option<(Id, EntriesView)>,
) -> Option<MergeError> {
    if collection is None {
        Some(MergeError::MissingPageCollection)
    } else if root is None {
        Some(MergeError::MissingRoot)
    } else {
        None
    }
}

/// The role that `nodes` lack for a join, if they lack one.
pub open spec fn missing_role(nodes: Seq<(Id, NodeView)>) -> Option<MergeError> {
    lacking(root_of(nodes), collection_of(nodes))
}

/// The role that the candidates lack for a join, if they lack one.
pub fn missing(found: &Candidates) -> (e: Option<MergeError>)
    ensures
        e == lacking(candidate_view(found.root), candidate_view(found.collection)),
{
    if found.collection.is_none() {
        Some(MergeError::MissingPageCollection)
    } else if found.root.is_none() {
        Some(MergeError::MissingRoot)
    } else {
        None
    }
}

/// The graph that a join assembles from the nodes of all sources, their
/// pages and their bookmarks: the nodes without a role are copied, the pages
/// hang below the page collection that survives, and the root that survives
/// points at it. Without a page collection, or without a root, there is none.
pub open spec fn assembled(
    nodes: Seq<(Id, NodeView)>,
    pages: Seq<(Id, EntriesView)>,
    bookmarks: Seq<BookmarkView>,
) -> Result<GraphView, MergeError> {
    match collection_of(nodes) {
        None => Err(MergeError::MissingPageCollection),
        Some(collection) => match root_of(nodes) {
            None => Err(MergeError::MissingRoot),
            Some(root) => Ok(
                rebuilt(
                    GraphView { objects: others_of(Map::empty(), nodes), ..GraphView::empty() },
                    root,
                    collection,
                    pages,
                    bookmarks,
                ),
            ),
        },
    }
}

/// The value of the outcome of a join.
pub open spec fn outcome_view(r: Result<lopdf::Document, MergeError>) -> Result<
    GraphView,
    MergeError,
> {
    match r {
        Ok(d) => Ok(document_model(d)),
        Err(e) => Err(e),
    }
}

/// Assembles one graph from the nodes of all sources, their pages and their
/// bookmarks. Fails if and only if the nodes hold no page collection, or,
/// with one, no root. The bookmarks of the graph are sound.
pub fn assemble(
    nodes: &Vec<(Id, lopdf::Object)>,
    pages: &Vec<(Id, lopdf::Dictionary)>,
    bookmarks: &Vec<Bookmark>,
) -> (r: Result<lopdf::Document, MergeError>)
    requires
        bookmarks@.len() <= u32::MAX,
    ensures
        outcome_view(r) == assembled(
            nodes_view(nodes@),
            pages_view(pages@),
            bookmarks_view(bookmarks@),
        ),
        r matches Ok(d) ==> bookmarks_sound(d),
{
    let mut out = new_document("1.5");
    let found = merge_nodes(&mut out, nodes);
    if let Some(e) = missing(&found) {
        return Err(e);
    }
    match (found.root, found.collection) {
        (Some(root), Some(collection)) => {
            rebuild(&mut out, root, collection, pages, bookmarks);
            Ok(out)
        },
        (_, None) => Err(MergeError::MissingPageCollection),
        (None, _) => Err(MergeError::MissingRoot),
    }
}

/// Copying nodes into a finite node table leaves it finite, and adds at most
/// one node for each.
pub proof fn lemma_others_len(objects: Map<Id, NodeView>, nodes: Seq<(Id, NodeView)>)
    requires
        objects.dom().finite(),
    ensures
        others_of(objects, nodes).dom().finite(),
        others_of(objects, nodes).len() <= objects.len() + nodes.len(),
    decreases nodes.len(),
{
    if nodes.len() > 0 {
        lemma_others_len(objects, nodes.drop_last());
    }
}

/// Placing pages in a finite node table leaves it finite, and adds at most
/// one node for each.
pub proof fn lemma_placed_len(
    objects: Map<Id, NodeView>,
    pages: Seq<(Id, EntriesView)>,
    collection: Id,
)
    requires
        objects.dom().finite(),
    ensures
        placed(objects, pages, collection).dom().finite(),
        placed(objects, pages, collection).len() <= objects.len() + pages.len(),
    decreases pages.len(),
{
    if pages.len() > 0 {
        lemma_placed_len(objects, pages.drop_last(), collection);
    }
}

/// An assembled graph has at most two nodes more than there were nodes and
/// pages to assemble it from.
pub proof fn lemma_assembled_len(
    nodes: Seq<(Id, NodeView)>,
    pages: Seq<(Id, EntriesView)>,
    bookmarks: Seq<BookmarkView>,
)
    requires
        assembled(nodes, pages, bookmarks) is Ok,
    ensures
        assembled(nodes, pages, bookmarks)->Ok_0.objects.dom().finite(),
        assembled(nodes, pages, bookmarks)->Ok_0.objects.len() <= nodes.len() + pages.len() + 2,
{
    let collection = collection_of(nodes)->Some_0;
    lemma_others_len(Map::empty(), nodes);
    lemma_placed_len(others_of(Map::empty(), nodes), pages, collection.0);
}

/// The outcome of joining `sources`: what is collected from them is
/// assembled, and the assembled graph is finished.
pub open spec fn merged(sources: Seq<GraphView>) -> Result<GraphView, MergeError> {
    let c = collected(sources);
    match assembled(c.nodes, c.pages, c.bookmarks) {
        Ok(g) => Ok(finished(g)),
        Err(e) => Err(e),
    }
}

/// Whether the outline builder returns an outline for the assembled graph
/// `g`, once it is compacted and its bookmarks are resolved.
pub open spec fn outline_made(g: GraphView) -> bool {
    outline_built(zero_pages_adjusted(renumbered(g, 1))).1 is Some
}

/// Joins `sources`, in their order, into one document. Fails if and only if
/// no source holds a page collection, or, with one, none holds a root. An
/// outline is made for the joined document if and only if a source has a
/// page.
pub fn merge(sources: Vec<lopdf::Document>) -> (r: Result<lopdf::Document, MergeError>)
    requires
        sources@.len() <= COLLECT_LIMIT,
        total_nodes(documents_view(sources@)) <= COLLECT_LIMIT,
    ensures
        outcome_view(r) == merged(documents_view(sources@)),
        r matches Ok(d) ==> bookmarks_sound(d),
        r is Ok ==> (outline_made(
            assembled(
                collected(documents_view(sources@)).nodes,
                collected(documents_view(sources@)).pages,
                collected(documents_view(sources@)).bookmarks,
            )->Ok_0,
        ) <==> collected(documents_view(sources@)).pages.len() > 0),
{
    let ghost given = documents_view(sources@);
    let c = collect(sources);
    match assemble(&c.nodes, &c.pages, &c.bookmarks) {
        Ok(mut joined) => {
            proof {
                lemma_assembled_len(c@.nodes, c@.pages, c@.bookmarks);
                crate::laws::law_bookmark_per_source(given);
                assert(Seq::<BookmarkView>::empty() + c@.bookmarks =~= c@.bookmarks);
            }
            finish(&mut joined);
            Ok(joined)
        },
        Err(e) => Err(e),
    }
}

} // verus!
