//! What holds of every join: the laws of the graph that is assembled, and of
//! what is collected for it.

use crate::join::{assembled, missing_role, MergeError};
use crate::merger::{collection_of, entries_of, others_of, root_of};
use crate::model::{BookmarkView, EntriesView, GraphView, Id, NodeView};
use crate::names::{CATALOG, COUNT, KIDS, OUTLINES, PAGE, PAGES, PARENT, TYPE};
use crate::rebuild::{
    count_of, kids_of, placed, unified_collection, unified_root, with_parent,
};
use crate::renumber::{
    ascending, collected, next_offset, page_entries, page_stands, prepared, source_bookmark,
    stands_at,
};
use crate::role::{entries_role, role_of, typed, Role};
use crate::text::title_of;
use vstd::prelude::*;

verus! {

/// The index of the first node of `nodes` in the role `role`, or the length
/// of `nodes` where there is none.
pub open spec fn first_in_role(nodes: Seq<(Id, NodeView)>, role: Role) -> int
    decreases nodes.len(),
{
    if nodes.len() == 0 {
        0
    } else {
        let before = first_in_role(nodes.drop_last(), role);
        if before < nodes.len() - 1 || role_of(nodes.last().1) == role {
            before
        } else {
            nodes.len() as int
        }
    }
}

/// `first_in_role` is the least index of a node in the role.
pub proof fn lemma_first_in_role(nodes: Seq<(Id, NodeView)>, role: Role)
    ensures
        0 <= first_in_role(nodes, role) <= nodes.len(),
        first_in_role(nodes, role) < nodes.len() ==> role_of(
            nodes[first_in_role(nodes, role)].1,
        ) == role,
        forall|i: int|
            0 <= i < first_in_role(nodes, role) ==> role_of(#[trigger] nodes[i].1) != role,
    decreases nodes.len(),
{
    if nodes.len() > 0 {
        lemma_first_in_role(nodes.drop_last(), role);
        let before = first_in_role(nodes.drop_last(), role);
        assert forall|i: int| 0 <= i < first_in_role(nodes, role) implies role_of(
            #[trigger] nodes[i].1,
        ) != role by {
            if i < nodes.len() - 1 {
                assert(nodes.drop_last()[i] == nodes[i]);
            }
        }
        if before < nodes.len() - 1 {
            assert(nodes.drop_last()[before] == nodes[before]);
        }
    }
}

/// The root that survives is the first node in the role `Root`, with its
/// identifier and its entries; there is none if and only if no node is in
/// that role.
pub proof fn law_first_root_survives(nodes: Seq<(Id, NodeView)>)
    ensures
        root_of(nodes) is None <==> first_in_role(nodes, Role::Root) == nodes.len(),
        root_of(nodes) matches Some(root) ==> root == (
            nodes[first_in_role(nodes, Role::Root)].0,
            entries_of(nodes[first_in_role(nodes, Role::Root)].1),
        ),
    decreases nodes.len(),
{
    lemma_first_in_role(nodes, Role::Root);
    if nodes.len() > 0 {
        law_first_root_survives(nodes.drop_last());
        lemma_first_in_role(nodes.drop_last(), Role::Root);
        let before = first_in_role(nodes.drop_last(), Role::Root);
        if before < nodes.len() - 1 {
            assert(nodes.drop_last()[before] == nodes[before]);
        }
    }
}

/// The page collection that survives has the identifier of the first node in
/// the role `PageCollection`, and is itself in that role; there is none if
/// and only if no node is in that role.
pub proof fn law_first_collection_survives(nodes: Seq<(Id, NodeView)>)
    ensures
        collection_of(nodes) is None <==> first_in_role(nodes, Role::PageCollection)
            == nodes.len(),
        collection_of(nodes) matches Some(found) ==> found.0 == nodes[first_in_role(
            nodes,
            Role::PageCollection,
        )].0 && typed(found.1, PAGES()),
    decreases nodes.len(),
{
    lemma_first_in_role(nodes, Role::PageCollection);
    if nodes.len() > 0 {
        law_first_collection_survives(nodes.drop_last());
        lemma_first_in_role(nodes.drop_last(), Role::PageCollection);
        let before = first_in_role(nodes.drop_last(), Role::PageCollection);
        if before < nodes.len() - 1 {
            assert(nodes.drop_last()[before] == nodes[before]);
        }
    }
}

/// Whether the node at `i` is in the role `PageCollection` and holds `key`.
pub open spec fn contributes(nodes: Seq<(Id, NodeView)>, i: int, key: Seq<u8>) -> bool {
    0 <= i < nodes.len() && role_of(nodes[i].1) == Role::PageCollection && entries_of(
        nodes[i].1,
    ).contains_key(key)
}

/// The page collection that survives holds a key if and only if some node
/// in the role `PageCollection` holds it.
pub proof fn law_collection_unites(nodes: Seq<(Id, NodeView)>, key: Seq<u8>)
    ensures
        collection_of(nodes) is None ==> forall|i: int| !contributes(nodes, i, key),
        collection_of(nodes) matches Some(found) ==> (found.1.contains_key(key) <==> exists|
            i: int,
        |
            contributes(nodes, i, key)),
    decreases nodes.len(),
{
    if nodes.len() > 0 {
        let front = nodes.drop_last();
        let n = nodes.len() - 1;
        law_collection_unites(front, key);
        assert forall|i: int| contributes(front, i, key) == (contributes(nodes, i, key) && i
            != n) by {
            if 0 <= i < n {
                assert(front[i] == nodes[i]);
            }
        }
        if collection_of(nodes) is Some {
            let found = collection_of(nodes)->Some_0;
            if found.1.contains_key(key) {
                if collection_of(front) is Some && collection_of(front)->Some_0.1.contains_key(
                    key,
                ) {
                    let i = choose|i: int| contributes(front, i, key);
                    assert(contributes(nodes, i, key));
                } else {
                    assert(contributes(nodes, n, key));
                }
            }
            if exists|i: int| contributes(nodes, i, key) {
                let i = choose|i: int| contributes(nodes, i, key);
                if i != n {
                    assert(contributes(front, i, key));
                }
            }
        } else {
            assert forall|i: int| !contributes(nodes, i, key) by {
                if i != n {
                    assert(!contributes(front, i, key));
                }
            }
        }
    }
}

/// First contributor wins. Under a key, the page collection that survives
/// holds the entry of the first node in the role `PageCollection` that holds
/// the key.
pub proof fn law_first_contributor_wins(nodes: Seq<(Id, NodeView)>, key: Seq<u8>, i: int)
    requires
        contributes(nodes, i, key),
        forall|j: int| 0 <= j < i ==> !contributes(nodes, j, key),
    ensures
        collection_of(nodes) is Some,
        collection_of(nodes)->Some_0.1.contains_key(key),
        collection_of(nodes)->Some_0.1[key] == entries_of(nodes[i].1)[key],
    decreases nodes.len(),
{
    let front = nodes.drop_last();
    let n = nodes.len() - 1;
    law_collection_unites(front, key);
    assert forall|j: int| contributes(front, j, key) == (contributes(nodes, j, key) && j
        != n) by {
        if 0 <= j < n {
            assert(front[j] == nodes[j]);
        }
    }
    if i < n {
        law_first_contributor_wins(front, key, i);
        assert(front[i] == nodes[i]);
    } else {
        if collection_of(front) is Some && collection_of(front)->Some_0.1.contains_key(key) {
            let j = choose|j: int| contributes(front, j, key);
            assert(contributes(nodes, j, key));
        }
    }
}

/// Abort on a missing role. A join gives no graph if and only if no node is
/// in the role `PageCollection`, and names that role, or, with such a node,
/// none is in the role `Root`, and names that one.
pub proof fn law_abort_on_missing_role(
    nodes: Seq<(Id, NodeView)>,
    pages: Seq<(Id, EntriesView)>,
    bookmarks: Seq<BookmarkView>,
)
    ensures
        assembled(nodes, pages, bookmarks) == Err::<GraphView, MergeError>(
            MergeError::MissingPageCollection,
        ) <==> (forall|i: int|
            0 <= i < nodes.len() ==> role_of(#[trigger] nodes[i].1) != Role::PageCollection),
        assembled(nodes, pages, bookmarks) == Err::<GraphView, MergeError>(MergeError::MissingRoot)
            <==> (exists|i: int|
            0 <= i < nodes.len() && role_of(#[trigger] nodes[i].1) == Role::PageCollection) && (
        forall|i: int| 0 <= i < nodes.len() ==> role_of(#[trigger] nodes[i].1) != Role::Root),
{
    law_first_collection_survives(nodes);
    law_first_root_survives(nodes);
    lemma_first_in_role(nodes, Role::PageCollection);
    lemma_first_in_role(nodes, Role::Root);
}

/// The missing role, from the nodes alone. Nodes lack the page collection
/// if and only if none of them is in the role `PageCollection`; they lack
/// the root if and only if one of them is in that role and none in the role
/// `Root`; and a join of them gives no graph if and only if they lack a
/// role, and then names that role, whatever the pages and the bookmarks are.
pub proof fn law_missing_role(
    nodes: Seq<(Id, NodeView)>,
    pages: Seq<(Id, EntriesView)>,
    bookmarks: Seq<BookmarkView>,
)
    ensures
        missing_role(nodes) == Some(MergeError::MissingPageCollection) <==> (forall|i: int|
            0 <= i < nodes.len() ==> role_of(#[trigger] nodes[i].1) != Role::PageCollection),
        missing_role(nodes) == Some(MergeError::MissingRoot) <==> (exists|i: int|
            0 <= i < nodes.len() && role_of(#[trigger] nodes[i].1) == Role::PageCollection) && (
        forall|i: int| 0 <= i < nodes.len() ==> role_of(#[trigger] nodes[i].1) != Role::Root),
        match assembled(nodes, pages, bookmarks) {
            Ok(_) => missing_role(nodes) is None,
            Err(e) => missing_role(nodes) == Some(e),
        },
{
    law_first_collection_survives(nodes);
    law_first_root_survives(nodes);
    lemma_first_in_role(nodes, Role::PageCollection);
    lemma_first_in_role(nodes, Role::Root);
}

/// Among nodes whose identifiers ascend, the root and the page collection
/// that survive have different identifiers.
pub proof fn lemma_root_apart(nodes: Seq<(Id, NodeView)>)
    requires
        ascending(nodes),
        root_of(nodes) is Some,
        collection_of(nodes) is Some,
    ensures
        root_of(nodes)->Some_0.0 != collection_of(nodes)->Some_0.0,
{
    law_first_collection_survives(nodes);
    law_first_root_survives(nodes);
    lemma_first_in_role(nodes, Role::PageCollection);
    lemma_first_in_role(nodes, Role::Root);
    let r = first_in_role(nodes, Role::Root);
    let c = first_in_role(nodes, Role::PageCollection);
    if r < c {
        assert(crate::model::id_lt(nodes[r].0, nodes[c].0));
    } else if c < r {
        assert(crate::model::id_lt(nodes[c].0, nodes[r].0));
    }
}

/// Copying nodes brings only nodes in the role `Other`, each as it was.
pub proof fn lemma_others(objects: Map<Id, NodeView>, nodes: Seq<(Id, NodeView)>, id: Id)
    ensures
        others_of(objects, nodes).contains_key(id) ==> (objects.contains_key(id) && others_of(
            objects,
            nodes,
        )[id] == objects[id]) || (exists|i: int|
            0 <= i < nodes.len() && #[trigger] nodes[i] == (id, others_of(objects, nodes)[id])
                && role_of(nodes[i].1) == Role::Other),
    decreases nodes.len(),
{
    if nodes.len() > 0 {
        let front = nodes.drop_last();
        lemma_others(objects, front, id);
        let table = others_of(objects, nodes);
        if table.contains_key(id) {
            if role_of(nodes.last().1) == Role::Other && nodes.last().0 == id {
                assert(nodes[nodes.len() - 1] == (id, table[id]));
            } else if !(objects.contains_key(id) && table[id] == objects[id]) {
                let i = choose|i: int|
                    0 <= i < front.len() && #[trigger] front[i] == (id, others_of(objects, front)[id])
                        && role_of(front[i].1) == Role::Other;
                assert(nodes[i] == front[i]);
            }
        }
    }
}

/// Placing pages brings only pages, each with the page collection as its
/// parent.
pub proof fn lemma_placed(
    objects: Map<Id, NodeView>,
    pages: Seq<(Id, EntriesView)>,
    collection: Id,
    id: Id,
)
    ensures
        placed(objects, pages, collection).contains_key(id) ==> (objects.contains_key(id)
            && placed(objects, pages, collection)[id] == objects[id]) || (exists|i: int|
            0 <= i < pages.len() && (#[trigger] pages[i]).0 == id && placed(
                objects,
                pages,
                collection,
            )[id] == NodeView::Entries(with_parent(pages[i].1, collection))),
    decreases pages.len(),
{
    if pages.len() > 0 {
        let front = pages.drop_last();
        lemma_placed(objects, front, collection, id);
        let table = placed(objects, pages, collection);
        if table.contains_key(id) {
            if pages.last().0 == id {
                assert(pages[pages.len() - 1].0 == id);
            } else if !(objects.contains_key(id) && table[id] == objects[id]) {
                let i = choose|i: int|
                    0 <= i < front.len() && (#[trigger] front[i]).0 == id && placed(
                        objects,
                        front,
                        collection,
                    )[id] == NodeView::Entries(with_parent(front[i].1, collection));
                assert(pages[i] == front[i]);
            }
        }
    }
}

/// The keys that the rebuilder writes are not the key `Type`, and the type
/// names differ from each other.
proof fn lemma_names_apart()
    ensures
        PARENT() != TYPE(),
        COUNT() != TYPE(),
        KIDS() != TYPE(),
        PAGES() != TYPE(),
        OUTLINES() != TYPE(),
        COUNT() != KIDS(),
        CATALOG() != PAGES(),
        CATALOG() != PAGE(),
        PAGES() != PAGE(),
        PAGES() != OUTLINES(),
{
    assert(PARENT().len() == 6);
    assert(COUNT().len() == 5);
    assert(KIDS()[0] == 'K' as u8);
    assert(TYPE()[0] == 'T' as u8);
    assert(TYPE().len() == 4);
    assert(PAGES().len() == 5);
    assert(OUTLINES().len() == 8);
    assert(CATALOG().len() == 7);
    assert(PAGE().len() == 4);
}

/// Count consistency. In the assembled graph the page collection is an entry
/// set whose list of children holds one reference to each page, in the order
/// of the pages, and whose count is made from the number of the pages: it is
/// that number wherever the number fits in 32 bits.
pub proof fn law_count_consistency(
    nodes: Seq<(Id, NodeView)>,
    pages: Seq<(Id, EntriesView)>,
    bookmarks: Seq<BookmarkView>,
)
    requires
        ascending(nodes),
        assembled(nodes, pages, bookmarks) is Ok,
    ensures
        ({
            let g = assembled(nodes, pages, bookmarks)->Ok_0;
            let id = collection_of(nodes)->Some_0.0;
            &&& g.objects.contains_key(id)
            &&& g.objects[id] is Entries
            &&& entries_of(g.objects[id])[COUNT()] == count_of(pages)
            &&& entries_of(g.objects[id])[KIDS()] == NodeView::Array(kids_of(pages))
            &&& kids_of(pages).len() == pages.len()
            &&& forall|i: int|
                0 <= i < pages.len() ==> #[trigger] kids_of(pages)[i] == NodeView::Reference(
                    pages[i].0,
                )
            &&& pages.len() <= u32::MAX ==> count_of(pages) == NodeView::Integer(
                pages.len() as i64,
            )
        }),
{
    lemma_root_apart(nodes);
    lemma_names_apart();
}

/// Parent consistency. In the assembled graph every node in the role `Page`
/// names the page collection as its parent.
pub proof fn law_parent_consistency(
    nodes: Seq<(Id, NodeView)>,
    pages: Seq<(Id, EntriesView)>,
    bookmarks: Seq<BookmarkView>,
    id: Id,
)
    requires
        assembled(nodes, pages, bookmarks) is Ok,
        assembled(nodes, pages, bookmarks)->Ok_0.objects.contains_key(id),
        role_of(assembled(nodes, pages, bookmarks)->Ok_0.objects[id]) == Role::Page,
    ensures
        entries_of(assembled(nodes, pages, bookmarks)->Ok_0.objects[id]).contains_key(PARENT()),
        entries_of(assembled(nodes, pages, bookmarks)->Ok_0.objects[id])[PARENT()]
            == NodeView::Reference(collection_of(nodes)->Some_0.0),
{
    let collection = collection_of(nodes)->Some_0;
    let root = root_of(nodes)->Some_0;
    let copied = others_of(Map::empty(), nodes);
    lemma_names_apart();
    law_first_collection_survives(nodes);
    law_first_root_survives(nodes);
    lemma_first_in_role(nodes, Role::Root);
    lemma_others(Map::empty(), nodes, id);
    lemma_placed(copied, pages, collection.0, id);
    assert(typed(unified_collection(collection.1, pages), PAGES()));
    assert(typed(unified_root(root.1, collection.0), CATALOG()));
}

/// Singleton roots. In a graph assembled from nodes whose identifiers ascend
/// and from pages in the role `Page`, the root that survives is the one node
/// in the role `Root`, and the page collection that survives is the one node
/// in the role `PageCollection`.
pub proof fn law_singleton_roots(
    nodes: Seq<(Id, NodeView)>,
    pages: Seq<(Id, EntriesView)>,
    bookmarks: Seq<BookmarkView>,
)
    requires
        ascending(nodes),
        forall|i: int| 0 <= i < pages.len() ==> entries_role(#[trigger] pages[i].1) == Role::Page,
        assembled(nodes, pages, bookmarks) is Ok,
    ensures
        ({
            let g = assembled(nodes, pages, bookmarks)->Ok_0;
            let root = root_of(nodes)->Some_0.0;
            let collection = collection_of(nodes)->Some_0.0;
            &&& forall|id: Id|
                g.objects.contains_key(id) ==> (role_of(#[trigger] g.objects[id]) == Role::Root
                    <==> id == root)
            &&& forall|id: Id|
                g.objects.contains_key(id) ==> (role_of(#[trigger] g.objects[id])
                    == Role::PageCollection <==> id == collection)
            &&& g.objects.contains_key(root)
            &&& g.objects.contains_key(collection)
            &&& g.trailer[crate::names::ROOT()] == NodeView::Reference(root)
            &&& entries_of(g.objects[root])[PAGES()] == NodeView::Reference(collection)
        }),
{
    let g = assembled(nodes, pages, bookmarks)->Ok_0;
    let collection = collection_of(nodes)->Some_0;
    let root = root_of(nodes)->Some_0;
    let copied = others_of(Map::empty(), nodes);
    lemma_names_apart();
    lemma_root_apart(nodes);
    law_first_collection_survives(nodes);
    law_first_root_survives(nodes);
    lemma_first_in_role(nodes, Role::Root);
    assert(typed(unified_collection(collection.1, pages), PAGES()));
    assert(typed(unified_root(root.1, collection.0), CATALOG()));
    assert forall|id: Id| g.objects.contains_key(id) implies (role_of(#[trigger] g.objects[id])
        == Role::Root <==> id == root.0) && (role_of(g.objects[id]) == Role::PageCollection <==> id
        == collection.0) by {
        lemma_others(Map::empty(), nodes, id);
        lemma_placed(copied, pages, collection.0, id);
        if id != root.0 && id != collection.0 {
            let table = placed(copied, pages, collection.0);
            assert(g.objects[id] == table[id]);
            if !(copied.contains_key(id) && table[id] == copied[id]) {
                let i = choose|i: int|
                    0 <= i < pages.len() && (#[trigger] pages[i]).0 == id && table[id]
                        == NodeView::Entries(with_parent(pages[i].1, collection.0));
                assert(entries_role(pages[i].1) == Role::Page);
                assert(typed(with_parent(pages[i].1, collection.0), PAGE()));
            }
        }
    }
}

/// Outline presence, before the outline is built. In the assembled graph the
/// root holds no reference to an outline, and the bookmarks are those that
/// were handed in.
pub proof fn law_root_without_outline(
    nodes: Seq<(Id, NodeView)>,
    pages: Seq<(Id, EntriesView)>,
    bookmarks: Seq<BookmarkView>,
)
    requires
        assembled(nodes, pages, bookmarks) is Ok,
    ensures
        ({
            let g = assembled(nodes, pages, bookmarks)->Ok_0;
            let root = root_of(nodes)->Some_0.0;
            &&& g.objects.contains_key(root)
            &&& !entries_of(g.objects[root]).contains_key(OUTLINES())
            &&& g.bookmarks == bookmarks
        }),
{
    assert(Seq::<BookmarkView>::empty() + bookmarks =~= bookmarks);
}

/// The number of sources that have a page, each renumbered from its offset.
pub open spec fn sources_with_pages(sources: Seq<GraphView>) -> nat
    decreases sources.len(),
{
    if sources.len() == 0 {
        0
    } else {
        let source = prepared(sources.last(), next_offset(sources.drop_last()));
        sources_with_pages(sources.drop_last()) + if page_entries(source).len() > 0 {
            1nat
        } else {
            0nat
        }
    }
}

/// The number of pages of all sources, each renumbered from its offset.
pub open spec fn total_pages(sources: Seq<GraphView>) -> nat
    decreases sources.len(),
{
    if sources.len() == 0 {
        0
    } else {
        let source = prepared(sources.last(), next_offset(sources.drop_last()));
        total_pages(sources.drop_last()) + page_entries(source).len()
    }
}

/// One bookmark for each source that has a page. As many bookmarks are
/// collected as sources have a page, they are titled by their number among
/// these, counted from one, and as many pages are collected as the sources
/// have together.
pub proof fn law_bookmark_per_source(sources: Seq<GraphView>)
    ensures
        collected(sources).bookmarks.len() == sources_with_pages(sources),
        collected(sources).pages.len() == total_pages(sources),
        collected(sources).bookmarks.len() > 0 <==> collected(sources).pages.len() > 0,
        forall|k: int|
            0 <= k < collected(sources).bookmarks.len() ==> (#[trigger] collected(
                sources,
            ).bookmarks[k]).title == title_of((k + 1) as nat),
    decreases sources.len(),
{
    if sources.len() > 0 {
        law_bookmark_per_source(sources.drop_last());
    }
}

/// The bookmark of a source leads to its first page. The bookmark at `k` is
/// that of the source at `i`, where the source at `i` has a page and `k` of
/// the sources before it have one: it is titled by its number, counted from
/// one, has no bookmarks below it, and leads to the first page of the source.
pub proof fn law_bookmark_targets(sources: Seq<GraphView>, k: int) -> (i: int)
    requires
        0 <= k < collected(sources).bookmarks.len(),
    ensures
        0 <= i < sources.len(),
        sources_with_pages(sources.take(i)) == k,
        page_entries(prepared(sources[i], next_offset(sources.take(i)))).len() > 0,
        collected(sources).bookmarks[k] == source_bookmark(
            (k + 1) as nat,
            page_entries(prepared(sources[i], next_offset(sources.take(i))))[0].0,
        ),
    decreases sources.len(),
{
    let front = sources.drop_last();
    let n = sources.len() - 1;
    law_bookmark_per_source(front);
    assert(sources.take(n) =~= front);
    if k < collected(front).bookmarks.len() {
        let i = law_bookmark_targets(front, k);
        assert(front.take(i) =~= sources.take(i));
        assert(front[i] == sources[i]);
        i
    } else {
        n
    }
}

/// Where every source has a page, there is one bookmark for each source.
pub proof fn law_bookmarks_count_sources(sources: Seq<GraphView>)
    requires
        forall|i: int|
            0 <= i < sources.len() ==> page_entries(
                #[trigger] prepared(sources[i], next_offset(sources.take(i))),
            ).len() > 0,
    ensures
        collected(sources).bookmarks.len() == sources.len(),
    decreases sources.len(),
{
    if sources.len() > 0 {
        let front = sources.drop_last();
        assert forall|i: int| 0 <= i < front.len() implies page_entries(
            #[trigger] prepared(front[i], next_offset(front.take(i))),
        ).len() > 0 by {
            assert(front.take(i) =~= sources.take(i));
            assert(front[i] == sources[i]);
        }
        law_bookmarks_count_sources(front);
        assert(sources.take(sources.len() - 1) =~= front);
        assert(sources[sources.len() - 1] == sources.last());
    }
}

/// Placing pages puts a page under the identifier of each.
proof fn lemma_placed_has(
    objects: Map<Id, NodeView>,
    pages: Seq<(Id, EntriesView)>,
    collection: Id,
    i: int,
)
    requires
        0 <= i < pages.len(),
    ensures
        placed(objects, pages, collection).contains_key(pages[i].0),
        exists|k: int|
            0 <= k < pages.len() && (#[trigger] pages[k]).0 == pages[i].0 && placed(
                objects,
                pages,
                collection,
            )[pages[i].0] == NodeView::Entries(with_parent(pages[k].1, collection)),
    decreases pages.len(),
{
    let n = pages.len() - 1;
    let front = pages.drop_last();
    if pages[n].0 == pages[i].0 {
        assert(pages[n].0 == pages[i].0);
    } else {
        assert(front[i] == pages[i]);
        lemma_placed_has(objects, front, collection, i);
        let k = choose|k: int|
            0 <= k < front.len() && (#[trigger] front[k]).0 == front[i].0 && placed(
                objects,
                front,
                collection,
            )[front[i].0] == NodeView::Entries(with_parent(front[k].1, collection));
        assert(pages[k] == front[k]);
    }
}

/// Every child is there. In a graph assembled from nodes whose identifiers
/// ascend and from pages in the role `Page` that stand among the nodes, the
/// child at `i` of the page collection refers to a node of the graph, and
/// that node is a page whose parent is the page collection.
pub proof fn law_children_present(
    nodes: Seq<(Id, NodeView)>,
    pages: Seq<(Id, EntriesView)>,
    bookmarks: Seq<BookmarkView>,
    i: int,
)
    requires
        ascending(nodes),
        forall|k: int| 0 <= k < pages.len() ==> entries_role(#[trigger] pages[k].1) == Role::Page,
        forall|k: int| 0 <= k < pages.len() ==> page_stands(nodes, #[trigger] pages[k]),
        assembled(nodes, pages, bookmarks) is Ok,
        0 <= i < pages.len(),
    ensures
        ({
            let g = assembled(nodes, pages, bookmarks)->Ok_0;
            let collection = collection_of(nodes)->Some_0.0;
            &&& kids_of(pages)[i] == NodeView::Reference(pages[i].0)
            &&& g.objects.contains_key(pages[i].0)
            &&& role_of(g.objects[pages[i].0]) == Role::Page
            &&& entries_of(g.objects[pages[i].0])[PARENT()] == NodeView::Reference(collection)
        }),
{
    let collection = collection_of(nodes)->Some_0;
    let root = root_of(nodes)->Some_0;
    let copied = others_of(Map::empty(), nodes);
    let id = pages[i].0;
    lemma_names_apart();
    law_first_collection_survives(nodes);
    law_first_root_survives(nodes);
    lemma_first_in_role(nodes, Role::Root);
    lemma_first_in_role(nodes, Role::PageCollection);
    let r = first_in_role(nodes, Role::Root);
    let c = first_in_role(nodes, Role::PageCollection);
    assert(page_stands(nodes, pages[i]));
    let j = choose|j: int| stands_at(nodes, j, pages[i]);
    assert(role_of(nodes[j].1) == Role::Page || role_of(nodes[j].1) == Role::Other);
    if j < r {
        assert(crate::model::id_lt(nodes[j].0, nodes[r].0));
    } else if r < j {
        assert(crate::model::id_lt(nodes[r].0, nodes[j].0));
    }
    if j < c {
        assert(crate::model::id_lt(nodes[j].0, nodes[c].0));
    } else if c < j {
        assert(crate::model::id_lt(nodes[c].0, nodes[j].0));
    }
    assert(id != root.0 && id != collection.0);
    lemma_placed_has(copied, pages, collection.0, i);
    let k = choose|k: int|
        0 <= k < pages.len() && (#[trigger] pages[k]).0 == pages[i].0 && placed(
            copied,
            pages,
            collection.0,
        )[pages[i].0] == NodeView::Entries(with_parent(pages[k].1, collection.0));
    assert(entries_role(pages[k].1) == Role::Page);
    assert(typed(with_parent(pages[k].1, collection.0), PAGE()));
}

/// Uniqueness. Where the identifiers of the nodes ascend, no two nodes share
/// an identifier, and a node in the role `Other` whose identifier is not
/// that of a page stands in the assembled graph under its identifier, as it
/// was.
pub proof fn law_identifiers_unique(
    nodes: Seq<(Id, NodeView)>,
    pages: Seq<(Id, EntriesView)>,
    bookmarks: Seq<BookmarkView>,
    i: int,
)
    requires
        ascending(nodes),
        assembled(nodes, pages, bookmarks) is Ok,
        0 <= i < nodes.len(),
    ensures
        forall|j: int| 0 <= j < nodes.len() && j != i ==> (#[trigger] nodes[j]).0 != nodes[i].0,
        role_of(nodes[i].1) == Role::Other && (forall|k: int|
            0 <= k < pages.len() ==> (#[trigger] pages[k]).0 != nodes[i].0) ==> assembled(
            nodes,
            pages,
            bookmarks,
        )->Ok_0.objects.contains_key(nodes[i].0) && assembled(
            nodes,
            pages,
            bookmarks,
        )->Ok_0.objects[nodes[i].0] == nodes[i].1,
{
    assert forall|j: int| 0 <= j < nodes.len() && j != i implies (#[trigger] nodes[j]).0
        != nodes[i].0 by {
        if j < i {
            assert(crate::model::id_lt(nodes[j].0, nodes[i].0));
        } else {
            assert(crate::model::id_lt(nodes[i].0, nodes[j].0));
        }
    }
    if role_of(nodes[i].1) == Role::Other && (forall|k: int|
        0 <= k < pages.len() ==> (#[trigger] pages[k]).0 != nodes[i].0) {
        let id = nodes[i].0;
        let collection = collection_of(nodes)->Some_0;
        let root = root_of(nodes)->Some_0;
        let copied = others_of(Map::empty(), nodes);
        law_first_collection_survives(nodes);
        law_first_root_survives(nodes);
        lemma_first_in_role(nodes, Role::Root);
        lemma_first_in_role(nodes, Role::PageCollection);
        lemma_copied(nodes, i);
        lemma_placed(copied, pages, collection.0, id);
        lemma_placed_keeps(copied, pages, collection.0, id);
    }
}

/// Among nodes whose identifiers ascend, a node in the role `Other` is
/// copied as it was.
proof fn lemma_copied(nodes: Seq<(Id, NodeView)>, i: int)
    requires
        ascending(nodes),
        0 <= i < nodes.len(),
        role_of(nodes[i].1) == Role::Other,
    ensures
        others_of(Map::empty(), nodes).contains_key(nodes[i].0),
        others_of(Map::empty(), nodes)[nodes[i].0] == nodes[i].1,
    decreases nodes.len(),
{
    let front = nodes.drop_last();
    if i < nodes.len() - 1 {
        assert(front[i] == nodes[i]);
        lemma_copied(front, i);
        assert(crate::model::id_lt(nodes[i].0, nodes[nodes.len() - 1].0));
    }
}

/// Placing pages keeps every node whose identifier is not that of a page.
proof fn lemma_placed_keeps(
    objects: Map<Id, NodeView>,
    pages: Seq<(Id, EntriesView)>,
    collection: Id,
    id: Id,
)
    requires
        objects.contains_key(id),
        forall|k: int| 0 <= k < pages.len() ==> (#[trigger] pages[k]).0 != id,
    ensures
        placed(objects, pages, collection).contains_key(id),
        placed(objects, pages, collection)[id] == objects[id],
    decreases pages.len(),
{
    if pages.len() > 0 {
        let front = pages.drop_last();
        assert forall|k: int| 0 <= k < front.len() implies (#[trigger] front[k]).0 != id by {
            assert(front[k] == pages[k]);
        }
        lemma_placed_keeps(objects, front, collection, id);
        assert(pages[pages.len() - 1].0 != id);
    }
}

} // verus!
