//! The renumberer: gives every source a range of identifiers of its own, one
//! range behind the other, and collects from the renumbered sources what the
//! join works on.

use crate::bookmark::{bookmarks_view, Bookmark};
use crate::merger::nodes_view;
use crate::model::{id_lt, lookup, BookmarkView, EntriesView, GraphView, Id, NodeView};
use crate::pdf::{
    as_dict, bookmarks_sound, clear_bookmarks, clone_dictionary, document_model, get_object,
    get_pages, max_id, object_count, objects, page_order, renumber_objects_with, renumbered,
};
use crate::rebuild::pages_view;
use crate::role::{classify_entries, entries_role, Role};
use crate::text::{page_title, title_of};
use vstd::prelude::*;

verus! {

/// Whether the identifiers of `nodes` ascend strictly, so that none occurs
/// twice.
pub open spec fn ascending(nodes: Seq<(Id, NodeView)>) -> bool {
    forall|i: int, j: int|
        0 <= i < j < nodes.len() ==> id_lt(#[trigger] nodes[i].0, #[trigger] nodes[j].0)
}

/// Whether `nodes` lists the node table `objects` in ascending order of the
/// identifiers: each node once.
pub open spec fn is_walk(nodes: Seq<(Id, NodeView)>, objects: Map<Id, NodeView>) -> bool {
    &&& ascending(nodes)
    &&& forall|i: int|
        0 <= i < nodes.len() ==> objects.contains_key(#[trigger] nodes[i].0) && objects[nodes[i].0]
            == nodes[i].1
    &&& forall|id: Id| #[trigger]
        objects.contains_key(id) ==> exists|i: int| 0 <= i < nodes.len() && nodes[i].0 == id
}

/// The nodes of `objects` in ascending order of their identifiers.
pub open spec fn walk(objects: Map<Id, NodeView>) -> Seq<(Id, NodeView)> {
    choose|nodes: Seq<(Id, NodeView)>| is_walk(nodes, objects)
}

/// A node table has at most one walk.
pub proof fn lemma_walk_unique(
    a: Seq<(Id, NodeView)>,
    b: Seq<(Id, NodeView)>,
    objects: Map<Id, NodeView>,
)
    requires
        is_walk(a, objects),
        is_walk(b, objects),
    ensures
        a == b,
    decreases a.len(),
{
    if a.len() == 0 {
        if b.len() > 0 {
            assert(objects.contains_key(b[0].0));
        }
        assert(a =~= b);
    } else {
        let top = a.last().0;
        assert(objects.contains_key(a[a.len() - 1].0));
        let k = choose|k: int| 0 <= k < b.len() && b[k].0 == top;
        assert(objects.contains_key(b[b.len() - 1].0));
        let m = choose|m: int| 0 <= m < a.len() && a[m].0 == b.last().0;
        assert(b.last().0 == top);
        let rest = objects.remove(top);
        assert forall|id: Id| #[trigger] rest.contains_key(id) implies exists|i: int|
            0 <= i < a.drop_last().len() && a.drop_last()[i].0 == id by {
            let i = choose|i: int| 0 <= i < a.len() && a[i].0 == id;
            assert(a.drop_last()[i].0 == id);
        }
        assert forall|id: Id| #[trigger] rest.contains_key(id) implies exists|i: int|
            0 <= i < b.drop_last().len() && b.drop_last()[i].0 == id by {
            let i = choose|i: int| 0 <= i < b.len() && b[i].0 == id;
            assert(b.drop_last()[i].0 == id);
        }
        assert(is_walk(a.drop_last(), rest)) by {
            assert forall|i: int| 0 <= i < a.drop_last().len() implies rest.contains_key(
                #[trigger] a.drop_last()[i].0,
            ) && rest[a.drop_last()[i].0] == a.drop_last()[i].1 by {
                assert(id_lt(a[i].0, a[a.len() - 1].0));
            }
        }
        assert(is_walk(b.drop_last(), rest)) by {
            assert forall|i: int| 0 <= i < b.drop_last().len() implies rest.contains_key(
                #[trigger] b.drop_last()[i].0,
            ) && rest[b.drop_last()[i].0] == b.drop_last()[i].1 by {
                assert(id_lt(b[i].0, b[b.len() - 1].0));
            }
        }
        lemma_walk_unique(a.drop_last(), b.drop_last(), rest);
        assert(a =~= a.drop_last().push(a.last()));
        assert(b =~= b.drop_last().push(b.last()));
    }
}

/// The number of nodes of `source`.
pub fn node_count(source: &lopdf::Document) -> (n: usize)
    ensures
        n == document_model(*source).objects.len(),
{
    object_count(source)
}

/// Takes the bookmarks of `source` away. What is left is sound, whatever
/// state the bookmarks were in.
pub fn drop_bookmarks(source: &mut lopdf::Document)
    ensures
        document_model(*final(source)) == document_model(*old(source)).without_bookmarks(),
        bookmarks_sound(*final(source)),
{
    clear_bookmarks(source);
}

/// Renumbers `source` from `offset` on, so that none of its identifiers lies
/// below `offset`, and returns the greatest object number given. The
/// renumbered graph is the one that `renumbered` names. The bookmarks of
/// `source` must be sound, as they are behind `drop_bookmarks`.
pub fn renumber(source: &mut lopdf::Document, offset: u32) -> (top: u32)
    requires
        offset >= 1,
        offset + document_model(*old(source)).objects.len() <= u32::MAX,
        document_model(*old(source)).objects.len() <= i32::MAX,
        bookmarks_sound(*old(source)),
    ensures
        bookmarks_sound(*final(source)),
        document_model(*final(source)) == renumbered(document_model(*old(source)), offset),
        top == document_model(*final(source)).max_id,
        offset <= top + 1 <= offset + document_model(*old(source)).objects.len(),
        forall|id: Id| #[trigger]
            document_model(*final(source)).objects.contains_key(id) ==> offset <= id.0 <= top,
        document_model(*final(source)).objects.len() <= document_model(
            *old(source),
        ).objects.len(),
{
    renumber_objects_with(source, offset);
    max_id(source)
}

/// All nodes of `source` with their identifiers, in ascending order of the
/// identifiers.
pub fn nodes_of(source: &lopdf::Document) -> (nodes: Vec<(Id, lopdf::Object)>)
    ensures
        nodes_view(nodes@) == walk(document_model(*source).objects),
        is_walk(nodes_view(nodes@), document_model(*source).objects),
        nodes@.len() == document_model(*source).objects.len(),
{
    let nodes = objects(source);
    proof {
        let views = nodes_view(nodes@);
        let table = document_model(*source).objects;
        assert forall|id: Id| #[trigger] table.contains_key(id) implies exists|i: int|
            0 <= i < views.len() && views[i].0 == id by {
            let i = choose|i: int| 0 <= i < nodes@.len() && nodes@[i].0 == id;
            assert(views[i].0 == id);
        }
        assert(is_walk(views, table));
        lemma_walk_unique(views, walk(table), table);
    }
    nodes
}

/// Of the identifiers `ids`, in their order, those under which `objects`
/// holds a page: an entry set in the role `Page`, found with references
/// followed. Each comes with that entry set.
pub open spec fn pages_among(objects: Map<Id, NodeView>, ids: Seq<Id>) -> Seq<(Id, EntriesView)>
    decreases ids.len(),
{
    if ids.len() == 0 {
        Seq::empty()
    } else {
        let before = pages_among(objects, ids.drop_last());
        match lookup(objects, ids.last()) {
            Some(NodeView::Entries(entries)) => if entries_role(entries) == Role::Page {
                before.push((ids.last(), entries))
            } else {
                before
            },
            _ => before,
        }
    }
}

/// The pages of a graph in page order, each with its entry set.
pub open spec fn page_entries(g: GraphView) -> Seq<(Id, EntriesView)> {
    pages_among(g.objects, page_order(g))
}

/// There are no more pages among `ids` than `ids` is long, each is in the
/// role `Page`, and under the identifier of each `objects` holds either the
/// page itself or a reference, which leads to it.
pub proof fn lemma_pages_among(objects: Map<Id, NodeView>, ids: Seq<Id>)
    ensures
        pages_among(objects, ids).len() <= ids.len(),
        forall|i: int|
            0 <= i < pages_among(objects, ids).len() ==> entries_role(
                #[trigger] pages_among(objects, ids)[i].1,
            ) == Role::Page,
        forall|i: int|
            0 <= i < pages_among(objects, ids).len() ==> objects.contains_key(
                (#[trigger] pages_among(objects, ids)[i]).0,
            ) && (objects[pages_among(objects, ids)[i].0] == NodeView::Entries(
                pages_among(objects, ids)[i].1,
            ) || objects[pages_among(objects, ids)[i].0] is Reference),
    decreases ids.len(),
{
    if ids.len() > 0 {
        lemma_pages_among(objects, ids.drop_last());
    }
}

/// Whether the page `page` stands among `nodes` at `j`: the node there has
/// the identifier of the page, and is the page itself or a reference.
pub open spec fn stands_at(nodes: Seq<(Id, NodeView)>, j: int, page: (Id, EntriesView)) -> bool {
    0 <= j < nodes.len() && nodes[j].0 == page.0 && (nodes[j].1 == NodeView::Entries(page.1)
        || nodes[j].1 is Reference)
}

/// Whether the page `page` stands among `nodes`.
pub open spec fn page_stands(nodes: Seq<(Id, NodeView)>, page: (Id, EntriesView)) -> bool {
    exists|j: int| stands_at(nodes, j, page)
}

/// The pages of `source` in page order, each with a copy of its entry set.
pub fn pages_of(source: &lopdf::Document) -> (pages: Vec<(Id, lopdf::Dictionary)>)
    ensures
        pages_view(pages@) == page_entries(document_model(*source)),
        pages@.len() <= document_model(*source).objects.len(),
{
    let ids = get_pages(source);
    let ghost table = document_model(*source).objects;
    let mut pages: Vec<(Id, lopdf::Dictionary)> = Vec::new();
    let mut i: usize = 0;
    assert(ids@.take(0) =~= Seq::empty());
    assert(pages_view(pages@) =~= Seq::empty());
    while i < ids.len()
        invariant
            i <= ids.len(),
            table == document_model(*source).objects,
            pages_view(pages@) == pages_among(table, ids@.take(i as int)),
        decreases ids.len() - i,
    {
        let id = ids[i];
        let ghost before = pages_view(pages@);
        proof {
            assert(ids@.take(i + 1).drop_last() =~= ids@.take(i as int));
            assert(ids@.take(i + 1).last() == id);
        }
        if let Some(node) = get_object(source, id) {
            if let Some(entries) = as_dict(&node) {
                if classify_entries(entries) == Role::Page {
                    pages.push((id, clone_dictionary(entries)));
                    assert(pages_view(pages@) =~= before.push(
                        (id, crate::pdf::dictionary_model(*entries)),
                    ));
                }
            }
        }
        i += 1;
    }
    proof {
        assert(ids@.take(ids@.len() as int) =~= ids@);
        lemma_pages_among(table, ids@);
    }
    pages
}

/// What was collected from the sources.
pub struct Collected {
    /// All nodes of all sources, source by source.
    pub nodes: Vec<(Id, lopdf::Object)>,
    /// The pages of all sources, source by source and in page order.
    pub pages: Vec<(Id, lopdf::Dictionary)>,
    /// One bookmark for each source that has a page.
    pub bookmarks: Vec<Bookmark>,
}

/// The value of what was collected.
pub struct CollectedView {
    pub nodes: Seq<(Id, NodeView)>,
    pub pages: Seq<(Id, EntriesView)>,
    pub bookmarks: Seq<BookmarkView>,
}

impl View for Collected {
    type V = CollectedView;

    open spec fn view(&self) -> CollectedView {
        CollectedView {
            nodes: nodes_view(self.nodes@),
            pages: pages_view(self.pages@),
            bookmarks: bookmarks_view(self.bookmarks@),
        }
    }
}

/// The values of a list of documents.
pub open spec fn documents_view(sources: Seq<lopdf::Document>) -> Seq<GraphView> {
    sources.map_values(|d: lopdf::Document| document_model(d))
}

/// The number of nodes of all sources together.
pub open spec fn total_nodes(sources: Seq<GraphView>) -> nat
    decreases sources.len(),
{
    if sources.len() == 0 {
        0
    } else {
        total_nodes(sources.drop_last()) + sources.last().objects.len()
    }
}

/// A source made ready for the join: its bookmarks are taken away, and it
/// is renumbered from `offset` on.
pub open spec fn prepared(source: GraphView, offset: u32) -> GraphView {
    renumbered(source.without_bookmarks(), offset)
}

/// The offset from which the source behind `sources` is renumbered: one for
/// the first source, and for every other one more than the greatest object
/// number that the renumbering gave to the source before it.
pub open spec fn next_offset(sources: Seq<GraphView>) -> u32
    decreases sources.len(),
{
    if sources.len() == 0 {
        1
    } else {
        (prepared(sources.last(), next_offset(sources.drop_last())).max_id + 1) as u32
    }
}

/// The bookmark of the `k`-th source that has a page: it is blue, of level
/// zero, and leads to `target`.
pub open spec fn source_bookmark(k: nat, target: Id) -> BookmarkView {
    BookmarkView { title: title_of(k), color: (0, 0, 1), level: 0, target, children: Seq::empty() }
}

/// The bookmark of a source whose pages are `pages`, in page order, where
/// the source is the `number`-th that has a page: it leads to the first
/// page. A source without pages has none.
pub fn source_marker(number: u32, pages: &Vec<(Id, lopdf::Dictionary)>) -> (marker: Option<
    Bookmark,
>)
    ensures
        match marker {
            Some(b) => pages@.len() > 0 && b@ == source_bookmark(number as nat, pages@[0].0),
            None => pages@.len() == 0,
        },
{
    if pages.len() > 0 {
        Some(Bookmark { title: page_title(number), color: (0, 0, 1), level: 0, target: pages[0].0 })
    } else {
        None
    }
}

/// What is collected from `sources`: each loses its bookmarks, is renumbered
/// from its offset, and
/// gives its nodes in ascending order, its pages in page order, and, where it
/// has a page, a bookmark to its first page. The bookmarks are numbered from
/// one, by source and not by page.
pub open spec fn collected(sources: Seq<GraphView>) -> CollectedView
    decreases sources.len(),
{
    if sources.len() == 0 {
        CollectedView { nodes: Seq::empty(), pages: Seq::empty(), bookmarks: Seq::empty() }
    } else {
        let before = collected(sources.drop_last());
        let source = prepared(sources.last(), next_offset(sources.drop_last()));
        let pages = page_entries(source);
        CollectedView {
            nodes: before.nodes + walk(source.objects),
            pages: before.pages + pages,
            bookmarks: if pages.len() > 0 {
                before.bookmarks.push(source_bookmark(before.bookmarks.len() + 1, pages[0].0))
            } else {
                before.bookmarks
            },
        }
    }
}

/// The greatest number of sources, and of nodes in all of them together,
/// with which the counters of the renumbering stay in range.
pub const COLLECT_LIMIT: u32 = 0x0fff_ffff;

/// Whether `sources` are few and small enough for `collect`.
pub fn fits(sources: &Vec<lopdf::Document>) -> (b: bool)
    ensures
        b == (sources@.len() <= COLLECT_LIMIT && total_nodes(documents_view(sources@))
            <= COLLECT_LIMIT),
{
    if sources.len() > COLLECT_LIMIT as usize {
        return false;
    }
    let ghost all = documents_view(sources@);
    let mut total: usize = 0;
    let mut i: usize = 0;
    assert(all.take(0) =~= Seq::empty());
    while i < sources.len()
        invariant
            i <= sources.len(),
            all == documents_view(sources@),
            total == total_nodes(all.take(i as int)),
            total <= COLLECT_LIMIT,
        decreases sources.len() - i,
    {
        let n = object_count(&sources[i]);
        proof {
            assert(all.take(i + 1).drop_last() =~= all.take(i as int));
            assert(all.take(i + 1).last() == document_model(sources@[i as int]));
            lemma_total_nodes_take(all, i + 1);
        }
        if n > COLLECT_LIMIT as usize - total {
            return false;
        }
        total = total + n;
        i += 1;
    }
    assert(all.take(sources@.len() as int) =~= all);
    true
}

/// The nodes of the first sources are among those of all.
proof fn lemma_total_nodes_take(sources: Seq<GraphView>, n: int)
    requires
        0 <= n <= sources.len(),
    ensures
        total_nodes(sources.take(n)) <= total_nodes(sources),
    decreases sources.len() - n,
{
    if n < sources.len() {
        assert(sources.take(n + 1).drop_last() =~= sources.take(n));
        lemma_total_nodes_take(sources, n + 1);
    } else {
        assert(sources.take(n) =~= sources);
    }
}

/// Renumbers every source, the first from one and each other from behind the
/// one before it, and collects their nodes, their pages and one bookmark for
/// each source that has a page. No identifier occurs twice among the nodes,
/// and every page stands among them under its identifier.
pub fn collect(sources: Vec<lopdf::Document>) -> (c: Collected)
    requires
        sources@.len() <= COLLECT_LIMIT,
        total_nodes(documents_view(sources@)) <= COLLECT_LIMIT,
    ensures
        c@ == collected(documents_view(sources@)),
        ascending(c@.nodes),
        forall|i: int|
            0 <= i < c@.pages.len() ==> entries_role(#[trigger] c@.pages[i].1) == Role::Page,
        forall|i: int| 0 <= i < c@.pages.len() ==> page_stands(c@.nodes, #[trigger] c@.pages[i]),
        c@.nodes.len() <= total_nodes(documents_view(sources@)),
        c@.pages.len() <= total_nodes(documents_view(sources@)),
        c@.bookmarks.len() <= sources@.len(),
{
    let mut nodes: Vec<(Id, lopdf::Object)> = Vec::new();
    let mut pages: Vec<(Id, lopdf::Dictionary)> = Vec::new();
    let mut bookmarks: Vec<Bookmark> = Vec::new();
    let mut offset: u32 = 1;
    let ghost all = documents_view(sources@);
    let ghost given = sources@;
    assert(all.take(0) =~= Seq::empty());
    assert(nodes_view(nodes@) =~= Seq::empty());
    assert(pages_view(pages@) =~= Seq::empty());
    assert(bookmarks_view(bookmarks@) =~= Seq::empty());
    for source in it: sources
        invariant
            it.seq() == given,
            all == documents_view(given),
            given.len() <= COLLECT_LIMIT,
            total_nodes(all) <= COLLECT_LIMIT,
            offset == next_offset(all.take(it.index())),
            1 <= offset <= 1 + total_nodes(all.take(it.index())),
            nodes_view(nodes@) == collected(all.take(it.index())).nodes,
            pages_view(pages@) == collected(all.take(it.index())).pages,
            bookmarks_view(bookmarks@) == collected(all.take(it.index())).bookmarks,
            ascending(nodes_view(nodes@)),
            forall|i: int| 0 <= i < nodes@.len() ==> (#[trigger] nodes@[i]).0.0 < offset,
            forall|i: int|
                0 <= i < pages@.len() ==> entries_role(#[trigger] pages_view(pages@)[i].1)
                    == Role::Page,
            forall|i: int|
                0 <= i < pages@.len() ==> page_stands(
                    nodes_view(nodes@),
                    #[trigger] pages_view(pages@)[i],
                ),
            nodes@.len() <= total_nodes(all.take(it.index())),
            pages@.len() <= total_nodes(all.take(it.index())),
            bookmarks@.len() <= it.index(),
    {
        let ghost index = it.index();
        let ghost start = document_model(source);
        proof {
            assert(all.take(index + 1).drop_last() =~= all.take(index));
            assert(all.take(index + 1).last() == start);
            lemma_total_nodes_take(all, index + 1);
        }
        let mut source = source;
        drop_bookmarks(&mut source);
        let top = renumber(&mut source, offset);
        let ghost model = document_model(source);

        let mut found = pages_of(&source);
        proof {
            lemma_pages_among(model.objects, page_order(model));
        }
        let ghost listed = bookmarks_view(bookmarks@);
        if let Some(marker) = source_marker((bookmarks.len() + 1) as u32, &found) {
            bookmarks.push(marker);
            assert(bookmarks_view(bookmarks@) =~= listed.push(
                source_bookmark(listed.len() + 1, found@[0].0),
            ));
        }
        let ghost old_pages = pages_view(pages@);
        let ghost new_pages = pages_view(found@);
        pages.append(&mut found);
        assert(pages_view(pages@) =~= old_pages + new_pages);

        let mut walked = nodes_of(&source);
        let ghost old_nodes = nodes_view(nodes@);
        let ghost new_nodes = nodes_view(walked@);
        let ghost low = nodes@;
        let ghost high = walked@;
        nodes.append(&mut walked);
        proof {
            assert(nodes@ =~= low + high);
            assert(nodes_view(nodes@) =~= old_nodes + new_nodes);
            assert forall|i: int, j: int| 0 <= i < j < nodes@.len() implies id_lt(
                #[trigger] nodes_view(nodes@)[i].0,
                #[trigger] nodes_view(nodes@)[j].0,
            ) by {
                if j < low.len() {
                    assert(nodes_view(nodes@)[i] == old_nodes[i]);
                    assert(nodes_view(nodes@)[j] == old_nodes[j]);
                } else if i >= low.len() {
                    assert(nodes_view(nodes@)[i] == new_nodes[i - low.len()]);
                    assert(nodes_view(nodes@)[j] == new_nodes[j - low.len()]);
                } else {
                    assert(low[i].0.0 < offset);
                    assert(model.objects.contains_key(new_nodes[j - low.len()].0));
                }
            }
            assert forall|i: int| 0 <= i < pages@.len() implies page_stands(
                nodes_view(nodes@),
                #[trigger] pages_view(pages@)[i],
            ) by {
                let page = pages_view(pages@)[i];
                if i < old_pages.len() {
                    assert(page == old_pages[i]);
                    assert(page_stands(old_nodes, old_pages[i]));
                    let j = choose|j: int| stands_at(old_nodes, j, page);
                    assert(nodes_view(nodes@)[j] == old_nodes[j]);
                    assert(stands_at(nodes_view(nodes@), j, page));
                } else {
                    let k = i - old_pages.len();
                    assert(page == new_pages[k]);
                    assert(model.objects.contains_key(new_pages[k].0));
                    let at = choose|at: int| 0 <= at < new_nodes.len() && new_nodes[at].0 == page.0;
                    assert(nodes_view(nodes@)[low.len() + at] == new_nodes[at]);
                    assert(stands_at(nodes_view(nodes@), low.len() + at, page));
                }
            }
            assert forall|i: int| 0 <= i < nodes@.len() implies (#[trigger] nodes@[i]).0.0 < top
                + 1 by {
                if i >= low.len() {
                    assert(model.objects.contains_key(new_nodes[i - low.len()].0));
                }
            }
        }
        offset = top + 1;
    }
    proof {
        assert(all.take(given.len() as int) =~= all);
        lemma_total_nodes_take(all, given.len() as int);
    }
    Collected { nodes, pages, bookmarks }
}

} // verus!
