//! The tree rebuilder: hangs the pages below the one page collection, gives
//! the collection its list of children and their number, points the root at
//! it, and records the bookmarks.

use crate::bookmark::{bookmarks_view, Bookmark};
use crate::model::{lookup, BookmarkView, EntriesView, GraphView, Id, NodeView};
use crate::names::{
    count, kids, outlines, pages, parent, root, COUNT, KIDS, OUTLINES, PAGES, PARENT, ROOT,
};
use crate::pdf::{
    add_bookmark, adjust_zero_pages, array_object, as_dict, as_reference, bookmarks_sound,
    build_outline, clone_dictionary, dictionary_model, dictionary_object, dictionary_remove, dictionary_set,
    document_model, get_object, integer_object, max_bookmark_id, object_count, object_model,
    outline_built, reference_object, renumber_objects_with, renumbered, set_max_id, set_object,
    trailer_get, trailer_set, zero_pages_adjusted,
};
use vstd::prelude::*;

verus! {

/// The values of a list of identified entry sets.
pub open spec fn pages_view(pages: Seq<(Id, lopdf::Dictionary)>) -> Seq<(Id, EntriesView)> {
    pages.map_values(|p: (Id, lopdf::Dictionary)| (p.0, dictionary_model(p.1)))
}

/// A page whose parent is `collection`.
pub open spec fn with_parent(page: EntriesView, collection: Id) -> EntriesView {
    page.insert(PARENT(), NodeView::Reference(collection))
}

/// The node table `objects` after each page of `pages` was stored in it under
/// its identifier, in the order of `pages`, with `collection` as its parent.
pub open spec fn placed(
    objects: Map<Id, NodeView>,
    pages: Seq<(Id, EntriesView)>,
    collection: Id,
) -> Map<Id, NodeView>
    decreases pages.len(),
{
    if pages.len() == 0 {
        objects
    } else {
        placed(objects, pages.drop_last(), collection).insert(
            pages.last().0,
            NodeView::Entries(with_parent(pages.last().1, collection)),
        )
    }
}

/// The list of children: one reference to each page, in the order of `pages`.
pub open spec fn kids_of(pages: Seq<(Id, EntriesView)>) -> Seq<NodeView> {
    Seq::new(pages.len(), |i: int| NodeView::Reference(pages[i].0))
}

/// The number of pages as the page collection holds it: an integer made from
/// the low 32 bits of the length of `pages`.
pub open spec fn count_of(pages: Seq<(Id, EntriesView)>) -> NodeView {
    NodeView::Integer((pages.len() as u32) as i64)
}

/// The page collection with its count and its list of children.
pub open spec fn unified_collection(
    entries: EntriesView,
    pages: Seq<(Id, EntriesView)>,
) -> EntriesView {
    entries.insert(COUNT(), count_of(pages)).insert(KIDS(), NodeView::Array(kids_of(pages)))
}

/// The root, pointing at `collection` and without a reference to an outline.
pub open spec fn unified_root(entries: EntriesView, collection: Id) -> EntriesView {
    entries.insert(PAGES(), NodeView::Reference(collection)).remove(OUTLINES())
}

/// The graph `g` rebuilt around `root` and `collection`: the pages hang below
/// the collection, collection and root stand under their identifiers, the
/// trailer names the root, the counter is the number of nodes, and the
/// bookmarks are recorded behind those that `g` had.
pub open spec fn rebuilt(
    g: GraphView,
    root: (Id, EntriesView),
    collection: (Id, EntriesView),
    pages: Seq<(Id, EntriesView)>,
    bookmarks: Seq<BookmarkView>,
) -> GraphView {
    let objects = placed(g.objects, pages, collection.0).insert(
        collection.0,
        NodeView::Entries(unified_collection(collection.1, pages)),
    ).insert(root.0, NodeView::Entries(unified_root(root.1, collection.0)));
    GraphView {
        objects,
        trailer: g.trailer.insert(ROOT(), NodeView::Reference(root.0)),
        max_id: objects.len() as u32,
        bookmarks: g.bookmarks + bookmarks,
        max_bookmark_id: (g.max_bookmark_id + bookmarks.len()) as u32,
    }
}

/// Stores each page in `out` under its identifier, with `collection` as its
/// parent.
fn place_pages(out: &mut lopdf::Document, pages: &Vec<(Id, lopdf::Dictionary)>, collection: Id)
    ensures
        document_model(*final(out)) == (GraphView {
            objects: placed(document_model(*old(out)).objects, pages_view(pages@), collection),
            ..document_model(*old(out))
        }),
        bookmarks_sound(*final(out)) == bookmarks_sound(*old(out)),
{
    let ghost views = pages_view(pages@);
    let ghost start = document_model(*out);
    let ghost sound = bookmarks_sound(*out);
    let mut i: usize = 0;
    assert(views.take(0) =~= Seq::empty());
    while i < pages.len()
        invariant
            i <= pages.len(),
            views == pages_view(pages@),
            bookmarks_sound(*out) == sound,
            document_model(*out) == (GraphView {
                objects: placed(start.objects, views.take(i as int), collection),
                ..start
            }),
        decreases pages.len() - i,
    {
        let id = pages[i].0;
        let mut page = clone_dictionary(&pages[i].1);
        dictionary_set(&mut page, parent(), reference_object(collection));
        set_object(out, id, dictionary_object(page));
        proof {
            assert(views.take(i + 1).drop_last() =~= views.take(i as int));
            assert(views.take(i + 1).last() == views[i as int]);
        }
        i += 1;
    }
    assert(views.take(pages@.len() as int) =~= views);
}

/// The list of children for `pages`.
fn kids_for(pages: &Vec<(Id, lopdf::Dictionary)>) -> (list: lopdf::Object)
    ensures
        object_model(list) == NodeView::Array(kids_of(pages_view(pages@))),
{
    let mut items: Vec<lopdf::Object> = Vec::new();
    let mut i: usize = 0;
    while i < pages.len()
        invariant
            i <= pages.len(),
            items@.len() == i,
            forall|j: int|
                0 <= j < i ==> object_model(#[trigger] items@[j]) == NodeView::Reference(
                    pages@[j].0,
                ),
        decreases pages.len() - i,
    {
        items.push(reference_object(pages[i].0));
        i += 1;
    }
    assert(items@.map_values(|item: lopdf::Object| object_model(item)) =~= kids_of(
        pages_view(pages@),
    ));
    array_object(items)
}

/// Records `bookmarks` in `out`, in their order.
fn record(out: &mut lopdf::Document, bookmarks: &Vec<Bookmark>)
    requires
        document_model(*old(out)).max_bookmark_id + bookmarks@.len() <= u32::MAX,
        bookmarks_sound(*old(out)),
    ensures
        bookmarks_sound(*final(out)),
        document_model(*final(out)) == (GraphView {
            bookmarks: document_model(*old(out)).bookmarks + bookmarks_view(bookmarks@),
            max_bookmark_id: (document_model(*old(out)).max_bookmark_id + bookmarks@.len()) as u32,
            ..document_model(*old(out))
        }),
{
    let ghost views = bookmarks_view(bookmarks@);
    let ghost start = document_model(*out);
    let mut i: usize = 0;
    assert(start.bookmarks + views.take(0) =~= start.bookmarks);
    while i < bookmarks.len()
        invariant
            i <= bookmarks.len(),
            views == bookmarks_view(bookmarks@),
            start.max_bookmark_id + bookmarks@.len() <= u32::MAX,
            bookmarks_sound(*out),
            document_model(*out) == (GraphView {
                bookmarks: start.bookmarks + views.take(i as int),
                max_bookmark_id: (start.max_bookmark_id + i) as u32,
                ..start
            }),
        decreases bookmarks.len() - i,
    {
        let b = &bookmarks[i];
        add_bookmark(out, b.title.clone(), b.color, b.level, b.target);
        proof {
            assert(views.take(i + 1) =~= views.take(i as int).push(views[i as int]));
            assert(start.bookmarks + views.take(i + 1) =~= (start.bookmarks + views.take(
                i as int,
            )).push(views[i as int]));
        }
        i += 1;
    }
    assert(views.take(bookmarks@.len() as int) =~= views);
}

/// Rebuilds `out` around the root and the page collection that were chosen:
/// hangs `pages` below the collection, stores the collection with its count
/// and its children, stores the root pointing at the collection and without
/// a reference to an outline, names the root in the trailer, sets the counter
/// to the number of nodes, and records `bookmarks`. The bookmarks of `out`
/// must be sound, and stay so.
pub fn rebuild(
    out: &mut lopdf::Document,
    root_node: (Id, lopdf::Dictionary),
    collection: (Id, lopdf::Dictionary),
    pages_list: &Vec<(Id, lopdf::Dictionary)>,
    bookmarks: &Vec<Bookmark>,
)
    requires
        document_model(*old(out)).max_bookmark_id + bookmarks@.len() <= u32::MAX,
        bookmarks_sound(*old(out)),
    ensures
        bookmarks_sound(*final(out)),
        document_model(*final(out)) == rebuilt(
            document_model(*old(out)),
            (root_node.0, dictionary_model(root_node.1)),
            (collection.0, dictionary_model(collection.1)),
            pages_view(pages_list@),
            bookmarks_view(bookmarks@),
        ),
{
    let root_id = root_node.0;
    let collection_id = collection.0;
    place_pages(out, pages_list, collection_id);

    let mut unified = collection.1;
    let number = #[verifier::truncate] (pages_list.len() as u32);
    dictionary_set(&mut unified, count(), integer_object(number));
    dictionary_set(&mut unified, kids(), kids_for(pages_list));
    set_object(out, collection_id, dictionary_object(unified));

    let mut top = root_node.1;
    dictionary_set(&mut top, pages(), reference_object(collection_id));
    dictionary_remove(&mut top, outlines().as_slice());
    set_object(out, root_id, dictionary_object(top));

    trailer_set(out, root(), reference_object(root_id));
    let n = object_count(out);
    set_max_id(out, #[verifier::truncate] (n as u32));
    record(out, bookmarks);
}

/// The identifier of the root, as the trailer names it.
pub open spec fn root_reference(trailer: EntriesView) -> Option<Id> {
    if trailer.contains_key(ROOT()) {
        match trailer[ROOT()] {
            NodeView::Reference(id) => Some(id),
            _ => None,
        }
    } else {
        None
    }
}

/// The graph `g` whose root refers to the outline `outline`. Where the
/// trailer names no root, or the root is no entry set, it is `g` itself.
pub open spec fn with_outline(g: GraphView, outline: Id) -> GraphView {
    match root_reference(g.trailer) {
        Some(root) => match lookup(g.objects, root) {
            Some(NodeView::Entries(entries)) => g.with_node(
                root,
                NodeView::Entries(entries.insert(OUTLINES(), NodeView::Reference(outline))),
            ),
            _ => g,
        },
        None => g,
    }
}

/// The graph `g` compacted, with its bookmarks resolved and its outline
/// built: the identifiers are renumbered from one, bookmarks without a target
/// are given one, and where the outline builder returns an outline, the root
/// refers to it.
pub open spec fn finished(g: GraphView) -> GraphView {
    let built = outline_built(zero_pages_adjusted(renumbered(g, 1)));
    match built.1 {
        Some(outline) => with_outline(built.0, outline),
        None => built.0,
    }
}

/// The greatest number of nodes, and of bookmarks, with which the counters
/// of the compaction and of the outline builder stay in range.
pub const FINISH_LIMIT: u32 = 0x3fff_ffff;

/// Whether `d` is small enough for `finish`.
pub fn can_finish(d: &lopdf::Document) -> (b: bool)
    ensures
        b == (document_model(*d).objects.len() <= FINISH_LIMIT && document_model(
            *d,
        ).max_bookmark_id <= FINISH_LIMIT),
{
    object_count(d) <= FINISH_LIMIT as usize && max_bookmark_id(d) <= FINISH_LIMIT
}

/// Whether `d` has room to record `n` more bookmarks.
pub fn can_record(d: &lopdf::Document, n: usize) -> (b: bool)
    ensures
        b == (document_model(*d).max_bookmark_id + n <= u32::MAX),
{
    n <= (u32::MAX - max_bookmark_id(d)) as usize
}

/// Lets the root of `d` refer to `outline`: the root is the node that the
/// trailer names, found with references followed, and where it is an entry
/// set it is stored under the identifier that the trailer names, with the
/// reference to `outline` among its entries. Where the trailer names no
/// root, or the root is no entry set, nothing changes.
pub fn refer_to_outline(d: &mut lopdf::Document, outline: Id)
    ensures
        document_model(*final(d)) == with_outline(document_model(*old(d)), outline),
        bookmarks_sound(*final(d)) == bookmarks_sound(*old(d)),
{
    let named = match trailer_get(d, root().as_slice()) {
        Some(entry) => as_reference(&entry),
        None => None,
    };
    if let Some(root_id) = named {
        if let Some(node) = get_object(d, root_id) {
            if let Some(entries) = as_dict(&node) {
                let mut top = clone_dictionary(entries);
                dictionary_set(&mut top, outlines(), reference_object(outline));
                set_object(d, root_id, dictionary_object(top));
            }
        }
    }
}

/// Finishes a rebuilt graph: compacts its identifiers, resolves bookmarks
/// without a target, builds the outline from the bookmarks and lets the root
/// refer to it. An outline is built if and only if a bookmark was recorded.
/// The bookmarks of `d` must be sound, and stay so.
pub fn finish(d: &mut lopdf::Document)
    requires
        document_model(*old(d)).objects.len() <= FINISH_LIMIT,
        document_model(*old(d)).max_bookmark_id <= FINISH_LIMIT,
        bookmarks_sound(*old(d)),
    ensures
        bookmarks_sound(*final(d)),
        document_model(*final(d)) == finished(document_model(*old(d))),
        outline_built(zero_pages_adjusted(renumbered(document_model(*old(d)), 1))).1.is_some() == (
        document_model(*old(d)).bookmarks.len() > 0),
{
    renumber_objects_with(d, 1);
    adjust_zero_pages(d);
    if let Some(outline) = build_outline(d) {
        refer_to_outline(d, outline);
    }
}

} // verus!
