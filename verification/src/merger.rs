//! The classifier and merger: walks the nodes of all sources, keeps one root
//! and one page collection, and copies what has no role.
//!
//! Precedence. Where several sources bring a page collection, their entry
//! sets are united, and on a key that more than one of them holds the entry
//! of the first contributor stays. Of several roots the first stays whole and
//! the others are dropped.

use crate::model::{EntriesView, GraphView, Id, NodeView};
use crate::pdf::{
    as_dict, bookmarks_sound, clone_dictionary, clone_object, dictionary_entries, dictionary_has,
    dictionary_model, dictionary_set, document_model, object_model, set_object,
};
use crate::role::{classify, role_of, Role};
use vstd::prelude::*;

verus! {

/// The values of a list of identified objects.
pub open spec fn nodes_view(nodes: Seq<(Id, lopdf::Object)>) -> Seq<(Id, NodeView)> {
    nodes.map_values(|e: (Id, lopdf::Object)| (e.0, object_model(e.1)))
}

/// The value of a candidate: its identifier and its entry set.
pub open spec fn candidate_view(c: Option<(Id, lopdf::Dictionary)>) -> Option<(Id, EntriesView)> {
    match c {
        Some(c) => Some((c.0, dictionary_model(c.1))),
        None => None,
    }
}

/// The entries of a node that is an entry set.
pub open spec fn entries_of(node: NodeView) -> EntriesView {
    match node {
        NodeView::Entries(entries) => entries,
        _ => Map::empty(),
    }
}

/// The union of two entry sets in which, on a key that both hold, the entry
/// of `first` stays.
pub open spec fn united(first: EntriesView, later: EntriesView) -> EntriesView {
    later.union_prefer_right(first)
}

/// The root that survives: the first node of `nodes` in the role `Root`.
pub open spec fn root_of(nodes: Seq<(Id, NodeView)>) -> Option<(Id, EntriesView)>
    decreases nodes.len(),
{
    if nodes.len() == 0 {
        None
    } else {
        match root_of(nodes.drop_last()) {
            Some(root) => Some(root),
            None => if role_of(nodes.last().1) == Role::Root {
                Some((nodes.last().0, entries_of(nodes.last().1)))
            } else {
                None
            },
        }
    }
}

/// The page collection that survives: it has the identifier of the first node
/// of `nodes` in the role `PageCollection`, and the entries of all of them
/// united, the earlier before the later.
pub open spec fn collection_of(nodes: Seq<(Id, NodeView)>) -> Option<(Id, EntriesView)>
    decreases nodes.len(),
{
    if nodes.len() == 0 {
        None
    } else {
        let last = nodes.last();
        match collection_of(nodes.drop_last()) {
            Some(found) => if role_of(last.1) == Role::PageCollection {
                Some((found.0, united(found.1, entries_of(last.1))))
            } else {
                Some(found)
            },
            None => if role_of(last.1) == Role::PageCollection {
                Some((last.0, entries_of(last.1)))
            } else {
                None
            },
        }
    }
}

/// The node table `objects` after each node of `nodes` in the role `Other`
/// was stored in it under its identifier, in the order of `nodes`.
pub open spec fn others_of(objects: Map<Id, NodeView>, nodes: Seq<(Id, NodeView)>) -> Map<
    Id,
    NodeView,
>
    decreases nodes.len(),
{
    if nodes.len() == 0 {
        objects
    } else {
        let before = others_of(objects, nodes.drop_last());
        if role_of(nodes.last().1) == Role::Other {
            before.insert(nodes.last().0, nodes.last().1)
        } else {
            before
        }
    }
}

/// The keys of the first `n` entries of `entries`, each with its entry in
/// `later`.
spec fn taken(entries: Seq<(Vec<u8>, lopdf::Object)>, n: int, later: EntriesView) -> EntriesView {
    Map::new(
        |key: Seq<u8>| exists|j: int| 0 <= j < n && #[trigger] entries[j].0@ == key,
        |key: Seq<u8>| later[key],
    )
}

/// Unites `later` into `first`: every entry of `later` whose key `first`
/// lacks is added to it, and no entry of `first` changes.
pub fn unite(first: &mut lopdf::Dictionary, later: &lopdf::Dictionary)
    ensures
        dictionary_model(*final(first)) == united(
            dictionary_model(*old(first)),
            dictionary_model(*later),
        ),
{
    let entries = dictionary_entries(later);
    let ghost start = dictionary_model(*first);
    let ghost other = dictionary_model(*later);
    let mut i: usize = 0;
    assert(dictionary_model(*first) =~= united(start, taken(entries@, 0, other)));
    while i < entries.len()
        invariant
            i <= entries.len(),
            other == dictionary_model(*later),
            forall|j: int|
                0 <= j < entries@.len() ==> other.contains_key(#[trigger] entries@[j].0@)
                    && other[entries@[j].0@] == object_model(entries@[j].1),
            dictionary_model(*first) == united(start, taken(entries@, i as int, other)),
        decreases entries.len() - i,
    {
        let key = &entries[i].0;
        if !dictionary_has(first, key.as_slice()) {
            dictionary_set(first, key.clone(), clone_object(&entries[i].1));
        }
        proof {
            let k = entries@[i as int].0@;
            let next = taken(entries@, i + 1, other);
            let prev = taken(entries@, i as int, other);
            assert(next.contains_key(k));
            assert forall|key: Seq<u8>| next.contains_key(key) <==> (prev.contains_key(key) || key
                == k) by {
                if prev.contains_key(key) {
                    let j = choose|j: int| 0 <= j < i && #[trigger] entries@[j].0@ == key;
                    assert(0 <= j < i + 1 && entries@[j].0@ == key);
                }
                if next.contains_key(key) && key != k {
                    let j = choose|j: int| 0 <= j < i + 1 && #[trigger] entries@[j].0@ == key;
                    assert(0 <= j < i && entries@[j].0@ == key);
                }
            }
            assert(dictionary_model(*first) =~= united(start, next));
        }
        i += 1;
    }
    proof {
        let all = taken(entries@, entries@.len() as int, other);
        assert forall|key: Seq<u8>| other.contains_key(key) implies all.contains_key(key) by {
            let j = choose|j: int| 0 <= j < entries@.len() && entries@[j].0@ == key;
            assert(0 <= j < entries@.len() && entries@[j].0@ == key);
        }
        assert(all =~= other);
    }
}

/// The one root and the one page collection that a merge keeps, where the
/// nodes held any.
pub struct Candidates {
    pub root: Option<(Id, lopdf::Dictionary)>,
    pub collection: Option<(Id, lopdf::Dictionary)>,
}

/// Merges `nodes` by role: chooses the root and the page collection that
/// survive, copies every node in the role `Other` into `out` under its
/// identifier, and drops pages and outlines. The bookmarks of `out` stay as
/// they are.
pub fn merge_nodes(out: &mut lopdf::Document, nodes: &Vec<(Id, lopdf::Object)>) -> (found:
    Candidates)
    ensures
        candidate_view(found.root) == root_of(nodes_view(nodes@)),
        candidate_view(found.collection) == collection_of(nodes_view(nodes@)),
        document_model(*final(out)) == (GraphView {
            objects: others_of(document_model(*old(out)).objects, nodes_view(nodes@)),
            ..document_model(*old(out))
        }),
        bookmarks_sound(*final(out)) == bookmarks_sound(*old(out)),
{
    let mut root: Option<(Id, lopdf::Dictionary)> = None;
    let mut collection: Option<(Id, lopdf::Dictionary)> = None;
    let ghost views = nodes_view(nodes@);
    let ghost start = document_model(*out);
    let ghost sound = bookmarks_sound(*out);
    let mut i: usize = 0;
    assert(views.take(0) =~= Seq::empty());
    while i < nodes.len()
        invariant
            i <= nodes.len(),
            bookmarks_sound(*out) == sound,
            views == nodes_view(nodes@),
            candidate_view(root) == root_of(views.take(i as int)),
            candidate_view(collection) == collection_of(views.take(i as int)),
            document_model(*out) == (GraphView {
                objects: others_of(start.objects, views.take(i as int)),
                ..start
            }),
        decreases nodes.len() - i,
    {
        let id = nodes[i].0;
        let object = &nodes[i].1;
        proof {
            assert(views.take(i + 1).drop_last() =~= views.take(i as int));
            assert(views.take(i + 1).last() == views[i as int]);
            assert(views[i as int] == (id, object_model(*object)));
        }
        match classify(object) {
            Role::Root => {
                if root.is_none() {
                    if let Some(entries) = as_dict(object) {
                        root = Some((id, clone_dictionary(entries)));
                    }
                }
            },
            Role::PageCollection => {
                if let Some(entries) = as_dict(object) {
                    collection =
                    match collection {
                        Some((first, mut merged)) => {
                            unite(&mut merged, entries);
                            Some((first, merged))
                        },
                        None => Some((id, clone_dictionary(entries))),
                    };
                }
            },
            Role::Other => {
                set_object(out, id, clone_object(object));
            },
            _ => {},
        }
        i += 1;
    }
    assert(views.take(nodes@.len() as int) =~= views);
    Candidates { root, collection }
}

} // verus!
