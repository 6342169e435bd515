//! The mathematical model of a document graph: what the contracts of this
//! crate speak of.
#![allow(non_snake_case)]

use vstd::prelude::*;

verus! {

/// An identifier addresses one node of a graph: an object number and a
/// generation number, ordered as pairs.
pub type Id = (u32, u16);

/// An entry set: a finite mapping from names to nodes.
pub type EntriesView = Map<Seq<u8>, NodeView>;

/// The value of a node.
pub enum NodeView {
    Null,
    Boolean(bool),
    Integer(i64),
    /// A real number, held as its single-precision bit pattern.
    Real(u32),
    Name(Seq<u8>),
    /// A text string and whether it is written in hexadecimal form.
    Text(Seq<u8>, bool),
    Array(Seq<NodeView>),
    Entries(EntriesView),
    /// A binary blob with its entry set.
    Stream(EntriesView, Seq<u8>),
    /// A lookup into the node table of the same graph.
    Reference(Id),
}

/// The value of a bookmark: one future entry of the outline.
pub struct BookmarkView {
    pub title: Seq<char>,
    /// Red, green and blue, each in whole units.
    pub color: (u8, u8, u8),
    /// The level, which the outline's entry carries as its format.
    pub level: u32,
    pub target: Id,
    /// The bookmarks below this one.
    pub children: Seq<BookmarkView>,
}

/// The value of one drawing instruction of a page: its operator and its
/// operands.
pub struct OperationView {
    pub operator: Seq<char>,
    pub operands: Seq<NodeView>,
}

/// The value of a graph.
pub struct GraphView {
    /// The node table.
    pub objects: Map<Id, NodeView>,
    /// The trailer, which carries the reference to the root.
    pub trailer: EntriesView,
    /// The greatest object number handed out so far.
    pub max_id: u32,
    /// The recorded top-level bookmarks, in the order of recording.
    pub bookmarks: Seq<BookmarkView>,
    /// The number of bookmarks recorded so far.
    pub max_bookmark_id: u32,
}

impl GraphView {
    /// The graph without nodes, trailer entries or bookmarks.
    pub open spec fn empty() -> GraphView {
        GraphView {
            objects: Map::empty(),
            trailer: Map::empty(),
            max_id: 0,
            bookmarks: Seq::empty(),
            max_bookmark_id: 0,
        }
    }

    /// This graph without bookmarks.
    pub open spec fn without_bookmarks(self) -> GraphView {
        GraphView { bookmarks: Seq::empty(), max_bookmark_id: 0, ..self }
    }

    /// This graph with `node` stored under `id`.
    pub open spec fn with_node(self, id: Id, node: NodeView) -> GraphView {
        GraphView { objects: self.objects.insert(id, node), ..self }
    }
}

/// The order of identifiers: by object number, then by generation.
pub open spec fn id_lt(a: Id, b: Id) -> bool {
    a.0 < b.0 || (a.0 == b.0 && a.1 < b.1)
}

/// The greatest number of references that a lookup follows.
pub open spec fn DEREF_LIMIT() -> nat {
    128
}

/// What `node` stands for in `objects` when at most `budget` references are
/// followed: the first node on the chain that is no reference.
pub open spec fn follow(objects: Map<Id, NodeView>, node: NodeView, budget: nat) -> Option<NodeView>
    decreases budget,
{
    match node {
        NodeView::Reference(next) => {
            if budget == 0 || !objects.contains_key(next) {
                None
            } else {
                follow(objects, objects[next], (budget - 1) as nat)
            }
        },
        _ => Some(node),
    }
}

/// The node found under `id`, with references followed.
pub open spec fn lookup(objects: Map<Id, NodeView>, id: Id) -> Option<NodeView> {
    if objects.contains_key(id) {
        follow(objects, objects[id], DEREF_LIMIT())
    } else {
        None
    }
}

} // verus!
