//! The boundary to `lopdf`: its types, the names under which the contracts
//! speak of what they hold, and one function for each call that is made.
//!
//! Nothing in this file is proved. Each contract states what the source of
//! `lopdf` shows of the function that the body calls. The fields of a
//! document are open to everyone, so its bookmarks may be in a state that no
//! function of `lopdf` leaves; what is said of bookmarks is said of
//! documents whose bookmarks are sound (`bookmarks_sound`), and the
//! functions that walk the bookmarks demand it.

use crate::model::{id_lt, lookup, BookmarkView, EntriesView, GraphView, Id, NodeView};
use crate::names::TYPE;
use vstd::prelude::*;

verus! {

/// `lopdf::Document`: a document as it is loaded and saved.
#[verifier::external_type_specification]
#[verifier::external_body]
pub struct ExDocument(lopdf::Document);

/// `lopdf::Object`: one object of a document.
#[verifier::external_type_specification]
#[verifier::external_body]
pub struct ExObject(lopdf::Object);

/// `lopdf::Dictionary`: the entries of a dictionary object, of a stream, or
/// of the trailer.
#[verifier::external_type_specification]
#[verifier::external_body]
pub struct ExDictionary(lopdf::Dictionary);

/// What a document holds: its node table, trailer, counter and bookmarks.
pub uninterp spec fn document_model(d: lopdf::Document) -> GraphView;

/// Whether the bookmarks of a document are as the functions of `lopdf` leave
/// them: every bookmark that the document lists, at the top or below
/// another, has its entry in the table of bookmarks; the entries of the table
/// have numbers from one to `max_bookmark_id`; a bookmark stands below one
/// bookmark at most and never below itself, so that the bookmarks form
/// trees; and each component of a color is a whole number from 0 to 255.
pub uninterp spec fn bookmarks_sound(d: lopdf::Document) -> bool;

/// What an object holds.
pub uninterp spec fn object_model(o: lopdf::Object) -> NodeView;

/// What a dictionary holds.
pub uninterp spec fn dictionary_model(d: lopdf::Dictionary) -> EntriesView;

/// The graph that `Document::renumber_objects_with` leaves.
pub uninterp spec fn renumbered(g: GraphView, start: u32) -> GraphView;

/// The identifiers of the pages that `Document::get_pages` finds, in page
/// order.
pub uninterp spec fn page_order(g: GraphView) -> Seq<Id>;

/// The graph that `Document::adjust_zero_pages` leaves.
pub uninterp spec fn zero_pages_adjusted(g: GraphView) -> GraphView;

/// The graph that `Document::build_outline` leaves, and the identifier of the
/// outline that it returns.
pub uninterp spec fn outline_built(g: GraphView) -> (GraphView, Option<Id>);

/// The text that `Document::decode_text` makes of bytes in an encoding.
pub uninterp spec fn decoded_text(encoding: Option<Seq<char>>, bytes: Seq<u8>) -> Seq<char>;

/// `Document::with_version`: a document without objects, trailer entries or
/// bookmarks, whose counters stand at zero.
#[verifier::external_body]
pub(crate) fn new_document(version: &str) -> (d: lopdf::Document)
    ensures
        document_model(d) == GraphView::empty(),
        bookmarks_sound(d),
{
    lopdf::Document::with_version(version)
}

/// Writes the fields `bookmarks`, `bookmark_table` and `max_bookmark_id`:
/// the document is left without bookmarks, which is sound.
#[verifier::external_body]
pub(crate) fn clear_bookmarks(d: &mut lopdf::Document)
    ensures
        document_model(*final(d)) == document_model(*old(d)).without_bookmarks(),
        bookmarks_sound(*final(d)),
{
    d.bookmarks = Vec::new();
    d.bookmark_table = std::collections::HashMap::new();
    d.max_bookmark_id = 0;
}

/// `Document::renumber_objects_with`: the result is named. The source shows
/// that the objects are numbered onwards from `start`, that none is added,
/// that `max_id` is left at the last number given, and that of the bookmarks
/// only the targets change. Its counters overflow on the inputs that
/// `requires` leaves out, and it walks the bookmarks, which ends only where
/// they are sound.
#[verifier::external_body]
pub(crate) fn renumber_objects_with(d: &mut lopdf::Document, start: u32)
    requires
        start >= 1,
        start + document_model(*old(d)).objects.len() <= u32::MAX,
        document_model(*old(d)).objects.len() <= i32::MAX,
        bookmarks_sound(*old(d)),
    ensures
        document_model(*final(d)) == renumbered(document_model(*old(d)), start),
        start <= document_model(*final(d)).max_id + 1 <= start + document_model(
            *old(d),
        ).objects.len(),
        forall|id: Id| #[trigger]
            document_model(*final(d)).objects.contains_key(id) ==> start <= id.0
                <= document_model(*final(d)).max_id,
        document_model(*final(d)).objects.len() <= document_model(*old(d)).objects.len(),
        document_model(*final(d)).bookmarks.len() == document_model(*old(d)).bookmarks.len(),
        document_model(*final(d)).max_bookmark_id == document_model(*old(d)).max_bookmark_id,
        bookmarks_sound(*final(d)),
{
    d.renumber_objects_with(start);
}

/// Reads the field `max_id`.
#[verifier::external_body]
pub(crate) fn max_id(d: &lopdf::Document) -> (m: u32)
    ensures
        m == document_model(*d).max_id,
{
    d.max_id
}

/// Writes the field `max_id`; the bookmarks stay as they are.
#[verifier::external_body]
pub(crate) fn set_max_id(d: &mut lopdf::Document, value: u32)
    ensures
        document_model(*final(d)) == (GraphView { max_id: value, ..document_model(*old(d)) }),
        bookmarks_sound(*final(d)) == bookmarks_sound(*old(d)),
{
    d.max_id = value;
}

/// Reads the field `max_bookmark_id`.
#[verifier::external_body]
pub(crate) fn max_bookmark_id(d: &lopdf::Document) -> (m: u32)
    ensures
        m == document_model(*d).max_bookmark_id,
{
    d.max_bookmark_id
}

/// `BTreeMap::len` on the field `objects`.
#[verifier::external_body]
pub(crate) fn object_count(d: &lopdf::Document) -> (n: usize)
    ensures
        n == document_model(*d).objects.len(),
{
    d.objects.len()
}

/// `Document::get_pages`: the result is named; the page numbers, which count
/// from one, are left out. The source shows that no more pages are found
/// than the document has objects.
#[verifier::external_body]
pub(crate) fn get_pages(d: &lopdf::Document) -> (ids: Vec<Id>)
    ensures
        ids@ == page_order(document_model(*d)),
        ids@.len() <= document_model(*d).objects.len(),
{
    d.get_pages().into_values().collect()
}

/// `Document::get_object`: a copy of the object under `id`, with references
/// followed; none where a reference leads nowhere or the chain is too long.
#[verifier::external_body]
pub(crate) fn get_object(d: &lopdf::Document, id: Id) -> (r: Option<lopdf::Object>)
    ensures
        match r {
            Some(o) => lookup(document_model(*d).objects, id) == Some(object_model(o)),
            None => lookup(document_model(*d).objects, id).is_none(),
        },
{
    d.get_object(id).ok().cloned()
}

/// Walks the field `objects`, a `BTreeMap`: copies of all objects with their
/// identifiers, in ascending order of the identifiers.
#[verifier::external_body]
pub(crate) fn objects(d: &lopdf::Document) -> (all: Vec<(Id, lopdf::Object)>)
    ensures
        forall|i: int|
            0 <= i < all@.len() ==> document_model(*d).objects.contains_key(#[trigger] all@[i].0)
                && document_model(*d).objects[all@[i].0] == object_model(all@[i].1),
        forall|id: Id| #[trigger]
            document_model(*d).objects.contains_key(id) ==> exists|i: int|
                0 <= i < all@.len() && all@[i].0 == id,
        forall|i: int, j: int|
            0 <= i < j < all@.len() ==> id_lt(#[trigger] all@[i].0, #[trigger] all@[j].0),
        all@.len() == document_model(*d).objects.len(),
{
    d.objects.iter().map(|(id, object)| (*id, object.clone())).collect()
}

/// `Document::set_object`: stores `object` under `id`; the bookmarks stay as
/// they are.
#[verifier::external_body]
pub(crate) fn set_object(d: &mut lopdf::Document, id: Id, object: lopdf::Object)
    ensures
        document_model(*final(d)) == document_model(*old(d)).with_node(id, object_model(object)),
        bookmarks_sound(*final(d)) == bookmarks_sound(*old(d)),
{
    d.set_object(id, object);
}

/// `Dictionary::set` on the field `trailer`; the bookmarks stay as they are.
#[verifier::external_body]
pub(crate) fn trailer_set(d: &mut lopdf::Document, key: Vec<u8>, value: lopdf::Object)
    ensures
        document_model(*final(d)) == (GraphView {
            trailer: document_model(*old(d)).trailer.insert(key@, object_model(value)),
            ..document_model(*old(d))
        }),
        bookmarks_sound(*final(d)) == bookmarks_sound(*old(d)),
{
    d.trailer.set(key, value);
}

/// `Dictionary::get` on the field `trailer`: a copy of the entry under `key`.
#[verifier::external_body]
pub(crate) fn trailer_get(d: &lopdf::Document, key: &[u8]) -> (r: Option<lopdf::Object>)
    ensures
        match r {
            Some(o) => document_model(*d).trailer.contains_key(key@) && document_model(
                *d,
            ).trailer[key@] == object_model(o),
            None => !document_model(*d).trailer.contains_key(key@),
        },
{
    d.trailer.get(key).ok().cloned()
}

/// `Bookmark::new` and `Document::add_bookmark` without a parent: the
/// bookmark is recorded behind the others at the top level, with no
/// bookmarks below it. Each component of the color is handed on as the real
/// number of the same value. The bookmark gets the number behind
/// `max_bookmark_id`, under which a sound document has no entry yet.
#[verifier::external_body]
pub(crate) fn add_bookmark(
    d: &mut lopdf::Document,
    title: String,
    color: (u8, u8, u8),
    level: u32,
    target: Id,
)
    requires
        document_model(*old(d)).max_bookmark_id < u32::MAX,
        bookmarks_sound(*old(d)),
    ensures
        document_model(*final(d)) == (GraphView {
            bookmarks: document_model(*old(d)).bookmarks.push(
                BookmarkView { title: title@, color, level, target, children: Seq::empty() },
            ),
            max_bookmark_id: (document_model(*old(d)).max_bookmark_id + 1) as u32,
            ..document_model(*old(d))
        }),
        bookmarks_sound(*final(d)),
{
    let color = [color.0.into(), color.1.into(), color.2.into()];
    d.add_bookmark(lopdf::Bookmark::new(title, color, level, target), None);
}

/// `Document::adjust_zero_pages`: the result is named. The source shows that
/// only the targets of bookmarks change. It walks the bookmarks, which ends
/// only where they are sound.
#[verifier::external_body]
pub(crate) fn adjust_zero_pages(d: &mut lopdf::Document)
    requires
        bookmarks_sound(*old(d)),
    ensures
        document_model(*final(d)) == zero_pages_adjusted(document_model(*old(d))),
        document_model(*final(d)) == (GraphView {
            bookmarks: document_model(*final(d)).bookmarks,
            ..document_model(*old(d))
        }),
        document_model(*final(d)).bookmarks.len() == document_model(*old(d)).bookmarks.len(),
        bookmarks_sound(*final(d)),
{
    d.adjust_zero_pages();
}

/// `Document::build_outline`: the result is named. The source shows that an
/// outline is built if and only if a bookmark is recorded. It numbers two
/// objects for each bookmark and one for the outline, onwards from `max_id`,
/// and looks every listed bookmark up in the table, where a sound document
/// has it; the bookmarks themselves stay as they are.
#[verifier::external_body]
pub(crate) fn build_outline(d: &mut lopdf::Document) -> (r: Option<Id>)
    requires
        document_model(*old(d)).max_id + 2 * document_model(*old(d)).max_bookmark_id + 1
            <= u32::MAX,
        bookmarks_sound(*old(d)),
    ensures
        (document_model(*final(d)), r) == outline_built(document_model(*old(d))),
        r.is_some() == (document_model(*old(d)).bookmarks.len() > 0),
        bookmarks_sound(*final(d)),
{
    d.build_outline()
}

/// `Clone::clone` of an object.
#[verifier::external_body]
pub(crate) fn clone_object(o: &lopdf::Object) -> (c: lopdf::Object)
    ensures
        object_model(c) == object_model(*o),
{
    o.clone()
}

/// `Object::as_reference`: the identifier, where the object is a reference.
#[verifier::external_body]
pub(crate) fn as_reference(o: &lopdf::Object) -> (r: Option<Id>)
    ensures
        match r {
            Some(id) => object_model(*o) == NodeView::Reference(id),
            None => !(object_model(*o) is Reference),
        },
{
    o.as_reference().ok()
}

/// `Object::as_name`: the bytes of the name, where the object is a name.
#[verifier::external_body]
pub(crate) fn as_name(o: &lopdf::Object) -> (r: Option<&[u8]>)
    ensures
        match r {
            Some(name) => object_model(*o) == NodeView::Name(name@),
            None => !(object_model(*o) is Name),
        },
{
    o.as_name().ok()
}

/// `Object::as_str`: the bytes of the text, where the object is a text
/// string.
#[verifier::external_body]
pub(crate) fn as_str(o: &lopdf::Object) -> (r: Option<&[u8]>)
    ensures
        match r {
            Some(text) => object_model(*o) is Text && object_model(*o)->Text_0 == text@,
            None => !(object_model(*o) is Text),
        },
{
    o.as_str().ok()
}

/// `Object::as_array`: the items, where the object is an array.
#[verifier::external_body]
pub(crate) fn as_array(o: &lopdf::Object) -> (r: Option<&Vec<lopdf::Object>>)
    ensures
        match r {
            Some(items) => object_model(*o) == NodeView::Array(
                items@.map_values(|item: lopdf::Object| object_model(item)),
            ),
            None => !(object_model(*o) is Array),
        },
{
    o.as_array().ok()
}

/// `Object::as_i64`: the value, where the object is an integer.
#[verifier::external_body]
pub(crate) fn as_i64(o: &lopdf::Object) -> (r: Option<i64>)
    ensures
        match r {
            Some(value) => object_model(*o) == NodeView::Integer(value),
            None => !(object_model(*o) is Integer),
        },
{
    o.as_i64().ok()
}

/// `Document::decode_text`: the result is named.
#[verifier::external_body]
pub(crate) fn decode_text(encoding: Option<&str>, bytes: &[u8]) -> (text: String)
    ensures
        text@ == decoded_text(
            match encoding {
                Some(e) => Some(e@),
                None => None,
            },
            bytes@,
        ),
{
    lopdf::Document::decode_text(encoding, bytes)
}

/// `Object::as_dict`: the dictionary, where the object is one.
#[verifier::external_body]
pub(crate) fn as_dict(o: &lopdf::Object) -> (r: Option<&lopdf::Dictionary>)
    ensures
        match r {
            Some(d) => object_model(*o) == NodeView::Entries(dictionary_model(*d)),
            None => !(object_model(*o) is Entries),
        },
{
    o.as_dict().ok()
}

/// `Object::from` of a dictionary.
#[verifier::external_body]
pub(crate) fn dictionary_object(d: lopdf::Dictionary) -> (o: lopdf::Object)
    ensures
        object_model(o) == NodeView::Entries(dictionary_model(d)),
{
    lopdf::Object::from(d)
}

/// `Object::from` of an identifier: a reference to it.
#[verifier::external_body]
pub(crate) fn reference_object(id: Id) -> (o: lopdf::Object)
    ensures
        object_model(o) == NodeView::Reference(id),
{
    lopdf::Object::from(id)
}

/// `Object::from` of a `u32`: the integer of the same value.
#[verifier::external_body]
pub(crate) fn integer_object(value: u32) -> (o: lopdf::Object)
    ensures
        object_model(o) == NodeView::Integer(value as i64),
{
    lopdf::Object::from(value)
}

/// `Object::from` of a vector of objects: the array of them.
#[verifier::external_body]
pub(crate) fn array_object(items: Vec<lopdf::Object>) -> (o: lopdf::Object)
    ensures
        object_model(o) == NodeView::Array(
            items@.map_values(|item: lopdf::Object| object_model(item)),
        ),
{
    lopdf::Object::from(items)
}

/// `Clone::clone` of a dictionary.
#[verifier::external_body]
pub(crate) fn clone_dictionary(d: &lopdf::Dictionary) -> (c: lopdf::Dictionary)
    ensures
        dictionary_model(c) == dictionary_model(*d),
{
    d.clone()
}

/// `Dictionary::set`: stores `value` under `key`.
#[verifier::external_body]
pub(crate) fn dictionary_set(d: &mut lopdf::Dictionary, key: Vec<u8>, value: lopdf::Object)
    ensures
        dictionary_model(*final(d)) == dictionary_model(*old(d)).insert(key@, object_model(value)),
{
    d.set(key, value);
}

/// `Dictionary::remove`: drops the entry under `key`, if there is one.
#[verifier::external_body]
pub(crate) fn dictionary_remove(d: &mut lopdf::Dictionary, key: &[u8])
    ensures
        dictionary_model(*final(d)) == dictionary_model(*old(d)).remove(key@),
{
    d.remove(key);
}

/// `Dictionary::has`: whether there is an entry under `key`.
#[verifier::external_body]
pub(crate) fn dictionary_has(d: &lopdf::Dictionary, key: &[u8]) -> (b: bool)
    ensures
        b == dictionary_model(*d).contains_key(key@),
{
    d.has(key)
}

/// `Dictionary::type_is`: whether the entry under `Type` is the name `name`.
#[verifier::external_body]
pub(crate) fn dictionary_type_is(d: &lopdf::Dictionary, name: &[u8]) -> (b: bool)
    ensures
        b == (dictionary_model(*d).contains_key(TYPE()) && dictionary_model(*d)[TYPE()]
            == NodeView::Name(name@)),
{
    d.type_is(name)
}

/// `Dictionary::iter`: copies of all entries with their keys, each key once.
#[verifier::external_body]
pub(crate) fn dictionary_entries(d: &lopdf::Dictionary) -> (all: Vec<(Vec<u8>, lopdf::Object)>)
    ensures
        forall|i: int|
            0 <= i < all@.len() ==> dictionary_model(*d).contains_key(#[trigger] all@[i].0@)
                && dictionary_model(*d)[all@[i].0@] == object_model(all@[i].1),
        forall|key: Seq<u8>| #[trigger]
            dictionary_model(*d).contains_key(key) ==> exists|i: int|
                0 <= i < all@.len() && all@[i].0@ == key,
        forall|i: int, j: int|
            0 <= i < j < all@.len() ==> #[trigger] all@[i].0@ != #[trigger] all@[j].0@,
{
    d.iter().map(|(key, value)| (key.clone(), value.clone())).collect()
}

} // verus!
