use lopdf::{Dictionary, Document, Object, ObjectId, Stream};
use pdf_join::join::{assemble, merge, missing, MergeError};
use pdf_join::merger::merge_nodes;
use pdf_join::renumber::collect;

fn name(text: &str) -> Object {
    Object::Name(text.as_bytes().to_vec())
}

fn references(ids: &[ObjectId]) -> Object {
    Object::Array(ids.iter().map(|id| Object::Reference(*id)).collect())
}

/// A document with one page for each entry of `texts`. The catalog is object
/// 1, the page collection object 2, and page `k` (from zero) object `3 + 2k`
/// with its content in the object behind it.
fn document(texts: &[&str]) -> Document {
    let mut doc = Document::with_version("1.5");
    let mut kids = Vec::new();
    for (k, text) in texts.iter().enumerate() {
        let page_id = (3 + 2 * k as u32, 0);
        let content_id = (4 + 2 * k as u32, 0);
        let mut page = Dictionary::new();
        page.set("Type", name("Page"));
        page.set("Parent", Object::Reference((2, 0)));
        page.set("Contents", Object::Reference(content_id));
        doc.objects.insert(page_id, Object::Dictionary(page));
        let stream = Stream::new(Dictionary::new(), text.as_bytes().to_vec());
        doc.objects.insert(content_id, Object::Stream(stream));
        kids.push(page_id);
    }
    let mut pages = Dictionary::new();
    pages.set("Type", name("Pages"));
    pages.set("Kids", references(&kids));
    pages.set("Count", Object::Integer(kids.len() as i64));
    doc.objects.insert((2, 0), Object::Dictionary(pages));
    let mut catalog = Dictionary::new();
    catalog.set("Type", name("Catalog"));
    catalog.set("Pages", Object::Reference((2, 0)));
    doc.objects.insert((1, 0), Object::Dictionary(catalog));
    doc.trailer.set("Root", Object::Reference((1, 0)));
    doc.max_id = 2 + 2 * texts.len() as u32;
    doc
}

fn reference_at(dict: &Dictionary, key: &[u8]) -> ObjectId {
    dict.get(key).unwrap().as_reference().unwrap()
}

fn collection_of(doc: &Document) -> (ObjectId, Dictionary) {
    let id = reference_at(doc.catalog().unwrap(), b"Pages");
    (id, doc.get_dictionary(id).unwrap().clone())
}

fn kids_of(doc: &Document) -> Vec<ObjectId> {
    let (_, collection) = collection_of(doc);
    collection
        .get(b"Kids")
        .unwrap()
        .as_array()
        .unwrap()
        .iter()
        .map(|kid| kid.as_reference().unwrap())
        .collect()
}

fn typed(doc: &Document, kind: &[u8]) -> Vec<ObjectId> {
    doc.objects
        .iter()
        .filter(|(_, object)| object.as_dict().map(|d| d.type_is(kind)).unwrap_or(false))
        .map(|(id, _)| *id)
        .collect()
}

/// The titles and the targets of the top-level entries of the outline, in
/// their order.
fn outline_entries(doc: &Document) -> Vec<(Vec<u8>, ObjectId)> {
    let outline = doc.get_dictionary(reference_at(doc.catalog().unwrap(), b"Outlines")).unwrap();
    let mut entries = Vec::new();
    let mut next = outline.get(b"First").and_then(Object::as_reference).ok();
    while let Some(id) = next {
        let entry = doc.get_dictionary(id).unwrap();
        let action = doc.get_dictionary(reference_at(entry, b"A")).unwrap();
        let destination = action.get(b"D").unwrap().as_array().unwrap();
        let title = entry.get(b"Title").unwrap().as_str().unwrap().to_vec();
        entries.push((title, destination[0].as_reference().unwrap()));
        next = entry.get(b"Next").and_then(Object::as_reference).ok();
    }
    entries
}

fn page_texts(doc: &Document) -> Vec<Vec<u8>> {
    kids_of(doc).iter().map(|id| doc.get_page_content(*id).unwrap()).collect()
}

#[test]
fn one_and_two_pages_give_three_in_order() {
    let joined = merge(vec![document(&["a"]), document(&["b", "c"])]).unwrap();
    let (_, collection) = collection_of(&joined);
    assert_eq!(collection.get(b"Count").unwrap().as_i64().unwrap(), 3);
    let kids = kids_of(&joined);
    assert_eq!(kids.len(), 3);
    let pages: Vec<ObjectId> = joined.get_pages().into_values().collect();
    assert_eq!(kids, pages);
    assert_eq!(page_texts(&joined), vec![b"a".to_vec(), b"b".to_vec(), b"c".to_vec()]);
    assert_eq!(
        outline_entries(&joined),
        vec![(b"Page_1".to_vec(), kids[0]), (b"Page_2".to_vec(), kids[1])]
    );
}

#[test]
fn a_single_source_is_joined_alone() {
    let joined = merge(vec![document(&["a", "b"])]).unwrap();
    assert_eq!(page_texts(&joined), vec![b"a".to_vec(), b"b".to_vec()]);
    assert_eq!(outline_entries(&joined).len(), 1);
}

#[test]
fn every_page_names_the_one_collection_as_parent() {
    let joined = merge(vec![document(&["a"]), document(&["b", "c"]), document(&["d"])]).unwrap();
    let (collection_id, _) = collection_of(&joined);
    let pages = typed(&joined, b"Page");
    assert_eq!(pages.len(), 4);
    for id in pages {
        let page = joined.get_dictionary(id).unwrap();
        assert_eq!(reference_at(page, b"Parent"), collection_id);
    }
}

#[test]
fn one_root_and_one_collection_survive() {
    let joined = merge(vec![document(&["a"]), document(&["b"]), document(&["c"])]).unwrap();
    assert_eq!(typed(&joined, b"Catalog").len(), 1);
    assert_eq!(typed(&joined, b"Pages").len(), 1);
    assert_eq!(typed(&joined, b"Catalog")[0], reference_at(&joined.trailer, b"Root"));
}

#[test]
fn count_is_the_number_of_children_and_of_all_pages() {
    let joined = merge(vec![document(&["a", "b"]), document(&[]), document(&["c", "d", "e"])])
        .unwrap();
    let (_, collection) = collection_of(&joined);
    assert_eq!(collection.get(b"Count").unwrap().as_i64().unwrap(), 5);
    assert_eq!(kids_of(&joined).len(), 5);
}

#[test]
fn outline_has_an_entry_for_each_source_with_pages() {
    let joined = merge(vec![document(&["a", "b"]), document(&[]), document(&["c"])]).unwrap();
    let kids = kids_of(&joined);
    assert_eq!(
        outline_entries(&joined),
        vec![(b"Page_1".to_vec(), kids[0]), (b"Page_2".to_vec(), kids[2])]
    );
}

#[test]
fn without_pages_the_root_has_no_outline() {
    let joined = merge(vec![document(&[]), document(&[])]).unwrap();
    assert!(!joined.catalog().unwrap().has(b"Outlines"));
    let (_, collection) = collection_of(&joined);
    assert_eq!(collection.get(b"Count").unwrap().as_i64().unwrap(), 0);
    assert_eq!(kids_of(&joined), Vec::new());
}

#[test]
fn an_outline_of_a_source_is_dropped() {
    let mut source = document(&["a"]);
    let mut old_outline = Dictionary::new();
    old_outline.set("Type", name("Outlines"));
    old_outline.set("Count", Object::Integer(7));
    source.objects.insert((5, 0), Object::Dictionary(old_outline));
    let mut entry = Dictionary::new();
    entry.set("Type", name("Outline"));
    source.objects.insert((6, 0), Object::Dictionary(entry));
    source.max_id = 6;
    source.get_dictionary_mut((1, 0)).unwrap().set("Outlines", Object::Reference((5, 0)));
    let joined = merge(vec![source]).unwrap();
    assert_eq!(typed(&joined, b"Outline"), Vec::new());
    let outlines = typed(&joined, b"Outlines");
    assert_eq!(outlines, Vec::new());
    let outline = joined.get_dictionary(reference_at(joined.catalog().unwrap(), b"Outlines"));
    assert_eq!(outline.unwrap().get(b"Count").unwrap().as_i64().unwrap(), 1);
}

#[test]
fn identifiers_are_compact_and_unique() {
    let joined = merge(vec![document(&["a"]), document(&["b", "c"])]).unwrap();
    let numbers: Vec<u32> = joined.objects.keys().map(|id| id.0).collect();
    let expected: Vec<u32> = (1..=numbers.len() as u32).collect();
    assert_eq!(numbers, expected);
}

#[test]
fn first_page_collection_wins_a_conflict() {
    let mut first = document(&["a"]);
    first.get_dictionary_mut((2, 0)).unwrap().set("X", Object::Integer(1));
    first.get_dictionary_mut((2, 0)).unwrap().set("OnlyFirst", Object::Integer(10));
    let mut second = document(&["b"]);
    second.get_dictionary_mut((2, 0)).unwrap().set("X", Object::Integer(2));
    second.get_dictionary_mut((2, 0)).unwrap().set("OnlySecond", Object::Integer(20));
    let joined = merge(vec![first, second]).unwrap();
    let (_, collection) = collection_of(&joined);
    assert_eq!(collection.get(b"X").unwrap().as_i64().unwrap(), 1);
    assert_eq!(collection.get(b"OnlyFirst").unwrap().as_i64().unwrap(), 10);
    assert_eq!(collection.get(b"OnlySecond").unwrap().as_i64().unwrap(), 20);
}

#[test]
fn first_root_stays_whole_and_later_roots_are_dropped() {
    let mut first = document(&["a"]);
    first.get_dictionary_mut((1, 0)).unwrap().set("Lang", name("en"));
    let mut second = document(&["b"]);
    second.get_dictionary_mut((1, 0)).unwrap().set("Lang", name("de"));
    second.get_dictionary_mut((1, 0)).unwrap().set("Extra", Object::Integer(1));
    let joined = merge(vec![first, second]).unwrap();
    let root = joined.catalog().unwrap();
    assert_eq!(root.get(b"Lang").unwrap().as_name().unwrap(), b"en");
    assert!(!root.has(b"Extra"));
}

#[test]
fn groups_of_pages_are_flattened() {
    // The pages 3 and 5 hang below the group 9, which hangs below the
    // collection 2 with an entry of its own.
    let mut source = document(&["a", "b"]);
    let mut group = Dictionary::new();
    group.set("Type", name("Pages"));
    group.set("Parent", Object::Reference((2, 0)));
    group.set("Kids", references(&[(3, 0), (5, 0)]));
    group.set("Count", Object::Integer(2));
    group.set("Rotate", Object::Integer(90));
    source.objects.insert((9, 0), Object::Dictionary(group));
    source.max_id = 9;
    source.get_dictionary_mut((2, 0)).unwrap().set("Kids", references(&[(9, 0)]));
    for page in [(3, 0), (5, 0)] {
        source.get_dictionary_mut(page).unwrap().set("Parent", Object::Reference((9, 0)));
    }
    let joined = merge(vec![source, document(&["c"])]).unwrap();
    assert_eq!(typed(&joined, b"Pages").len(), 1);
    assert_eq!(page_texts(&joined), vec![b"a".to_vec(), b"b".to_vec(), b"c".to_vec()]);
    let (collection_id, collection) = collection_of(&joined);
    assert_eq!(collection.get(b"Count").unwrap().as_i64().unwrap(), 3);
    assert_eq!(collection.get(b"Rotate").unwrap().as_i64().unwrap(), 90);
    for id in kids_of(&joined) {
        assert_eq!(reference_at(joined.get_dictionary(id).unwrap(), b"Parent"), collection_id);
    }
}

#[test]
fn generations_are_kept_and_numbers_are_unique() {
    let mut source = document(&["a"]);
    let page = source.objects.remove(&(3, 0)).unwrap();
    source.objects.insert((3, 2), page);
    source.get_dictionary_mut((2, 0)).unwrap().set("Kids", references(&[(3, 2)]));
    let joined = merge(vec![document(&["x"]), source]).unwrap();
    let kids = kids_of(&joined);
    assert_eq!(kids.len(), 2);
    assert_eq!(kids[1].1, 2);
    assert_eq!(page_texts(&joined), vec![b"x".to_vec(), b"a".to_vec()]);
    let mut numbers: Vec<u32> = joined.objects.keys().map(|id| id.0).collect();
    numbers.dedup();
    assert_eq!(numbers.len(), joined.objects.len());
}

#[test]
fn no_sources_abort() {
    assert_eq!(merge(Vec::new()).err(), Some(MergeError::MissingPageCollection));
}

#[test]
fn sources_without_a_page_collection_abort() {
    let mut bare = Document::with_version("1.5");
    let mut catalog = Dictionary::new();
    catalog.set("Type", name("Catalog"));
    bare.objects.insert((1, 0), Object::Dictionary(catalog));
    bare.trailer.set("Root", Object::Reference((1, 0)));
    bare.max_id = 1;
    assert_eq!(merge(vec![bare.clone(), bare]).err(), Some(MergeError::MissingPageCollection));
}

#[test]
fn sources_without_a_root_abort() {
    let mut source = document(&["a"]);
    source.objects.remove(&(1, 0));
    assert_eq!(merge(vec![source]).err(), Some(MergeError::MissingRoot));
}

#[test]
fn the_diagnostic_names_the_missing_role() {
    assert_eq!(MergeError::MissingPageCollection.describe(), "Pages root not found.");
    assert_eq!(MergeError::MissingRoot.describe(), "Catalog root not found.");
}

#[test]
fn assemble_of_nothing_misses_the_page_collection() {
    let collected = collect(Vec::new());
    let outcome = assemble(&collected.nodes, &collected.pages, &collected.bookmarks);
    assert_eq!(outcome.err(), Some(MergeError::MissingPageCollection));
}

#[test]
fn assemble_sets_the_counter_to_the_number_of_nodes() {
    let collected = collect(vec![document(&["a"]), document(&["b"])]);
    let assembled =
        assemble(&collected.nodes, &collected.pages, &collected.bookmarks).unwrap();
    // Two contents, two pages, one collection and one root are left of eight.
    assert_eq!(assembled.objects.len(), 6);
    assert_eq!(assembled.max_id, 6);
    assert_eq!(assembled.version, "1.5");
    assert_eq!(reference_at(&assembled.trailer, b"Root"), (1, 0));
    assert_eq!(assembled.bookmarks.len(), 2);
    let keys: Vec<ObjectId> = assembled.objects.keys().copied().collect();
    assert_eq!(keys, vec![(1, 0), (2, 0), (3, 0), (4, 0), (7, 0), (8, 0)]);
}

#[test]
fn written_and_read_again_the_pages_and_the_outline_are_the_same() {
    let mut joined = merge(vec![document(&["a"]), document(&["b", "c"])]).unwrap();
    let pages: Vec<ObjectId> = joined.get_pages().into_values().collect();
    let entries = outline_entries(&joined);
    let mut bytes = Vec::new();
    joined.save_to(&mut bytes).unwrap();
    let read = Document::load_mem(&bytes).unwrap();
    let read_pages: Vec<ObjectId> = read.get_pages().into_values().collect();
    assert_eq!(read_pages, pages);
    assert_eq!(outline_entries(&read), entries);
    assert_eq!(page_texts(&read), vec![b"a".to_vec(), b"b".to_vec(), b"c".to_vec()]);
}

#[test]
fn bookmarks_of_the_sources_do_not_reach_the_outline() {
    let mut first = document(&["a"]);
    first.add_bookmark(lopdf::Bookmark::new("Old".to_string(), [0.5, 0.5, 0.5], 0, (3, 0)), None);
    let mut second = document(&["b"]);
    second.bookmarks.push(4);
    let joined = merge(vec![first, second]).unwrap();
    let kids = kids_of(&joined);
    assert_eq!(
        outline_entries(&joined),
        vec![(b"Page_1".to_vec(), kids[0]), (b"Page_2".to_vec(), kids[1])]
    );
}

fn candidates_of(source: Document) -> Option<MergeError> {
    let collected = collect(vec![source]);
    let mut out = Document::with_version("1.5");
    missing(&merge_nodes(&mut out, &collected.nodes))
}

#[test]
fn missing_names_the_page_collection_before_the_root() {
    let mut neither = document(&["a"]);
    neither.objects.remove(&(1, 0));
    neither.objects.remove(&(2, 0));
    assert_eq!(candidates_of(neither), Some(MergeError::MissingPageCollection));
    let mut no_collection = document(&["a"]);
    no_collection.objects.remove(&(2, 0));
    assert_eq!(candidates_of(no_collection), Some(MergeError::MissingPageCollection));
    let mut no_root = document(&["a"]);
    no_root.objects.remove(&(1, 0));
    assert_eq!(candidates_of(no_root), Some(MergeError::MissingRoot));
    assert_eq!(candidates_of(document(&["a"])), None);
}
