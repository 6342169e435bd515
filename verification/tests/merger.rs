use lopdf::{Dictionary, Document, Object, ObjectId, Stream};
use pdf_join::merger::{merge_nodes, unite};
use pdf_join::role::{classify, classify_entries, Role};

fn name(text: &str) -> Object {
    Object::Name(text.as_bytes().to_vec())
}

fn typed(kind: &str) -> Dictionary {
    let mut entries = Dictionary::new();
    entries.set("Type", name(kind));
    entries
}

#[test]
fn classify_knows_the_five_kinds() {
    assert_eq!(classify(&Object::Dictionary(typed("Catalog"))), Role::Root);
    assert_eq!(classify(&Object::Dictionary(typed("Pages"))), Role::PageCollection);
    assert_eq!(classify(&Object::Dictionary(typed("Page"))), Role::Page);
    assert_eq!(classify(&Object::Dictionary(typed("Outlines"))), Role::OutlineRoot);
    assert_eq!(classify(&Object::Dictionary(typed("Outline"))), Role::OutlineEntry);
}

#[test]
fn classify_takes_everything_else_as_other() {
    assert_eq!(classify(&Object::Dictionary(typed("Font"))), Role::Other);
    assert_eq!(classify(&Object::Dictionary(typed("page"))), Role::Other);
    assert_eq!(classify(&Object::Dictionary(Dictionary::new())), Role::Other);
    assert_eq!(classify(&Object::Null), Role::Other);
    assert_eq!(classify(&Object::Integer(3)), Role::Other);
    assert_eq!(classify(&name("Catalog")), Role::Other);
    assert_eq!(classify(&Object::Reference((1, 0))), Role::Other);
    let mut text_typed = Dictionary::new();
    text_typed.set("Type", Object::string_literal("Catalog"));
    assert_eq!(classify(&Object::Dictionary(text_typed)), Role::Other);
}

#[test]
fn classify_takes_a_stream_as_other_whatever_its_type() {
    let stream = Stream::new(typed("Page"), b"q".to_vec());
    assert_eq!(classify(&Object::Stream(stream)), Role::Other);
}

#[test]
fn classify_entries_reads_the_type() {
    assert_eq!(classify_entries(&typed("Pages")), Role::PageCollection);
    assert_eq!(classify_entries(&Dictionary::new()), Role::Other);
}

#[test]
fn unite_keeps_the_first_on_a_conflict() {
    let mut first = Dictionary::new();
    first.set("X", Object::Integer(1));
    first.set("A", Object::Integer(5));
    let mut later = Dictionary::new();
    later.set("X", Object::Integer(2));
    later.set("B", name("b"));
    unite(&mut first, &later);
    assert_eq!(first.len(), 3);
    assert_eq!(first.get(b"X").unwrap().as_i64().unwrap(), 1);
    assert_eq!(first.get(b"A").unwrap().as_i64().unwrap(), 5);
    assert_eq!(first.get(b"B").unwrap().as_name().unwrap(), b"b");
}

#[test]
fn unite_with_nothing_changes_nothing() {
    let mut first = Dictionary::new();
    first.set("X", Object::Integer(1));
    unite(&mut first, &Dictionary::new());
    assert_eq!(first.len(), 1);
    let mut empty = Dictionary::new();
    unite(&mut empty, &first);
    assert_eq!(empty, first);
}

#[test]
fn merge_nodes_chooses_candidates_and_copies_the_rest() {
    let mut second_pages = typed("Pages");
    second_pages.set("X", Object::Integer(2));
    second_pages.set("Y", Object::Integer(3));
    let mut first_pages = typed("Pages");
    first_pages.set("X", Object::Integer(1));
    let mut first_root = typed("Catalog");
    first_root.set("Lang", name("en"));
    let nodes: Vec<(ObjectId, Object)> = vec![
        ((1, 0), Object::Integer(7)),
        ((2, 0), Object::Dictionary(first_root)),
        ((3, 0), Object::Dictionary(first_pages)),
        ((4, 0), Object::Dictionary(typed("Page"))),
        ((5, 0), Object::Dictionary(typed("Outlines"))),
        ((6, 0), Object::Dictionary(typed("Outline"))),
        ((7, 0), Object::Dictionary(typed("Catalog"))),
        ((8, 0), Object::Dictionary(second_pages)),
        ((9, 0), Object::Dictionary(typed("Font"))),
    ];
    let mut out = Document::with_version("1.5");
    let found = merge_nodes(&mut out, &nodes);

    let (root_id, root) = found.root.unwrap();
    assert_eq!(root_id, (2, 0));
    assert_eq!(root.get(b"Lang").unwrap().as_name().unwrap(), b"en");

    let (collection_id, collection) = found.collection.unwrap();
    assert_eq!(collection_id, (3, 0));
    assert_eq!(collection.len(), 3);
    assert_eq!(collection.get(b"X").unwrap().as_i64().unwrap(), 1);
    assert_eq!(collection.get(b"Y").unwrap().as_i64().unwrap(), 3);

    let copied: Vec<ObjectId> = out.objects.keys().copied().collect();
    assert_eq!(copied, vec![(1, 0), (9, 0)]);
    assert_eq!(out.objects[&(1, 0)], Object::Integer(7));
    assert_eq!(out.objects[&(9, 0)], Object::Dictionary(typed("Font")));
}

#[test]
fn merge_nodes_of_nothing_finds_nothing() {
    let mut out = Document::with_version("1.5");
    let found = merge_nodes(&mut out, &Vec::new());
    assert!(found.root.is_none());
    assert!(found.collection.is_none());
    assert!(out.objects.is_empty());
}
