use lopdf::{Bookmark as Marker, Dictionary, Document, Object, ObjectId};
use pdf_join::bookmark::Bookmark;
use pdf_join::rebuild::{can_finish, can_record, finish, rebuild, refer_to_outline};

fn name(text: &str) -> Object {
    Object::Name(text.as_bytes().to_vec())
}

fn typed(kind: &str) -> Dictionary {
    let mut entries = Dictionary::new();
    entries.set("Type", name(kind));
    entries
}

fn reference_at(dict: &Dictionary, key: &[u8]) -> ObjectId {
    dict.get(key).unwrap().as_reference().unwrap()
}

/// A graph rebuilt around the root 7 and the collection 2, with the pages
/// `first` and `second` in that order and a bookmark to `first`.
fn rebuilt_with(first: ObjectId, second: ObjectId) -> Document {
    let mut out = Document::with_version("1.5");
    out.objects.insert((9, 0), Object::Integer(1));
    let mut root = typed("Catalog");
    root.set("Outlines", Object::Reference((40, 0)));
    root.set("Pages", Object::Reference((41, 0)));
    let mut collection = typed("Pages");
    collection.set("Count", Object::Integer(99));
    let mut stale = typed("Page");
    stale.set("Parent", Object::Reference((42, 0)));
    let pages = vec![(first, stale), (second, typed("Page"))];
    let bookmarks = vec![Bookmark {
        title: "Page_1".to_string(),
        color: (0, 0, 1),
        level: 0,
        target: first,
    }];
    rebuild(&mut out, ((7, 0), root), ((2, 0), collection), &pages, &bookmarks);
    out
}

fn rebuilt() -> Document {
    rebuilt_with((5, 0), (3, 0))
}

#[test]
fn rebuild_hangs_the_pages_below_the_collection() {
    let out = rebuilt();
    for id in [(5, 0), (3, 0)] {
        let page = out.objects[&id].as_dict().unwrap();
        assert_eq!(reference_at(page, b"Parent"), (2, 0));
        assert!(page.type_is(b"Page"));
    }
}

#[test]
fn rebuild_gives_the_collection_its_count_and_children() {
    let out = rebuilt();
    let collection = out.objects[&(2, 0)].as_dict().unwrap();
    assert_eq!(collection.get(b"Count").unwrap(), &Object::Integer(2));
    assert_eq!(
        collection.get(b"Kids").unwrap(),
        &Object::Array(vec![Object::Reference((5, 0)), Object::Reference((3, 0))])
    );
    assert!(collection.type_is(b"Pages"));
}

#[test]
fn rebuild_points_the_root_at_the_collection_and_drops_its_outline() {
    let out = rebuilt();
    let root = out.objects[&(7, 0)].as_dict().unwrap();
    assert_eq!(reference_at(root, b"Pages"), (2, 0));
    assert!(!root.has(b"Outlines"));
    assert_eq!(reference_at(&out.trailer, b"Root"), (7, 0));
}

#[test]
fn rebuild_counts_the_nodes_and_records_the_bookmarks() {
    let out = rebuilt();
    assert_eq!(out.objects.len(), 5);
    assert_eq!(out.max_id, 5);
    assert_eq!(out.bookmarks, vec![1]);
    let recorded = &out.bookmark_table[&1];
    assert_eq!(recorded.title, "Page_1");
    assert_eq!(recorded.color, [0.0, 0.0, 1.0]);
    assert_eq!(recorded.format, 0);
    assert_eq!(recorded.page, (5, 0));
}

#[test]
fn finish_compacts_and_builds_the_outline() {
    let mut out = rebuilt_with((3, 0), (5, 0));
    finish(&mut out);
    let numbers: Vec<u32> = out.objects.keys().map(|id| id.0).collect();
    assert_eq!(numbers, vec![1, 2, 3, 4, 5, 6, 7, 8]);
    let root_id = reference_at(&out.trailer, b"Root");
    let root = out.objects[&root_id].as_dict().unwrap();
    assert!(root.type_is(b"Catalog"));
    let outline = out.objects[&reference_at(root, b"Outlines")].as_dict().unwrap();
    assert_eq!(outline.get(b"Count").unwrap(), &Object::Integer(1));
    let entry = out.objects[&reference_at(outline, b"First")].as_dict().unwrap();
    assert_eq!(entry.get(b"Title").unwrap().as_str().unwrap(), b"Page_1");
    let action = out.objects[&reference_at(entry, b"A")].as_dict().unwrap();
    let target = action.get(b"D").unwrap().as_array().unwrap()[0].as_reference().unwrap();
    let collection = out.objects[&reference_at(root, b"Pages")].as_dict().unwrap();
    let kids = collection.get(b"Kids").unwrap().as_array().unwrap();
    assert_eq!(target, kids[0].as_reference().unwrap());
    assert!(out.objects[&target].as_dict().unwrap().type_is(b"Page"));
}

#[test]
fn finish_without_bookmarks_builds_no_outline() {
    let mut out = Document::with_version("1.5");
    let mut root = typed("Catalog");
    root.set("Pages", Object::Reference((5, 0)));
    out.objects.insert((9, 0), Object::Dictionary(root));
    out.objects.insert((5, 0), Object::Dictionary(typed("Pages")));
    out.trailer.set("Root", Object::Reference((9, 0)));
    out.max_id = 2;
    finish(&mut out);
    let keys: Vec<ObjectId> = out.objects.keys().copied().collect();
    assert_eq!(keys, vec![(1, 0), (2, 0)]);
    let root = out.catalog().unwrap();
    assert!(!root.has(b"Outlines"));
    assert_eq!(reference_at(root, b"Pages"), (1, 0));
}

#[test]
fn finish_gives_a_bookmark_without_target_that_of_its_child() {
    let mut out = rebuilt_with((3, 0), (5, 0));
    let parent = out.add_bookmark(Marker::new("Part".to_string(), [0.0, 0.0, 0.0], 0, (0, 0)), None);
    out.add_bookmark(Marker::new("Inner".to_string(), [0.0, 0.0, 0.0], 0, (3, 0)), Some(parent));
    finish(&mut out);
    let part = &out.bookmark_table[&parent];
    assert_ne!(part.page, (0, 0));
    assert!(out.objects[&part.page].as_dict().unwrap().type_is(b"Page"));
}

#[test]
fn can_finish_looks_at_the_counters() {
    let mut out = rebuilt();
    assert!(can_finish(&out));
    out.max_bookmark_id = 0x4000_0000;
    assert!(!can_finish(&out));
    out.max_bookmark_id = 0x3fff_ffff;
    assert!(can_finish(&out));
}

#[test]
fn can_record_leaves_room_for_the_counter() {
    let mut out = rebuilt();
    assert!(can_record(&out, 10));
    out.max_bookmark_id = u32::MAX - 1;
    assert!(can_record(&out, 1));
    assert!(!can_record(&out, 2));
}

#[test]
fn refer_to_outline_writes_the_reference_into_the_root() {
    let mut out = rebuilt();
    refer_to_outline(&mut out, (77, 0));
    let root = out.objects[&(7, 0)].as_dict().unwrap();
    assert_eq!(reference_at(root, b"Outlines"), (77, 0));
    assert_eq!(reference_at(root, b"Pages"), (2, 0));
    assert_eq!(out.objects.len(), 5);
}

#[test]
fn refer_to_outline_without_a_root_changes_nothing() {
    let mut out = rebuilt();
    out.trailer.remove(b"Root");
    let before = out.objects.clone();
    refer_to_outline(&mut out, (77, 0));
    assert_eq!(out.objects, before);
    out.trailer.set("Root", Object::Reference((9, 0)));
    refer_to_outline(&mut out, (77, 0));
    assert_eq!(out.objects, before);
}
