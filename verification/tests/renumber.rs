use lopdf::{Dictionary, Document, Object, ObjectId};
use pdf_join::renumber::{
    collect, drop_bookmarks, fits, node_count, nodes_of, pages_of, renumber, source_marker,
};
use pdf_join::text::page_title;

fn name(text: &str) -> Object {
    Object::Name(text.as_bytes().to_vec())
}

fn typed(kind: &str) -> Dictionary {
    let mut entries = Dictionary::new();
    entries.set("Type", name(kind));
    entries
}

/// A document whose catalog is object 10, whose page collection is object
/// 20, and whose pages are the objects `numbers`, in that order.
fn source(numbers: &[u32]) -> Document {
    let mut doc = Document::with_version("1.5");
    let mut kids = Vec::new();
    for number in numbers {
        let mut page = typed("Page");
        page.set("Parent", Object::Reference((20, 0)));
        doc.objects.insert((*number, 0), Object::Dictionary(page));
        kids.push(Object::Reference((*number, 0)));
    }
    let mut pages = typed("Pages");
    pages.set("Count", Object::Integer(kids.len() as i64));
    pages.set("Kids", Object::Array(kids));
    doc.objects.insert((20, 0), Object::Dictionary(pages));
    let mut catalog = typed("Catalog");
    catalog.set("Pages", Object::Reference((20, 0)));
    doc.objects.insert((10, 0), Object::Dictionary(catalog));
    doc.trailer.set("Root", Object::Reference((10, 0)));
    doc.max_id = 40;
    doc
}

#[test]
fn renumber_starts_at_the_offset_and_reports_the_greatest_number() {
    let mut doc = source(&[30, 31]);
    let top = renumber(&mut doc, 5);
    assert_eq!(top, 8);
    let keys: Vec<ObjectId> = doc.objects.keys().copied().collect();
    assert_eq!(keys, vec![(5, 0), (6, 0), (7, 0), (8, 0)]);
    assert_eq!(doc.max_id, 8);
    let root = doc.catalog().unwrap();
    assert!(root.type_is(b"Catalog"));
    let pages: Vec<ObjectId> = doc.get_pages().into_values().collect();
    assert_eq!(pages, vec![(7, 0), (8, 0)]);
}

#[test]
fn renumber_of_an_empty_document_gives_no_number() {
    let mut doc = Document::with_version("1.5");
    assert_eq!(renumber(&mut doc, 4), 3);
    assert!(doc.objects.is_empty());
}

#[test]
fn nodes_of_walks_in_ascending_order() {
    let doc = source(&[30, 5]);
    let nodes = nodes_of(&doc);
    let ids: Vec<ObjectId> = nodes.iter().map(|node| node.0).collect();
    assert_eq!(ids, vec![(5, 0), (10, 0), (20, 0), (30, 0)]);
    assert_eq!(nodes[1].1, doc.objects[&(10, 0)]);
    assert_eq!(nodes[3].1, doc.objects[&(30, 0)]);
}

#[test]
fn pages_of_lists_the_pages_in_page_order() {
    let doc = source(&[30, 5, 17]);
    let pages = pages_of(&doc);
    let ids: Vec<ObjectId> = pages.iter().map(|page| page.0).collect();
    assert_eq!(ids, vec![(30, 0), (5, 0), (17, 0)]);
    assert_eq!(&pages[1].1, doc.objects[&(5, 0)].as_dict().unwrap());
}

#[test]
fn pages_of_follows_a_reference_to_the_page() {
    let mut doc = source(&[30]);
    let page = doc.objects.insert((30, 0), Object::Reference((31, 0))).unwrap();
    doc.objects.insert((31, 0), page.clone());
    let pages = pages_of(&doc);
    assert_eq!(pages.len(), 1);
    assert_eq!(pages[0].0, (30, 0));
    assert_eq!(&pages[0].1, page.as_dict().unwrap());
}

#[test]
fn pages_of_a_document_without_root_is_empty() {
    let mut doc = source(&[30]);
    doc.trailer.remove(b"Root");
    assert!(pages_of(&doc).is_empty());
}

#[test]
fn collect_gives_each_source_its_own_range() {
    let collected = collect(vec![source(&[30, 31]), source(&[]), source(&[35])]);
    let ids: Vec<u32> = collected.nodes.iter().map(|node| node.0 .0).collect();
    assert_eq!(ids, vec![1, 2, 3, 4, 5, 6, 7, 8, 9]);
    let pages: Vec<ObjectId> = collected.pages.iter().map(|page| page.0).collect();
    assert_eq!(pages, vec![(3, 0), (4, 0), (9, 0)]);
}

#[test]
fn collect_records_one_bookmark_for_each_source_with_pages() {
    let collected = collect(vec![source(&[30, 31]), source(&[]), source(&[35])]);
    assert_eq!(collected.bookmarks.len(), 2);
    assert_eq!(collected.bookmarks[0].title, "Page_1");
    assert_eq!(collected.bookmarks[0].target, (3, 0));
    assert_eq!(collected.bookmarks[1].title, "Page_2");
    assert_eq!(collected.bookmarks[1].target, (9, 0));
    for bookmark in &collected.bookmarks {
        assert_eq!(bookmark.color, (0, 0, 1));
        assert_eq!(bookmark.level, 0);
    }
}

#[test]
fn collect_of_nothing_is_empty() {
    let collected = collect(Vec::new());
    assert!(collected.nodes.is_empty());
    assert!(collected.pages.is_empty());
    assert!(collected.bookmarks.is_empty());
}

#[test]
fn page_title_numbers_in_decimal() {
    assert_eq!(page_title(1), "Page_1");
    assert_eq!(page_title(12), "Page_12");
    assert_eq!(page_title(0), "Page_0");
    assert_eq!(page_title(4294967295), "Page_4294967295");
}

#[test]
fn node_count_counts_the_nodes() {
    assert_eq!(node_count(&source(&[30, 31])), 4);
    assert_eq!(node_count(&Document::with_version("1.5")), 0);
}

#[test]
fn fits_takes_ordinary_sources() {
    assert!(fits(&Vec::new()));
    assert!(fits(&vec![source(&[30]), source(&[])]));
}

#[test]
fn drop_bookmarks_leaves_none() {
    let mut doc = source(&[30]);
    doc.add_bookmark(lopdf::Bookmark::new("a".to_string(), [0.5, 0.0, 0.0], 0, (30, 0)), None);
    doc.bookmarks.push(7);
    drop_bookmarks(&mut doc);
    assert!(doc.bookmarks.is_empty());
    assert!(doc.bookmark_table.is_empty());
    assert_eq!(doc.max_bookmark_id, 0);
    assert_eq!(node_count(&doc), 3);
}

#[test]
fn collect_takes_sources_whose_bookmarks_are_broken() {
    let mut broken = source(&[30]);
    broken.bookmarks.push(1);
    broken.max_bookmark_id = 9;
    let collected = collect(vec![broken, source(&[31])]);
    assert_eq!(collected.bookmarks.len(), 2);
    assert_eq!(collected.bookmarks[0].target, (3, 0));
    assert_eq!(collected.bookmarks[1].target, (6, 0));
}

#[test]
fn source_marker_leads_to_the_first_page() {
    let pages = vec![((7, 0), typed("Page")), ((5, 0), typed("Page"))];
    let marker = source_marker(3, &pages).unwrap();
    assert_eq!(marker.title, "Page_3");
    assert_eq!(marker.color, (0, 0, 1));
    assert_eq!(marker.level, 0);
    assert_eq!(marker.target, (7, 0));
}

#[test]
fn source_marker_of_no_pages_is_none() {
    assert!(source_marker(1, &Vec::new()).is_none());
}
