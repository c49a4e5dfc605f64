use lopdf::{Dictionary, Document, Object, ObjectId};
use rustypdf::collector::{collect_pages, find_page_tree_root};
use rustypdf::error::{PdfError, ReferenceFault, ValidationFault};
use rustypdf::pdf::{
    delete_pages, insert_pages, merge_pdfs, reorder_pages, rotate_pdf, split_pdf, turn_page,
};
use rustypdf::rebuilder::{find_page_tree_node, rebuild, reference_objects, resolve, set_entry};

/// A document of `count` pages. Page `k` carries the entry `Mark` with the
/// value `mark + k`. The ids are spread out so that renumbering has work to
/// do: catalog 10, page tree 20, pages 31, 32, ...
fn document(count: u32, mark: i64) -> Document {
    let mut doc = Document::with_version("1.5");
    let mut kids = Vec::new();
    for k in 1..=count {
        let mut page = Dictionary::new();
        page.set("Type", Object::Name(b"Page".to_vec()));
        page.set("Parent", Object::Reference((20, 0)));
        page.set("Mark", Object::Integer(mark + k as i64));
        doc.objects.insert((30 + k, 0), Object::Dictionary(page));
        kids.push(Object::Reference((30 + k, 0)));
    }
    let mut pages = Dictionary::new();
    pages.set("Type", Object::Name(b"Pages".to_vec()));
    pages.set("Count", Object::Integer(count as i64));
    pages.set("Kids", Object::Array(kids));
    doc.objects.insert((20, 0), Object::Dictionary(pages));
    let mut catalog = Dictionary::new();
    catalog.set("Type", Object::Name(b"Catalog".to_vec()));
    catalog.set("Pages", Object::Reference((20, 0)));
    doc.objects.insert((10, 0), Object::Dictionary(catalog));
    doc.trailer.set("Root", Object::Reference((10, 0)));
    doc.max_id = 30 + count;
    doc
}

fn mark(doc: &Document, page: ObjectId) -> i64 {
    doc.get_dictionary(page).unwrap().get(b"Mark").unwrap().as_i64().unwrap()
}

/// The marks of the pages, in the order in which the document shows them.
fn marks(doc: &Document) -> Vec<i64> {
    doc.get_pages().values().map(|page| mark(doc, *page)).collect()
}

fn page_tree(doc: &Document) -> (ObjectId, &Dictionary) {
    let node = doc.catalog().unwrap().get(b"Pages").unwrap().as_reference().unwrap();
    (node, doc.get_dictionary(node).unwrap())
}

/// Count equals the number of children, and every child names the node as
/// its parent.
fn assert_page_tree_holds(doc: &Document) {
    let (node, tree) = page_tree(doc);
    let kids = tree.get(b"Kids").unwrap().as_array().unwrap();
    assert_eq!(tree.get(b"Count").unwrap().as_i64().unwrap(), kids.len() as i64);
    assert_eq!(tree.get(b"Type").unwrap().as_name().unwrap(), b"Pages");
    for kid in kids {
        let page = doc.get_dictionary(kid.as_reference().unwrap()).unwrap();
        assert_eq!(page.get(b"Parent").unwrap().as_reference().unwrap(), node);
    }
}

#[test]
fn collect_pages_lists_the_pages_in_order() {
    let doc = document(3, 100);
    assert_eq!(collect_pages(&doc), Ok(vec![(31, 0), (32, 0), (33, 0)]));
    assert_eq!(find_page_tree_root(&doc), Ok(((10, 0), (20, 0))));
}

#[test]
fn collect_pages_needs_a_catalog() {
    let mut doc = document(2, 0);
    doc.trailer.remove(b"Root");
    assert_eq!(collect_pages(&doc), Err(PdfError::Reference(ReferenceFault::MissingCatalog)));
    doc.trailer.set("Root", Object::Integer(10));
    assert_eq!(collect_pages(&doc), Err(PdfError::Reference(ReferenceFault::MissingCatalog)));
    doc.trailer.set("Root", Object::Reference((77, 0)));
    assert_eq!(collect_pages(&doc), Err(PdfError::Reference(ReferenceFault::InvalidCatalog)));
    doc.objects.insert((77, 0), Object::Integer(1));
    assert_eq!(collect_pages(&doc), Err(PdfError::Reference(ReferenceFault::InvalidCatalog)));
}

#[test]
fn collect_pages_needs_a_page_tree() {
    let mut doc = document(2, 0);
    doc.get_dictionary_mut((10, 0)).unwrap().remove(b"Pages");
    assert_eq!(collect_pages(&doc), Err(PdfError::Reference(ReferenceFault::MissingPageTree)));
    doc.get_dictionary_mut((10, 0)).unwrap().set("Pages", Object::Integer(20));
    assert_eq!(collect_pages(&doc), Err(PdfError::Reference(ReferenceFault::MissingPageTree)));
}

#[test]
fn the_catalog_may_be_reached_through_a_reference() {
    let mut doc = document(2, 0);
    doc.objects.insert((11, 0), Object::Reference((10, 0)));
    doc.trailer.set("Root", Object::Reference((11, 0)));
    assert_eq!(find_page_tree_node(&doc, (11, 0)), Ok((20, 0)));
    assert_eq!(find_page_tree_root(&doc), Ok(((11, 0), (20, 0))));
    set_entry(&mut doc, (11, 0), "Lang", Object::Integer(7));
    assert_eq!(doc.objects.get(&(11, 0)), Some(&Object::Reference((10, 0))));
    assert_eq!(doc.get_dictionary((10, 0)).unwrap().get(b"Lang").unwrap().as_i64().unwrap(), 7);
}

#[test]
fn set_entry_leaves_other_objects_alone() {
    let mut doc = document(2, 0);
    doc.objects.insert((50, 0), Object::Integer(5));
    let before = doc.clone();
    set_entry(&mut doc, (50, 0), "Parent", Object::Integer(1));
    set_entry(&mut doc, (99, 0), "Parent", Object::Integer(1));
    assert_eq!(doc.objects, before.objects);
    set_entry(&mut doc, (31, 0), "Mark", Object::Integer(9));
    assert_eq!(mark(&doc, (31, 0)), 9);
    assert_eq!(mark(&doc, (32, 0)), 2);
    assert_eq!(doc.objects.len(), before.objects.len());
}

#[test]
fn reference_objects_keep_the_order() {
    let kids = reference_objects(&vec![(3, 0), (1, 2)]);
    assert_eq!(kids, vec![Object::Reference((3, 0)), Object::Reference((1, 2))]);
    assert_eq!(reference_objects(&vec![]), Vec::<Object>::new());
}

#[test]
fn rebuild_writes_children_count_and_parents() {
    let mut doc = document(3, 0);
    assert_eq!(rebuild(&mut doc, (10, 0), &vec![(33, 0), (31, 0)]), Ok(()));
    let (node, tree) = page_tree(&doc);
    assert_eq!(node, (20, 0));
    assert_eq!(
        tree.get(b"Kids").unwrap().as_array().unwrap(),
        &vec![Object::Reference((33, 0)), Object::Reference((31, 0))]
    );
    assert_eq!(tree.get(b"Count").unwrap().as_i64().unwrap(), 2);
    assert_eq!(tree.len(), 3);
    assert_page_tree_holds(&doc);
    assert_eq!(marks(&doc), vec![3, 1]);
    // the page left out is still there
    assert_eq!(mark(&doc, (32, 0)), 2);
    assert_eq!(doc.max_id, 33);
}

#[test]
fn rebuild_keeps_the_other_entries_of_the_node() {
    let mut doc = document(2, 0);
    let mut resources = Dictionary::new();
    resources.set("Font", Object::Reference((70, 0)));
    {
        let node = doc.get_dictionary_mut((20, 0)).unwrap();
        node.set("Resources", Object::Dictionary(resources.clone()));
        node.set(
            "MediaBox",
            Object::Array(vec![
                Object::Integer(0),
                Object::Integer(0),
                Object::Integer(10),
                Object::Integer(20),
            ]),
        );
        node.set("Type", Object::Name(b"Wrong".to_vec()));
    }
    assert_eq!(rebuild(&mut doc, (10, 0), &vec![(32, 0)]), Ok(()));
    let node = doc.get_dictionary((20, 0)).unwrap();
    assert_eq!(node.len(), 5);
    assert_eq!(node.get(b"Resources").unwrap(), &Object::Dictionary(resources));
    assert_eq!(node.get(b"MediaBox").unwrap().as_array().unwrap().len(), 4);
    assert_eq!(node.get(b"Type").unwrap(), &Object::Name(b"Pages".to_vec()));
    assert_eq!(node.get(b"Count").unwrap(), &Object::Integer(1));
    assert_eq!(node.get(b"Kids").unwrap(), &Object::Array(vec![Object::Reference((32, 0))]));
}

#[test]
fn rebuild_makes_a_node_where_there_is_none() {
    let mut doc = document(1, 0);
    doc.get_dictionary_mut((10, 0)).unwrap().set("Pages", Object::Reference((80, 0)));
    assert_eq!(rebuild(&mut doc, (10, 0), &vec![(31, 0)]), Ok(()));
    let node = doc.get_dictionary((80, 0)).unwrap();
    assert_eq!(node.len(), 3);
    assert_eq!(node.get(b"Count").unwrap(), &Object::Integer(1));
    doc.objects.insert((81, 0), Object::Integer(4));
    doc.get_dictionary_mut((10, 0)).unwrap().set("Pages", Object::Reference((81, 0)));
    assert_eq!(rebuild(&mut doc, (10, 0), &vec![(31, 0)]), Ok(()));
    assert_eq!(doc.get_dictionary((81, 0)).unwrap().len(), 3);
    assert_page_tree_holds(&doc);
}

#[test]
fn rebuild_flattens_a_nested_page_tree() {
    let mut doc = document(2, 0);
    // an inner node (40) that holds page 2
    let mut inner = Dictionary::new();
    inner.set("Type", Object::Name(b"Pages".to_vec()));
    inner.set("Count", Object::Integer(1));
    inner.set("Parent", Object::Reference((20, 0)));
    inner.set("Kids", Object::Array(vec![Object::Reference((32, 0))]));
    doc.objects.insert((40, 0), Object::Dictionary(inner));
    doc.get_dictionary_mut((32, 0)).unwrap().set("Parent", Object::Reference((40, 0)));
    doc.get_dictionary_mut((20, 0)).unwrap().set(
        "Kids",
        Object::Array(vec![Object::Reference((31, 0)), Object::Reference((40, 0))]),
    );
    let pages = collect_pages(&doc).unwrap();
    assert_eq!(pages, vec![(31, 0), (32, 0)]);
    assert_eq!(rebuild(&mut doc, (10, 0), &pages), Ok(()));
    assert_page_tree_holds(&doc);
    let (_, tree) = page_tree(&doc);
    assert_eq!(
        tree.get(b"Kids").unwrap().as_array().unwrap(),
        &vec![Object::Reference((31, 0)), Object::Reference((32, 0))]
    );
    assert_eq!(
        doc.get_dictionary((32, 0)).unwrap().get(b"Parent").unwrap().as_reference().unwrap(),
        (20, 0)
    );
    assert!(doc.objects.contains_key(&(40, 0)));
}

#[test]
fn rebuild_fails_without_touching_the_document() {
    let mut doc = document(2, 0);
    let before = doc.clone();
    assert_eq!(
        rebuild(&mut doc, (99, 0), &vec![(31, 0)]),
        Err(PdfError::Reference(ReferenceFault::InvalidCatalog))
    );
    assert_eq!(
        rebuild(&mut doc, (31, 0), &vec![(31, 0)]),
        Err(PdfError::Reference(ReferenceFault::MissingPageTree))
    );
    assert_eq!(doc.objects, before.objects);
    assert_eq!(doc.trailer, before.trailer);
}

#[test]
fn merge_two_documents() {
    let first = document(2, 100);
    let second = document(3, 200);
    let merged = merge_pdfs(&vec![first.clone(), second.clone()]).unwrap();
    assert_eq!(marks(&merged), vec![101, 102, 201, 202, 203]);
    assert_eq!(merged.get_pages().len(), 5);
    assert_page_tree_holds(&merged);
    let (_, tree) = page_tree(&merged);
    assert_eq!(tree.get(b"Count").unwrap().as_i64().unwrap(), 5);
    // no id was used twice: every object of both documents is there
    assert_eq!(merged.objects.len(), first.objects.len() + second.objects.len());
    assert_eq!(merged.max_id as usize, merged.objects.len());
    assert_eq!(merged.version, "1.5");
    // the inputs are as they were
    assert_eq!(marks(&first), vec![101, 102]);
    assert_eq!(first.max_id, 32);
}

#[test]
fn merge_numbers_the_objects_from_one() {
    let merged = merge_pdfs(&vec![document(1, 0), document(1, 10), document(2, 20)]).unwrap();
    let numbers: Vec<u32> = merged.objects.keys().map(|id| id.0).collect();
    assert_eq!(numbers, (1..=10).collect::<Vec<u32>>());
    assert_eq!(marks(&merged), vec![1, 11, 21, 22]);
    // the catalog is that of the first document
    let root = merged.trailer.get(b"Root").unwrap().as_reference().unwrap();
    assert!(root.0 <= 3);
    assert_eq!(merged.trailer.len(), 1);
}

#[test]
fn merge_one_document() {
    let merged = merge_pdfs(&vec![document(2, 0)]).unwrap();
    assert_eq!(marks(&merged), vec![1, 2]);
    assert_page_tree_holds(&merged);
}

#[test]
fn merge_nothing_finds_no_catalog() {
    assert_eq!(
        merge_pdfs(&vec![]).err(),
        Some(PdfError::Reference(ReferenceFault::MissingCatalog))
    );
}

#[test]
fn merge_fails_on_a_document_without_catalog() {
    let mut broken = document(1, 0);
    broken.trailer.remove(b"Root");
    assert_eq!(
        merge_pdfs(&vec![document(1, 0), broken]).err(),
        Some(PdfError::Reference(ReferenceFault::MissingCatalog))
    );
}

#[test]
fn split_gives_one_document_for_each_page() {
    let doc = document(3, 0);
    let outputs = split_pdf(&doc).unwrap();
    assert_eq!(outputs.len(), 3);
    for (i, single) in outputs.iter().enumerate() {
        assert_eq!(marks(single), vec![i as i64 + 1]);
        assert_page_tree_holds(single);
        let (node, tree) = page_tree(single);
        assert_eq!(node, (34, 0));
        assert_eq!(tree.get(b"Count").unwrap().as_i64().unwrap(), 1);
        assert_eq!(single.max_id, 34);
        // the whole graph of the document, and the new node
        assert_eq!(single.objects.len(), doc.objects.len() + 1);
        for (id, object) in doc.objects.iter() {
            if *id != (10, 0) && *id != (30 + i as u32 + 1, 0) {
                assert_eq!(single.objects.get(id), Some(object));
            }
        }
        // the page is as it was, but for its parent
        let page = single.get_dictionary((31 + i as u32, 0)).unwrap();
        assert_eq!(page.len(), 3);
        assert_eq!(page.get(b"Type").unwrap().as_name().unwrap(), b"Page");
    }
    assert_eq!(marks(&doc), vec![1, 2, 3]);
}

#[test]
fn split_a_document_without_pages() {
    assert_eq!(split_pdf(&document(0, 0)).unwrap().len(), 0);
}

#[test]
fn split_needs_a_free_object_number() {
    let mut doc = document(1, 0);
    doc.max_id = u32::MAX;
    assert_eq!(
        split_pdf(&doc).err(),
        Some(PdfError::Validation(ValidationFault::CapacityExceeded))
    );
}

#[test]
fn split_needs_a_catalog() {
    let mut doc = document(1, 0);
    doc.objects.remove(&(10, 0));
    assert_eq!(
        split_pdf(&doc).err(),
        Some(PdfError::Reference(ReferenceFault::InvalidCatalog))
    );
}

#[test]
fn delete_one_page() {
    for k in 1..=4u32 {
        let mut doc = document(4, 0);
        assert_eq!(delete_pages(&mut doc, &vec![k]), Ok(()));
        let left: Vec<i64> = (1..=4).filter(|n| *n != k as i64).collect();
        assert_eq!(marks(&doc), left);
        assert_page_tree_holds(&doc);
        // the deleted page is orphaned, not removed
        assert_eq!(doc.objects.len(), 6);
    }
}

#[test]
fn delete_all_pages_fails() {
    let mut doc = document(3, 0);
    let before = doc.clone();
    assert_eq!(
        delete_pages(&mut doc, &vec![1, 2, 3]),
        Err(PdfError::Validation(ValidationFault::NoPagesLeft))
    );
    assert_eq!(doc.objects, before.objects);
}

#[test]
fn delete_without_catalog_fails() {
    let mut doc = document(3, 0);
    doc.objects.insert((10, 0), Object::Null);
    assert_eq!(
        delete_pages(&mut doc, &vec![1]),
        Err(PdfError::Reference(ReferenceFault::InvalidCatalog))
    );
}

#[test]
fn reorder_pages_by_number() {
    let mut doc = document(3, 0);
    assert_eq!(reorder_pages(&mut doc, &vec![3, 1, 2]), Ok(()));
    assert_eq!(marks(&doc), vec![3, 1, 2]);
    assert_page_tree_holds(&doc);
}

#[test]
fn reorder_drops_unknown_pages() {
    let mut doc = document(3, 0);
    assert_eq!(reorder_pages(&mut doc, &vec![2, 9, 0, 1]), Ok(()));
    assert_eq!(marks(&doc), vec![2, 1]);
    let (_, tree) = page_tree(&doc);
    assert_eq!(tree.get(b"Count").unwrap().as_i64().unwrap(), 2);
}

#[test]
fn reorder_with_no_known_page_fails() {
    let mut doc = document(3, 0);
    let before = doc.clone();
    assert_eq!(
        reorder_pages(&mut doc, &vec![4, 0]),
        Err(PdfError::Validation(ValidationFault::InvalidPageOrder))
    );
    assert_eq!(
        reorder_pages(&mut doc, &vec![]),
        Err(PdfError::Validation(ValidationFault::InvalidPageOrder))
    );
    assert_eq!(doc.objects, before.objects);
    doc.trailer.remove(b"Root");
    assert_eq!(
        reorder_pages(&mut doc, &vec![1]),
        Err(PdfError::Reference(ReferenceFault::MissingCatalog))
    );
}

#[test]
fn insert_after_the_second_page() {
    let merged = insert_pages(&document(5, 100), &document(2, 200), 2).unwrap();
    assert_eq!(marks(&merged), vec![101, 102, 201, 202, 103, 104, 105]);
    assert_page_tree_holds(&merged);
    assert_eq!(merged.objects.len(), 7 + 4);
    assert_eq!(merged.max_id, 11);
}

#[test]
fn insert_at_the_ends() {
    let base = document(3, 100);
    let insertion = document(2, 200);
    assert_eq!(
        marks(&insert_pages(&base, &insertion, 0).unwrap()),
        vec![201, 202, 101, 102, 103]
    );
    assert_eq!(
        marks(&insert_pages(&base, &insertion, 3).unwrap()),
        vec![101, 102, 103, 201, 202]
    );
    assert_eq!(
        marks(&insert_pages(&base, &insertion, 50).unwrap()),
        vec![101, 102, 103, 201, 202]
    );
}

#[test]
fn insert_keeps_the_trailer_of_the_base() {
    let mut base = document(2, 100);
    base.objects.insert((50, 0), Object::Dictionary(Dictionary::new()));
    base.trailer.set("Info", Object::Reference((50, 0)));
    base.trailer.set("Size", Object::Integer(60));
    base.max_id = 50;
    let mut insertion = document(1, 200);
    insertion.trailer.set("Other", Object::Integer(1));
    let merged = insert_pages(&base, &insertion, 1).unwrap();
    assert_eq!(marks(&merged), vec![101, 201, 102]);
    assert_eq!(merged.trailer.len(), 3);
    assert_eq!(merged.trailer.get(b"Size").unwrap(), &Object::Integer(60));
    // the reference to the document information was renumbered with it
    let info = merged.trailer.get(b"Info").unwrap().as_reference().unwrap();
    assert_eq!(merged.objects.get(&info), Some(&Object::Dictionary(Dictionary::new())));
    let root = merged.trailer.get(b"Root").unwrap().as_reference().unwrap();
    assert_eq!(merged.get_dictionary(root).unwrap().get(b"Type").unwrap().as_name().unwrap(), b"Catalog");
    // the ids of the insertion lie above those of the base, below the highest number
    assert_eq!(merged.objects.len(), 5 + 3);
    let numbers: Vec<u32> = merged.objects.keys().map(|id| id.0).collect();
    assert_eq!(numbers, (1..=8).collect::<Vec<u32>>());
    assert_eq!(merged.max_id, 8);
    assert!(info.0 <= 5 && root.0 <= 5);
}

#[test]
fn insert_keeps_the_catalog_of_the_base() {
    let mut base = document(1, 100);
    base.get_dictionary_mut((10, 0)).unwrap().set("Lang", Object::Integer(1));
    let merged = insert_pages(&base, &document(1, 200), 1).unwrap();
    assert_eq!(merged.catalog().unwrap().get(b"Lang").unwrap().as_i64().unwrap(), 1);
    let mut broken = document(1, 0);
    broken.trailer.remove(b"Root");
    assert_eq!(
        insert_pages(&base, &broken, 1).err(),
        Some(PdfError::Reference(ReferenceFault::MissingCatalog))
    );
}

fn rotation(doc: &Document, page: ObjectId) -> Option<i64> {
    doc.get_dictionary(page).unwrap().get(b"Rotate").ok().map(|r| r.as_i64().unwrap())
}

#[test]
fn rotate_every_page() {
    let mut doc = document(3, 0);
    doc.get_dictionary_mut((32, 0)).unwrap().set("Rotate", Object::Integer(270));
    doc.get_dictionary_mut((33, 0)).unwrap().set("Rotate", Object::Name(b"x".to_vec()));
    assert_eq!(rotate_pdf(&mut doc, 180), Ok(()));
    assert_eq!(rotation(&doc, (31, 0)), Some(180));
    assert_eq!(rotation(&doc, (32, 0)), Some(90));
    assert_eq!(rotation(&doc, (33, 0)), Some(180));
    assert_eq!(marks(&doc), vec![1, 2, 3]);
    assert_eq!(doc.objects.len(), 5);
}

#[test]
fn rotate_twice_by_a_quarter_is_once_by_a_half() {
    let mut twice = document(2, 0);
    twice.get_dictionary_mut((32, 0)).unwrap().set("Rotate", Object::Integer(270));
    let mut once = twice.clone();
    rotate_pdf(&mut twice, 90).unwrap();
    rotate_pdf(&mut twice, 90).unwrap();
    rotate_pdf(&mut once, 180).unwrap();
    assert_eq!(twice.objects, once.objects);
    assert_eq!(rotation(&once, (32, 0)), Some(90));
}

#[test]
fn rotate_without_catalog_fails() {
    let mut doc = document(1, 0);
    doc.trailer.remove(b"Root");
    assert_eq!(rotate_pdf(&mut doc, 90), Err(PdfError::Reference(ReferenceFault::MissingCatalog)));
}

#[test]
fn turn_page_passes_over_what_is_no_dictionary() {
    let mut doc = document(1, 0);
    doc.objects.insert((50, 0), Object::Integer(5));
    let before = doc.clone();
    turn_page(&mut doc, (50, 0), 90);
    turn_page(&mut doc, (60, 0), 90);
    assert_eq!(doc.objects, before.objects);
    turn_page(&mut doc, (31, 0), -90);
    assert_eq!(rotation(&doc, (31, 0)), Some(270));
    turn_page(&mut doc, (31, 0), -360);
    assert_eq!(rotation(&doc, (31, 0)), Some(270));
}

/// A document in which the ids 1 to `hops` hold a reference to the next id
/// each, and the id behind them a dictionary.
fn chain(hops: u32) -> Document {
    let mut doc = Document::with_version("1.5");
    for k in 1..=hops {
        doc.objects.insert((k, 0), Object::Reference((k + 1, 0)));
    }
    doc.objects.insert((hops + 1, 0), Object::Dictionary(Dictionary::new()));
    doc
}

#[test]
fn a_lookup_follows_up_to_128_references() {
    assert_eq!(resolve(&chain(0), (1, 0)), Some((1, 0)));
    assert_eq!(resolve(&chain(1), (1, 0)), Some((2, 0)));
    assert_eq!(resolve(&chain(5), (3, 0)), Some((6, 0)));
    assert_eq!(resolve(&chain(128), (1, 0)), Some((129, 0)));
    assert_eq!(resolve(&chain(129), (1, 0)), None);
    assert_eq!(resolve(&chain(129), (2, 0)), Some((130, 0)));
    assert_eq!(resolve(&chain(300), (1, 0)), None);
}

#[test]
fn a_lookup_ends_where_a_reference_leads_nowhere() {
    let mut doc = chain(3);
    assert_eq!(resolve(&doc, (9, 0)), None);
    doc.objects.remove(&(4, 0));
    assert_eq!(resolve(&doc, (1, 0)), None);
    assert_eq!(resolve(&doc, (3, 0)), None);
    doc.objects.insert((3, 0), Object::Reference((3, 0)));
    assert_eq!(resolve(&doc, (3, 0)), None);
    assert_eq!(resolve(&doc, (1, 0)), None);
}

#[test]
fn a_page_behind_a_reference_gets_its_parent() {
    let mut doc = document(2, 0);
    // page 2 is listed under an id that holds a reference to it
    doc.objects.insert((35, 0), Object::Reference((32, 0)));
    assert_eq!(rebuild(&mut doc, (10, 0), &vec![(35, 0), (31, 0)]), Ok(()));
    assert_eq!(doc.objects.get(&(35, 0)), Some(&Object::Reference((32, 0))));
    let page = doc.get_dictionary((32, 0)).unwrap();
    assert_eq!(page.get(b"Parent").unwrap(), &Object::Reference((20, 0)));
    assert_eq!(page.get(b"Mark").unwrap(), &Object::Integer(2));
    assert_eq!(page.len(), 3);
    turn_page(&mut doc, (35, 0), 90);
    turn_page(&mut doc, (35, 0), 90);
    assert_eq!(rotation(&doc, (32, 0)), Some(180));
}
