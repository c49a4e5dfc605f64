//! The operations on documents in memory: merge, split, compact, rotate,
//! wrap an image, delete, reorder and insert pages, protect with a
//! password. Reading a document from a file and writing the result is the
//! caller's part.

use vstd::prelude::*;
use crate::collector::{collect_pages, find_page_tree_root, page_tree_root};
use crate::error::{PdfError, ReferenceFault, ValidationFault};
use crate::merger::{
    absorb_outcome, absorbed_all, all_below, extended_model, initial_state,
    lemma_below_is_disjoint, merge_graphs, merge_outcome, numbered_ids, GraphMerger, MergeState,
};
use crate::model::{key, reference_at, references, DocumentModel, Entries, ObjectId, Value};
use crate::pages::{
    insert_position, is_listed, keep_pages, kept_pages, law_delete_all_pages, law_delete_one_page,
    pages_from, reorder, reordered_pages, splice_pages, spliced_pages,
};
use crate::rebuilder::{
    law_rebuilt_node, law_rebuilt_parents, lemma_reparented, lemma_target_in_larger,
    lemma_target_reaches, lemma_with_entry, lemma_with_entry_target, no_reference_at, page_tree_node, rebuild,
    rebuild_outcome, rebuilt, resolve, set_entry, with_entry, with_node,
};
use crate::rotation::{law_turns_add_up, rotate_by, rotated};
use crate::single_page::{
    placement_content, placement_operations, single_page_document, single_page_model,
};
use crate::store::{
    as_dictionary, as_integer, clone_document, compress, compressed, decompress, decompressed,
    dictionary_get, dictionary_object, dictionary_remove, dictionary_set, document_model,
    document_pages, encoded_content, encrypt, encryption_state, error_text, integer_object,
    is_encoding_entry, new_object_id, object_at, prune, pruned, put_object, reencoded,
    reference_object, renumbered, same_but_streams, set_trailer, target, trailer,
};

verus! {

/// The document that `merge_pdfs` makes of `docs`, or why it fails.
pub open spec fn merge_document(docs: Seq<lopdf::Document>) -> Result<DocumentModel, PdfError> {
    match merge_outcome(docs) {
        Err(error) => Err(error),
        Ok(outcome) => rebuild_outcome(outcome.0, outcome.2, outcome.1),
    }
}

/// Merges documents into one: the object graphs are merged, and the page
/// tree of the first document's catalog is rebuilt to hold the pages of all
/// documents, in the order of the documents. Fails when there is no
/// document, when the object numbers do not suffice, or when a catalog or
/// page tree cannot be found.
pub fn merge_pdfs(docs: &Vec<lopdf::Document>) -> (merged: Result<lopdf::Document, PdfError>)
    ensures
        match merge_document(docs@) {
            Ok(model) => merged matches Ok(doc) && document_model(doc) == model,
            Err(error) => merged == Err::<lopdf::Document, PdfError>(error),
        },
        merged is Ok ==> forall|i: int, j: int|
            0 <= i < j < docs@.len() ==> all_below(
                #[trigger] numbered_ids(docs@, i),
                #[trigger] numbered_ids(docs@, j),
            ),
        merged is Ok ==> forall|i: int, j: int|
            0 <= i < j < docs@.len() ==> #[trigger] numbered_ids(docs@, i).disjoint(
                #[trigger] numbered_ids(docs@, j),
            ),
        merged matches Ok(doc) ==> forall|id: ObjectId|
            #[trigger] document_model(doc).objects.contains_key(id) ==> id.0 <= document_model(
                doc,
            ).max_id || Ok::<ObjectId, ReferenceFault>(id) == page_tree_node(
                merge_outcome(docs@)->Ok_0.0.objects,
                merge_outcome(docs@)->Ok_0.2,
            ),
{
    let graph = match merge_graphs(docs) {
        Ok(graph) => graph,
        Err(error) => { return Err(error); },
    };
    let mut document = graph.document;
    let ghost before = document_model(document);
    match rebuild(&mut document, graph.catalog, &graph.pages) {
        Ok(()) => {
            proof {
                let node = page_tree_node(before.objects, graph.catalog)->Ok_0;
                assert forall|id: ObjectId| #[trigger]
                    document_model(document).objects.contains_key(id) && id
                        != node implies before.objects.contains_key(id) by {
                    lemma_reparented(
                        with_node(before.objects, node, graph.pages@),
                        graph.pages@,
                        node,
                        id,
                    );
                }
            }
            Ok(document)
        },
        Err(error) => Err(error),
    }
}

/// The pages of a merged pair: the page-tree node of the result lists the
/// pages of the first document, in their order, and then those of the
/// second, in theirs; its count is the sum of the two page counts. The
/// documents meant are the renumbered ones, the first numbered from 1 on
/// and the second behind it, whose ids the result holds.
pub proof fn law_merge_concatenates(first: lopdf::Document, second: lopdf::Document)
    requires
        merge_document(seq![first, second]) is Ok,
    ensures
        ({
            let a = renumbered(first, 1);
            let b = renumbered(second, (document_model(a).max_id + 1) as u32);
            let outcome = merge_outcome(seq![first, second])->Ok_0;
            let node = page_tree_node(outcome.0.objects, outcome.2)->Ok_0;
            let merged = merge_document(seq![first, second])->Ok_0;
            &&& outcome.1 == document_pages(a) + document_pages(b)
            &&& merged.objects.contains_key(node)
            &&& merged.objects[node] matches Value::Dictionary(entries) && entries.contains_key(
                key("Kids"),
            ) && entries[key("Kids")] == Value::Array(
                references(document_pages(a) + document_pages(b)),
            ) && entries.contains_key(key("Count")) && entries[key("Count")] == Value::Integer(
                (document_pages(a).len() + document_pages(b).len()) as i64,
            )
        }),
{
    let docs = seq![first, second];
    assert(docs.drop_last() =~= seq![first]);
    assert(docs.drop_last().drop_last() =~= Seq::<lopdf::Document>::empty());
    assert(docs.last() == second);
    assert(docs.drop_last().last() == first);
    let none = absorbed_all(docs.drop_last().drop_last());
    assert(none == Ok::<MergeState, PdfError>(initial_state()));
    let one = absorbed_all(docs.drop_last());
    assert(one == absorb_outcome(initial_state(), first));
    let outcome = merge_outcome(docs)->Ok_0;
    let node = page_tree_node(outcome.0.objects, outcome.2)->Ok_0;
    let a = renumbered(first, 1);
    assert(Seq::<ObjectId>::empty() + document_pages(a) =~= document_pages(a));
    law_rebuilt_node(outcome.0, node, outcome.1);
}

/// The pages of a merged pair keep what they held: the dictionary that a
/// lookup of page `i + 1` of one of the two renumbered documents reaches
/// is, in the result, as it was but for its parent, which is the page-tree
/// node. Stated where the ids of the two renumbered documents are not
/// shared, which `merge_pdfs` sees to, where that dictionary is not the
/// node, and where no reference was stored under the node's id.
pub proof fn law_merge_keeps_pages(
    first: lopdf::Document,
    second: lopdf::Document,
    of_second: bool,
    i: int,
)
    requires
        merge_document(seq![first, second]) is Ok,
        numbered_ids(seq![first, second], 0).disjoint(numbered_ids(seq![first, second], 1)),
        0 <= i < document_pages(numbered_of(first, second, of_second)).len(),
    ensures
        ({
            let source = document_model(numbered_of(first, second, of_second)).objects;
            let page = document_pages(numbered_of(first, second, of_second))[i];
            let outcome = merge_outcome(seq![first, second])->Ok_0;
            let node = page_tree_node(outcome.0.objects, outcome.2)->Ok_0;
            let merged = merge_document(seq![first, second])->Ok_0;
            no_reference_at(outcome.0.objects, node) && target(source, page) is Some && target(
                source,
                page,
            ) != Some(node) && source[target(source, page)->Some_0] is Dictionary
                ==> merged.objects[target(source, page)->Some_0] == Value::Dictionary(
                source[target(source, page)->Some_0]->Dictionary_0.insert(
                    key("Parent"),
                    Value::Reference(node),
                ),
            )
        }),
{
    let docs = seq![first, second];
    assert(docs.drop_last() =~= seq![first]);
    assert(docs.drop_last().drop_last() =~= Seq::<lopdf::Document>::empty());
    assert(docs.take(0) =~= Seq::<lopdf::Document>::empty());
    assert(docs.take(1) =~= seq![first]);
    assert(docs.last() == second);
    assert(docs.drop_last().last() == first);
    assert(docs.take(1).drop_last() =~= Seq::<lopdf::Document>::empty());
    let one = absorbed_all(docs.drop_last());
    assert(one == absorb_outcome(initial_state(), first));
    let a = renumbered(first, 1);
    let b = renumbered(second, (document_model(a).max_id + 1) as u32);
    assert(numbered_ids(docs, 0) == document_model(a).objects.dom());
    assert(numbered_ids(docs, 1) == document_model(b).objects.dom());
    let outcome = merge_outcome(docs)->Ok_0;
    let node = page_tree_node(outcome.0.objects, outcome.2)->Ok_0;
    let source = document_model(numbered_of(first, second, of_second)).objects;
    let page = document_pages(numbered_of(first, second, of_second))[i];
    assert(Seq::<ObjectId>::empty() + document_pages(a) =~= document_pages(a));
    assert(outcome.1 == document_pages(a) + document_pages(b));
    assert(outcome.0.objects =~= document_model(a).objects.union_prefer_right(
        document_model(b).objects,
    ));
    assert(source.submap_of(outcome.0.objects)) by {
        assert forall|id: ObjectId| #[trigger] source.dom().contains(id) implies outcome.0.objects.dom().contains(
        id) && source[id] == outcome.0.objects[id] by {
            if !of_second {
                assert(!document_model(b).objects.dom().contains(id));
            }
        }
    }
    if no_reference_at(outcome.0.objects, node) && target(source, page) is Some && target(
        source,
        page,
    ) != Some(node) && source[target(source, page)->Some_0] is Dictionary {
        lemma_target_in_larger(source, outcome.0.objects, page);
        lemma_target_reaches(source, page);
        let at = if of_second {
            document_pages(a).len() + i
        } else {
            i
        };
        assert(outcome.1[at] == page);
        law_rebuilt_parents(outcome.0, node, outcome.1, at);
    }
}

/// The one or the other of a pair of documents, renumbered as a merge
/// renumbers them: the first from 1 on, the second behind it.
pub open spec fn numbered_of(first: lopdf::Document, second: lopdf::Document, of_second: bool) -> lopdf::Document {
    if of_second {
        renumbered(second, (document_model(renumbered(first, 1)).max_id + 1) as u32)
    } else {
        renumbered(first, 1)
    }
}

/// The document that holds page `page` alone, or why it cannot be made:
/// the document with one more object number handed out, for a new page-tree
/// node, with the catalog pointed at that node and the page tree rebuilt
/// there from the one page.
pub open spec fn split_page(model: DocumentModel, catalog: ObjectId, page: ObjectId) -> Result<
    DocumentModel,
    PdfError,
> {
    if model.max_id == u32::MAX {
        Err(PdfError::Validation(ValidationFault::CapacityExceeded))
    } else {
        let node = ((model.max_id + 1) as u32, 0u16);
        rebuild_outcome(
            DocumentModel {
                objects: with_entry(model.objects, catalog, key("Pages"), Value::Reference(node)),
                max_id: node.0,
                ..model
            },
            catalog,
            seq![page],
        )
    }
}

/// One document for each page of `pages`, in order, or the first failure.
pub open spec fn split_pages(model: DocumentModel, catalog: ObjectId, pages: Seq<ObjectId>) -> Result<
    Seq<DocumentModel>,
    PdfError,
>
    decreases pages.len(),
{
    if pages.len() == 0 {
        Ok(Seq::empty())
    } else {
        match split_pages(model, catalog, pages.drop_last()) {
            Err(error) => Err(error),
            Ok(made) => match split_page(model, catalog, pages.last()) {
                Err(error) => Err(error),
                Ok(single) => Ok(made.push(single)),
            },
        }
    }
}

/// The documents that `split_pdf` makes, or why it fails.
pub open spec fn split_outcome(doc: lopdf::Document) -> Result<Seq<DocumentModel>, PdfError> {
    match page_tree_root(document_model(doc)) {
        Err(fault) => Err(PdfError::Reference(fault)),
        Ok(root) => split_pages(document_model(doc), root.0, document_pages(doc)),
    }
}

/// One document for each of the first pages, as long as none fails.
pub proof fn lemma_split_pages_length(model: DocumentModel, catalog: ObjectId, pages: Seq<ObjectId>)
    ensures
        split_pages(model, catalog, pages) matches Ok(made) ==> made.len() == pages.len(),
    decreases pages.len(),
{
    if pages.len() > 0 {
        lemma_split_pages_length(model, catalog, pages.drop_last());
    }
}

/// Once a page cannot be split off, the pages behind it change nothing.
pub proof fn lemma_split_failure_stays(
    model: DocumentModel,
    catalog: ObjectId,
    pages: Seq<ObjectId>,
    n: int,
)
    requires
        0 <= n <= pages.len(),
        split_pages(model, catalog, pages.take(n)) is Err,
    ensures
        split_pages(model, catalog, pages) == split_pages(model, catalog, pages.take(n)),
    decreases pages.len(),
{
    if n == pages.len() {
        assert(pages.take(n) =~= pages);
    } else {
        assert(pages.drop_last().take(n) =~= pages.take(n));
        lemma_split_failure_stays(model, catalog, pages.drop_last(), n);
    }
}

/// The document for page `i + 1` is the one that `split_page` makes of
/// that page.
pub proof fn lemma_split_pages_index(
    model: DocumentModel,
    catalog: ObjectId,
    pages: Seq<ObjectId>,
    i: int,
)
    requires
        0 <= i < pages.len(),
        split_pages(model, catalog, pages) is Ok,
    ensures
        split_pages(model, catalog, pages)->Ok_0.len() == pages.len(),
        split_page(model, catalog, pages[i]) == Ok::<DocumentModel, PdfError>(
            split_pages(model, catalog, pages)->Ok_0[i],
        ),
    decreases pages.len(),
{
    lemma_split_pages_length(model, catalog, pages);
    lemma_split_pages_length(model, catalog, pages.drop_last());
    if i < pages.len() - 1 {
        lemma_split_pages_index(model, catalog, pages.drop_last(), i);
    }
}

/// A document of `N` pages is split into `N` documents. In the document
/// for page `i + 1` the page-tree node lists that page alone, with count 1;
/// every object of the document is still there; and the dictionary that a
/// lookup of the page reaches is as it was but for its parent, which is the
/// new node. The last is stated where that dictionary is neither the node
/// nor the catalog and no reference was stored under the node's id.
pub proof fn law_split_keeps_page(doc: lopdf::Document, i: int)
    requires
        split_outcome(doc) is Ok,
        0 <= i < document_pages(doc).len(),
    ensures
        ({
            let model = document_model(doc);
            let page = document_pages(doc)[i];
            let catalog = page_tree_root(model)->Ok_0.0;
            let fresh = ((model.max_id + 1) as u32, 0u16);
            let pointed = with_entry(model.objects, catalog, key("Pages"), Value::Reference(fresh));
            let node = page_tree_node(pointed, catalog)->Ok_0;
            let single = split_outcome(doc)->Ok_0[i];
            &&& split_outcome(doc)->Ok_0.len() == document_pages(doc).len()
            &&& single.objects.contains_key(node)
            &&& single.objects[node] matches Value::Dictionary(entries) && entries.contains_key(
                key("Kids"),
            ) && entries[key("Kids")] == Value::Array(seq![Value::Reference(page)])
                && entries.contains_key(key("Count")) && entries[key("Count")] == Value::Integer(
                1,
            )
            &&& forall|id: ObjectId| #[trigger]
                model.objects.contains_key(id) ==> single.objects.contains_key(id)
            &&& no_reference_at(pointed, node) && target(model.objects, page) is Some
                && model.objects[target(model.objects, page)->Some_0] is Dictionary && target(
                model.objects,
                page,
            ) != Some(node) && target(model.objects, catalog) != target(model.objects, page)
                ==> single.objects[target(model.objects, page)->Some_0] == Value::Dictionary(
                model.objects[target(model.objects, page)->Some_0]->Dictionary_0.insert(
                    key("Parent"),
                    Value::Reference(node),
                ),
            )
        }),
{
    let model = document_model(doc);
    let pages = document_pages(doc);
    let page = pages[i];
    let catalog = page_tree_root(model)->Ok_0.0;
    let fresh = ((model.max_id + 1) as u32, 0u16);
    let pointed = with_entry(model.objects, catalog, key("Pages"), Value::Reference(fresh));
    let node = page_tree_node(pointed, catalog)->Ok_0;
    lemma_split_pages_index(model, catalog, pages, i);
    let single = split_outcome(doc)->Ok_0[i];
    let start = DocumentModel { objects: pointed, max_id: fresh.0, ..model };
    assert(single == rebuilt(start, node, seq![page]));
    law_rebuilt_node(start, node, seq![page]);
    assert(references(seq![page]) =~= seq![Value::Reference(page)]);
    let based = with_node(pointed, node, seq![page]);
    assert forall|id: ObjectId| #[trigger] model.objects.contains_key(id) implies single.objects.contains_key(
        id,
    ) by {
        lemma_with_entry(model.objects, catalog, key("Pages"), Value::Reference(fresh), id);
        lemma_reparented(based, seq![page], node, id);
    }
    if let Some(end) = target(model.objects, page) {
        if no_reference_at(pointed, node) && model.objects[end] is Dictionary && end != node
            && target(model.objects, catalog) != Some(end) {
            lemma_target_reaches(model.objects, page);
            lemma_with_entry_target(
                model.objects,
                catalog,
                key("Pages"),
                Value::Reference(fresh),
                page,
            );
            assert(pointed[end] == model.objects[end]);
            law_rebuilt_parents(start, node, seq![page], 0);
        }
    }
}

/// Splits a document into one document for each page. Each of them holds
/// every object of the document, and one more: a new page-tree node, which
/// the catalog is pointed at and which holds that one page. Fails when the
/// catalog or page tree cannot be found, or when no object number is left
/// for the new node.
pub fn split_pdf(doc: &lopdf::Document) -> (outputs: Result<Vec<lopdf::Document>, PdfError>)
    ensures
        match split_outcome(*doc) {
            Ok(models) => outputs matches Ok(made) && made@.len() == models.len()
                && made@.len() == document_pages(*doc).len() && forall|i: int|
                0 <= i < made@.len() ==> document_model(#[trigger] made@[i]) == models[i],
            Err(error) => outputs == Err::<Vec<lopdf::Document>, PdfError>(error),
        },
{
    let root = match find_page_tree_root(doc) {
        Ok(root) => root,
        Err(error) => { return Err(error); },
    };
    let pages = match collect_pages(doc) {
        Ok(pages) => pages,
        Err(error) => { return Err(error); },
    };
    let ghost model = document_model(*doc);
    let mut made: Vec<lopdf::Document> = Vec::new();
    let mut i: usize = 0;
    assert(pages@.take(0) =~= Seq::<ObjectId>::empty());
    while i < pages.len()
        invariant
            i <= pages.len(),
            made@.len() == i,
            model == document_model(*doc),
            pages@ == document_pages(*doc),
            page_tree_root(model) == Ok::<(ObjectId, ObjectId), ReferenceFault>(root),
            split_pages(model, root.0, pages@.take(i as int)) is Ok,
            split_pages(model, root.0, pages@.take(i as int))->Ok_0.len() == i,
            forall|k: int|
                0 <= k < i ==> document_model(#[trigger] made@[k]) == split_pages(
                    model,
                    root.0,
                    pages@.take(i as int),
                )->Ok_0[k],
        decreases pages.len() - i,
    {
        assert(pages@.take(i + 1).drop_last() =~= pages@.take(i as int));
        let mut single = clone_document(doc);
        let node = match new_object_id(&mut single) {
            Some(node) => node,
            None => {
                proof {
                    lemma_split_failure_stays(model, root.0, pages@, i + 1);
                }
                return Err(PdfError::Validation(ValidationFault::CapacityExceeded));
            },
        };
        set_entry(&mut single, root.0, "Pages", reference_object(node));
        let mut page: Vec<ObjectId> = Vec::new();
        page.push(pages[i]);
        assert(page@ =~= seq![pages@[i as int]]);
        match rebuild(&mut single, root.0, &page) {
            Ok(()) => {},
            Err(error) => {
                proof {
                    lemma_split_failure_stays(model, root.0, pages@, i + 1);
                }
                return Err(error);
            },
        }
        made.push(single);
        i = i + 1;
    }
    assert(pages@.take(i as int) =~= pages@);
    Ok(made)
}

/// The trailer without its entries for document information, metadata and
/// piece information, and without the pointer to an earlier
/// cross-reference section.
pub open spec fn stripped(trailer: Entries) -> Entries {
    trailer.remove(key("Info")).remove(key("Metadata")).remove(key("PieceInfo")).remove(
        key("XMP"),
    ).remove(key("Prev"))
}

/// Whether `after` is a compaction of `before`: no new ids, and every
/// object that is left as it was but for the encoding of a stream.
pub open spec fn compacted(before: DocumentModel, after: DocumentModel) -> bool {
    &&& after.trailer == before.trailer
    &&& after.max_id == before.max_id
    &&& after.objects.dom().subset_of(before.objects.dom())
    &&& forall|id: ObjectId| #[trigger]
        after.objects.contains_key(id) ==> same_but_streams(
            before.objects[id],
            after.objects[id],
        )
}

/// What the store makes of a document that it compacts: it decodes the
/// streams, encodes them anew and drops the objects that nothing refers to.
pub open spec fn compaction(doc: lopdf::Document) -> lopdf::Document {
    pruned(compressed(decompressed(doc)))
}

/// Takes the trailer's entries for document information, metadata and
/// piece information, and its pointer to an earlier cross-reference
/// section, out of it.
pub fn strip_trailer(doc: &mut lopdf::Document)
    ensures
        document_model(*final(doc)) == (DocumentModel {
            trailer: stripped(document_model(*old(doc)).trailer),
            ..document_model(*old(doc))
        }),
{
    let mut entries = trailer(doc);
    dictionary_remove(&mut entries, "Info");
    dictionary_remove(&mut entries, "Metadata");
    dictionary_remove(&mut entries, "PieceInfo");
    dictionary_remove(&mut entries, "XMP");
    dictionary_remove(&mut entries, "Prev");
    set_trailer(doc, entries);
}

/// Lets the store compact a document: decode the streams, encode them
/// anew, drop the objects that nothing refers to.
pub fn compact(doc: &mut lopdf::Document)
    ensures
        *final(doc) == compaction(*old(doc)),
        compacted(document_model(*old(doc)), document_model(*final(doc))),
{
    let ghost bare = document_model(*doc);
    decompress(doc);
    let ghost decoded = document_model(*doc);
    compress(doc);
    let ghost encoded = document_model(*doc);
    prune(doc);
    let ghost left = document_model(*doc);
    proof {
        assert forall|id: ObjectId| #[trigger] left.objects.contains_key(id) implies same_but_streams(
            bare.objects[id],
            left.objects[id],
        ) by {
            assert(encoded.objects.contains_key(id));
            assert(decoded.objects.contains_key(id));
            assert(bare.objects.contains_key(id));
            assert(same_but_streams(bare.objects[id], decoded.objects[id]));
            assert(same_but_streams(decoded.objects[id], encoded.objects[id]));
            if bare.objects[id] is Stream {
                let first = bare.objects[id]->Stream_0;
                let second = decoded.objects[id]->Stream_0;
                let third = encoded.objects[id]->Stream_0;
                assert forall|name: Seq<u8>| !is_encoding_entry(name) implies (
                #[trigger] third.contains_key(name)) == first.contains_key(name) && (
                first.contains_key(name) ==> third[name] == first[name]) by {
                    assert(second.contains_key(name) == first.contains_key(name));
                }
            }
        }
    }
}

/// Compacts a document. The trailer loses its entries for document
/// information, metadata and piece information and its pointer to an
/// earlier cross-reference section; the result is what the store makes of
/// the document with that trailer when it decodes the streams, encodes
/// them anew and drops the objects that nothing refers to.
pub fn compress_pdf(doc: &mut lopdf::Document)
    ensures
        exists|bare: lopdf::Document|
            #[trigger] document_model(bare) == (DocumentModel {
                trailer: stripped(document_model(*old(doc)).trailer),
                ..document_model(*old(doc))
            }) && *final(doc) == compaction(bare),
        document_model(*final(doc)).trailer == stripped(document_model(*old(doc)).trailer),
        compacted(
            DocumentModel {
                trailer: stripped(document_model(*old(doc)).trailer),
                ..document_model(*old(doc))
            },
            document_model(*final(doc)),
        ),
{
    strip_trailer(doc);
    let ghost bare = *doc;
    compact(doc);
    assert(document_model(bare) == (DocumentModel {
        trailer: stripped(document_model(*old(doc)).trailer),
        ..document_model(*old(doc))
    }) && *doc == compaction(bare));
}

/// The rotation that the entries of a page give: 0 where they give none.
pub open spec fn rotation_in(entries: Entries) -> int {
    if entries.contains_key(key("Rotate")) && entries[key("Rotate")] is Integer {
        entries[key("Rotate")]->Integer_0 as int
    } else {
        0
    }
}

/// The rotation that the dictionary which a lookup of `id` reaches gives:
/// 0 where it gives none.
pub open spec fn rotation_of(objects: Map<ObjectId, Value>, id: ObjectId) -> int {
    match target(objects, id) {
        Some(end) => if objects.contains_key(end) && objects[end] is Dictionary {
            rotation_in(objects[end]->Dictionary_0)
        } else {
            0
        },
        None => 0,
    }
}

/// The objects after the page `id` has been turned by `degrees`.
pub open spec fn turned_page(objects: Map<ObjectId, Value>, id: ObjectId, degrees: int) -> Map<
    ObjectId,
    Value,
> {
    with_entry(
        objects,
        id,
        key("Rotate"),
        Value::Integer(rotated(rotation_of(objects, id), degrees) as i64),
    )
}

/// The objects after each page of `ids`, from the first to the last, has
/// been turned by `degrees`.
pub open spec fn turned_pages(objects: Map<ObjectId, Value>, ids: Seq<ObjectId>, degrees: int) -> Map<
    ObjectId,
    Value,
>
    decreases ids.len(),
{
    if ids.len() == 0 {
        objects
    } else {
        turned_page(turned_pages(objects, ids.drop_last(), degrees), ids.last(), degrees)
    }
}

/// Turns the page `id` by `degrees`; a page that is no dictionary stays as
/// it is.
pub fn turn_page(doc: &mut lopdf::Document, id: ObjectId, degrees: i32)
    ensures
        document_model(*final(doc)) == (DocumentModel {
            objects: turned_page(document_model(*old(doc)).objects, id, degrees as int),
            ..document_model(*old(doc))
        }),
{
    if let Some(end) = resolve(doc, id) {
        if let Some(object) = object_at(doc, end) {
            if let Some(mut entries) = as_dictionary(&object) {
                let current: i64 = match dictionary_get(&entries, "Rotate") {
                    Some(rotation) => match as_integer(&rotation) {
                        Some(number) => number,
                        None => 0,
                    },
                    None => 0,
                };
                dictionary_set(&mut entries, "Rotate", integer_object(rotate_by(current, degrees)));
                put_object(doc, end, dictionary_object(entries));
            }
        }
    }
}

/// A page turned twice is the page turned once by the sum of the two
/// turns: by 90 degrees twice is by 180 degrees once. This holds of every
/// page, be it stored under its id or behind references, whatever its
/// rotation was.
pub proof fn law_turn_page_twice(
    objects: Map<ObjectId, Value>,
    id: ObjectId,
    first: int,
    second: int,
)
    ensures
        turned_page(turned_page(objects, id, first), id, second) == turned_page(
            objects,
            id,
            first + second,
        ),
        turned_page(turned_page(objects, id, 90), id, 90) == turned_page(objects, id, 180),
{
    lemma_turn_page_twice(objects, id, first, second);
    lemma_turn_page_twice(objects, id, 90, 90);
}

/// One instance of the law above.
proof fn lemma_turn_page_twice(objects: Map<ObjectId, Value>, id: ObjectId, first: int, second: int)
    ensures
        turned_page(turned_page(objects, id, first), id, second) == turned_page(
            objects,
            id,
            first + second,
        ),
{
    let prior = rotation_of(objects, id);
    let between = Value::Integer(rotated(prior, first) as i64);
    let last = Value::Integer(rotated(prior, first + second) as i64);
    let once = turned_page(objects, id, first);
    lemma_with_entry_target(objects, id, key("Rotate"), between, id);
    lemma_target_reaches(objects, id);
    if let Some(end) = target(objects, id) {
        if objects[end] is Dictionary {
            let entries = objects[end]->Dictionary_0;
            law_turns_add_up(prior, first, second);
            assert(rotation_of(once, id) == rotated(prior, first));
            assert(entries.insert(key("Rotate"), between).insert(key("Rotate"), last)
                =~= entries.insert(key("Rotate"), last));
            assert(turned_page(once, id, second) =~= turned_page(objects, id, first + second));
        } else {
            assert(once == objects);
        }
    } else {
        assert(once == objects);
    }
}

/// The number of pages of `ids` whose lookup leads to `end`.
pub open spec fn turns_at(objects: Map<ObjectId, Value>, ids: Seq<ObjectId>, end: ObjectId) -> nat
    decreases ids.len(),
{
    if ids.len() == 0 {
        0
    } else if target(objects, ids.last()) == Some(end) {
        turns_at(objects, ids.drop_last(), end) + 1
    } else {
        turns_at(objects, ids.drop_last(), end)
    }
}

/// A value after it has been turned `count` times by `degrees`: a
/// dictionary that was turned at all has the sum of its rotation and all
/// the turns, modulo 360, as its rotation; any other value is as it was.
pub open spec fn turned_value(value: Value, count: nat, degrees: int) -> Value {
    if value is Dictionary && count > 0 {
        Value::Dictionary(
            value->Dictionary_0.insert(
                key("Rotate"),
                Value::Integer(
                    ((rotation_in(value->Dictionary_0) + count * degrees) % 360) as i64,
                ),
            ),
        )
    } else {
        value
    }
}

/// Turning pages changes nothing in what a lookup reaches.
pub proof fn lemma_turned_pages_target(
    objects: Map<ObjectId, Value>,
    ids: Seq<ObjectId>,
    degrees: int,
    other: ObjectId,
)
    ensures
        target(turned_pages(objects, ids, degrees), other) == target(objects, other),
    decreases ids.len(),
{
    if ids.len() > 0 {
        let before = turned_pages(objects, ids.drop_last(), degrees);
        lemma_turned_pages_target(objects, ids.drop_last(), degrees, other);
        lemma_with_entry_target(
            before,
            ids.last(),
            key("Rotate"),
            Value::Integer(rotated(rotation_of(before, ids.last()), degrees) as i64),
            other,
        );
    }
}

/// One more turn of a value that has been turned `count` times.
pub open spec fn turned_once_more(value: Value, degrees: int) -> Value {
    if value is Dictionary {
        Value::Dictionary(
            value->Dictionary_0.insert(
                key("Rotate"),
                Value::Integer(rotated(rotation_in(value->Dictionary_0), degrees) as i64),
            ),
        )
    } else {
        value
    }
}

/// A value turned `count` times and once more is the value turned
/// `count + 1` times.
pub proof fn lemma_turned_once_more(value: Value, count: nat, degrees: int)
    ensures
        turned_once_more(turned_value(value, count, degrees), degrees) == turned_value(
            value,
            count + 1,
            degrees,
        ),
{
    if value is Dictionary {
        let entries = value->Dictionary_0;
        let prior = rotation_in(entries);
        assert((count + 1) * degrees == count * degrees + degrees) by (nonlinear_arith);
        let turn = count * degrees;
        let sum = Value::Integer(((prior + turn + degrees) % 360) as i64);
        if count > 0 {
            let held = Value::Integer(((prior + turn) % 360) as i64);
            assert(rotation_in(entries.insert(key("Rotate"), held)) == (prior + turn) % 360);
            assert(rotated((prior + turn) % 360, degrees) == (prior + turn + degrees) % 360);
            assert(entries.insert(key("Rotate"), held).insert(key("Rotate"), sum)
                =~= entries.insert(key("Rotate"), sum));
        }
    }
}

/// What one turn of a page does to an object: the object that the lookup
/// of the page reaches is turned once more, every other object stays.
pub proof fn lemma_turned_page(
    objects: Map<ObjectId, Value>,
    page: ObjectId,
    degrees: int,
    id: ObjectId,
)
    ensures
        turned_page(objects, page, degrees).contains_key(id) == objects.contains_key(id),
        objects.contains_key(id) ==> turned_page(objects, page, degrees)[id] == if target(
            objects,
            page,
        ) == Some(id) {
            turned_once_more(objects[id], degrees)
        } else {
            objects[id]
        },
{
    lemma_target_reaches(objects, page);
}

/// After the pages of a list have been turned, every object is there, and
/// each is what it was, turned as often as the list leads to it.
pub proof fn law_turned_pages(
    objects: Map<ObjectId, Value>,
    ids: Seq<ObjectId>,
    degrees: int,
    id: ObjectId,
)
    ensures
        turned_pages(objects, ids, degrees).contains_key(id) == objects.contains_key(id),
        objects.contains_key(id) ==> turned_pages(objects, ids, degrees)[id] == turned_value(
            objects[id],
            turns_at(objects, ids, id),
            degrees,
        ),
    decreases ids.len(),
{
    if ids.len() > 0 {
        let before = turned_pages(objects, ids.drop_last(), degrees);
        let count = turns_at(objects, ids.drop_last(), id);
        law_turned_pages(objects, ids.drop_last(), degrees, id);
        lemma_turned_pages_target(objects, ids.drop_last(), degrees, ids.last());
        lemma_turned_page(before, ids.last(), degrees, id);
        if objects.contains_key(id) {
            lemma_turned_once_more(objects[id], count, degrees);
        }
    }
}

/// How often a list leads to an object depends on what the lookups reach
/// alone.
pub proof fn lemma_turns_at(
    objects: Map<ObjectId, Value>,
    others: Map<ObjectId, Value>,
    ids: Seq<ObjectId>,
    end: ObjectId,
)
    requires
        forall|i: int| 0 <= i < ids.len() ==> target(others, #[trigger] ids[i]) == target(
            objects,
            ids[i],
        ),
    ensures
        turns_at(others, ids, end) == turns_at(objects, ids, end),
    decreases ids.len(),
{
    if ids.len() > 0 {
        lemma_turns_at(objects, others, ids.drop_last(), end);
        assert(target(others, ids[ids.len() - 1]) == target(objects, ids[ids.len() - 1]));
    }
}

/// A value turned `count` times by one angle and `count` times by another
/// is the value turned `count` times by the sum of the two.
pub proof fn lemma_turned_value_twice(value: Value, count: nat, first: int, second: int)
    ensures
        turned_value(turned_value(value, count, first), count, second) == turned_value(
            value,
            count,
            first + second,
        ),
{
    if value is Dictionary && count > 0 {
        let entries = value->Dictionary_0;
        let prior = rotation_in(entries);
        assert(count * (first + second) == count * first + count * second) by (nonlinear_arith);
        let one = count * first;
        let other = count * second;
        let held = Value::Integer(((prior + one) % 360) as i64);
        let last = Value::Integer(((prior + one + other) % 360) as i64);
        assert(rotation_in(entries.insert(key("Rotate"), held)) == (prior + one) % 360);
        assert(((prior + one) % 360 + other) % 360 == (prior + one + other) % 360);
        assert(entries.insert(key("Rotate"), held).insert(key("Rotate"), last) =~= entries.insert(
            key("Rotate"),
            last,
        ));
    }
}

/// The pages of a list turned twice are the pages turned once by the sum of
/// the two turns: every page turned by 90 degrees twice is as it is after
/// one turn by 180 degrees. This holds of every list and whatever the
/// rotations were.
pub proof fn law_turned_pages_twice(
    objects: Map<ObjectId, Value>,
    ids: Seq<ObjectId>,
    first: int,
    second: int,
)
    ensures
        turned_pages(turned_pages(objects, ids, first), ids, second) == turned_pages(
            objects,
            ids,
            first + second,
        ),
{
    let once = turned_pages(objects, ids, first);
    let twice = turned_pages(once, ids, second);
    let sum = turned_pages(objects, ids, first + second);
    assert forall|i: int| 0 <= i < ids.len() implies target(once, #[trigger] ids[i]) == target(
        objects,
        ids[i],
    ) by {
        lemma_turned_pages_target(objects, ids, first, ids[i]);
    }
    assert forall|id: ObjectId| (#[trigger] twice.dom().contains(id)) == sum.dom().contains(id)
        && (twice.dom().contains(id) ==> twice[id] == sum[id]) by {
        law_turned_pages(objects, ids, first, id);
        law_turned_pages(once, ids, second, id);
        law_turned_pages(objects, ids, first + second, id);
        lemma_turns_at(objects, once, ids, id);
        if objects.contains_key(id) {
            lemma_turned_value_twice(objects[id], turns_at(objects, ids, id), first, second);
        }
    }
    assert(twice =~= sum);
}

/// The document that `rotate_pdf` makes, or why it fails.
pub open spec fn rotate_outcome(doc: lopdf::Document, degrees: int) -> Result<
    DocumentModel,
    PdfError,
> {
    match page_tree_root(document_model(doc)) {
        Err(fault) => Err(PdfError::Reference(fault)),
        Ok(_) => Ok(
            DocumentModel {
                objects: turned_pages(document_model(doc).objects, document_pages(doc), degrees),
                ..document_model(doc)
            },
        ),
    }
}

/// Turning the pages leaves the catalog and its page tree where they were.
pub proof fn lemma_turned_pages_root(model: DocumentModel, ids: Seq<ObjectId>, degrees: int)
    ensures
        page_tree_root(
            DocumentModel { objects: turned_pages(model.objects, ids, degrees), ..model },
        ) == page_tree_root(model),
{
    reveal_strlit("Rotate");
    reveal_strlit("Pages");
    vstd::string::is_ascii_spec_bytes("Rotate");
    vstd::string::is_ascii_spec_bytes("Pages");
    if let Some(catalog) = reference_at(model.trailer, key("Root")) {
        lemma_turned_pages_target(model.objects, ids, degrees, catalog);
        lemma_target_reaches(model.objects, catalog);
        if let Some(end) = target(model.objects, catalog) {
            law_turned_pages(model.objects, ids, degrees, end);
        }
    }
}

/// A document turned by 90 degrees and then by 90 degrees again is the
/// document turned by 180 degrees once, and so for any two turns and their
/// sum. Stated of a second turn that finds the pages that the first turn
/// found, which is for the store to see to.
pub proof fn law_rotate_twice(doc: lopdf::Document, once: lopdf::Document, first: int, second: int)
    requires
        rotate_outcome(doc, first) == Ok::<DocumentModel, PdfError>(document_model(once)),
        document_pages(once) == document_pages(doc),
    ensures
        rotate_outcome(once, second) == rotate_outcome(doc, first + second),
{
    lemma_turned_pages_root(document_model(doc), document_pages(doc), first);
    law_turned_pages_twice(document_model(doc).objects, document_pages(doc), first, second);
}

/// Turns every page by `degrees`: the rotation of a page becomes the sum
/// of its rotation, 0 if it has none, and `degrees`, modulo 360. Fails, and leaves the document as it is, when the
/// catalog or page tree cannot be found.
pub fn rotate_pdf(doc: &mut lopdf::Document, degrees: i32) -> (done: Result<(), PdfError>)
    ensures
        match rotate_outcome(*old(doc), degrees as int) {
            Ok(model) => done is Ok && document_model(*final(doc)) == model,
            Err(error) => done == Err::<(), PdfError>(error) && *final(doc) == *old(doc),
        },
{
    let pages = match collect_pages(doc) {
        Ok(pages) => pages,
        Err(error) => { return Err(error); },
    };
    let ghost start = document_model(*doc);
    let mut i: usize = 0;
    while i < pages.len()
        invariant
            i <= pages.len(),
            document_model(*doc) == (DocumentModel {
                objects: turned_pages(start.objects, pages@.take(i as int), degrees as int),
                ..start
            }),
        decreases pages.len() - i,
    {
        turn_page(doc, pages[i], degrees);
        i = i + 1;
        assert(pages@.take(i as int).drop_last() =~= pages@.take(i - 1));
    }
    assert(pages@.take(i as int) =~= pages@);
    Ok(())
}

/// Wraps an image of the given size, given by its RGB samples, into a
/// document of one page, and lets the store encode the streams of that
/// document. Fails when the store cannot write the content stream.
pub fn image_to_pdf(width: u32, height: u32, rgb: Vec<u8>) -> (result: Result<
    lopdf::Document,
    PdfError,
>)
    ensures
        match encoded_content(placement_operations(width, height)) {
            Some(content) => result matches Ok(doc) && reencoded(
                single_page_model(width, height, content, rgb@),
                document_model(doc),
            ) && exists|plain: lopdf::Document|
                #[trigger] document_model(plain) == single_page_model(
                    width,
                    height,
                    content,
                    rgb@,
                ) && doc == compressed(plain),
            None => result matches Err(PdfError::Io(_)),
        },
{
    let content = match placement_content(width, height) {
        Ok(content) => content,
        Err(error) => { return Err(error); },
    };
    let mut doc = single_page_document(width, height, content, rgb);
    let ghost plain = doc;
    compress(&mut doc);
    assert(document_model(plain) == single_page_model(width, height, content@, rgb@) && doc
        == compressed(plain));
    Ok(doc)
}

/// The document that `delete_pages` makes, or why it fails.
pub open spec fn delete_outcome(doc: lopdf::Document, deleted: Seq<u32>) -> Result<
    DocumentModel,
    PdfError,
> {
    match page_tree_root(document_model(doc)) {
        Err(fault) => Err(PdfError::Reference(fault)),
        Ok(root) => if kept_pages(document_pages(doc), deleted).len() == 0 {
            Err(PdfError::Validation(ValidationFault::NoPagesLeft))
        } else {
            rebuild_outcome(document_model(doc), root.0, kept_pages(document_pages(doc), deleted))
        },
    }
}

/// Deletes the pages whose numbers occur in `deleted`; the other pages keep
/// their order. Fails, and leaves the document as it is, when the catalog
/// or page tree cannot be found or when no page would be left.
pub fn delete_pages(doc: &mut lopdf::Document, deleted: &Vec<u32>) -> (done: Result<(), PdfError>)
    ensures
        match delete_outcome(*old(doc), deleted@) {
            Ok(model) => done is Ok && document_model(*final(doc)) == model,
            Err(error) => done == Err::<(), PdfError>(error) && *final(doc) == *old(doc),
        },
{
    let root = match find_page_tree_root(doc) {
        Ok(root) => root,
        Err(error) => { return Err(error); },
    };
    let pages = match collect_pages(doc) {
        Ok(pages) => pages,
        Err(error) => { return Err(error); },
    };
    let kept = keep_pages(&pages, deleted);
    if kept.len() == 0 {
        return Err(PdfError::Validation(ValidationFault::NoPagesLeft));
    }
    rebuild(doc, root.0, &kept)
}

/// Deleting the single page `k` of a document of `N` pages leaves `N - 1`
/// pages: the page-tree node lists the pages before page `k` and those
/// behind it, in their old order.
pub proof fn law_delete_one(doc: lopdf::Document, k: u32)
    requires
        1 <= k <= document_pages(doc).len(),
        delete_outcome(doc, seq![k]) is Ok,
    ensures
        ({
            let node = page_tree_root(document_model(doc))->Ok_0.1;
            let result = delete_outcome(doc, seq![k])->Ok_0;
            &&& result.objects.contains_key(node)
            &&& result.objects[node] matches Value::Dictionary(entries) && entries.contains_key(
                key("Kids"),
            ) && entries[key("Kids")] == Value::Array(
                references(document_pages(doc).remove(k - 1)),
            ) && entries.contains_key(key("Count")) && entries[key("Count")] == Value::Integer(
                (document_pages(doc).len() - 1) as i64,
            )
        }),
{
    let node = page_tree_root(document_model(doc))->Ok_0.1;
    law_delete_one_page(document_pages(doc), k);
    law_rebuilt_node(document_model(doc), node, kept_pages(document_pages(doc), seq![k]));
}

/// Deleting every page of a document fails, as no page would be left.
pub proof fn law_delete_every_page(doc: lopdf::Document, deleted: Seq<u32>)
    requires
        page_tree_root(document_model(doc)) is Ok,
        forall|n: int| 1 <= n <= document_pages(doc).len() ==> is_listed(deleted, n),
    ensures
        delete_outcome(doc, deleted) == Err::<DocumentModel, PdfError>(
            PdfError::Validation(ValidationFault::NoPagesLeft),
        ),
{
    law_delete_all_pages(document_pages(doc), deleted);
}

/// The document that `reorder_pages` makes, or why it fails.
pub open spec fn reorder_outcome(doc: lopdf::Document, order: Seq<u32>) -> Result<
    DocumentModel,
    PdfError,
> {
    match page_tree_root(document_model(doc)) {
        Err(fault) => Err(PdfError::Reference(fault)),
        Ok(root) => if reordered_pages(document_pages(doc), order).len() == 0 {
            Err(PdfError::Validation(ValidationFault::InvalidPageOrder))
        } else {
            rebuild_outcome(
                document_model(doc),
                root.0,
                reordered_pages(document_pages(doc), order),
            )
        },
    }
}

/// Lists the pages in the order that `order` gives by page number. A number
/// that is no page number of the document is passed over; a page may be
/// named more than once, or not at all. Fails, and leaves the document as
/// it is, when the catalog or page tree cannot be found or when `order`
/// names no page.
pub fn reorder_pages(doc: &mut lopdf::Document, order: &Vec<u32>) -> (done: Result<(), PdfError>)
    ensures
        match reorder_outcome(*old(doc), order@) {
            Ok(model) => done is Ok && document_model(*final(doc)) == model,
            Err(error) => done == Err::<(), PdfError>(error) && *final(doc) == *old(doc),
        },
{
    let root = match find_page_tree_root(doc) {
        Ok(root) => root,
        Err(error) => { return Err(error); },
    };
    let pages = match collect_pages(doc) {
        Ok(pages) => pages,
        Err(error) => { return Err(error); },
    };
    let listed = reorder(&pages, order);
    if listed.len() == 0 {
        return Err(PdfError::Validation(ValidationFault::InvalidPageOrder));
    }
    rebuild(doc, root.0, &listed)
}

/// The document that `insert_pages` makes, or why it fails.
pub open spec fn insert_document(
    base: lopdf::Document,
    insertion: lopdf::Document,
    after_page: u32,
) -> Result<DocumentModel, PdfError> {
    match absorb_outcome(initial_state(), base) {
        Err(error) => Err(error),
        Ok(first) => match absorb_outcome(first, insertion) {
            Err(error) => Err(error),
            Ok(both) => rebuild_outcome(
                extended_model(both, first.catalog->Some_0),
                first.catalog->Some_0,
                spliced_pages(
                    document_pages(renumbered(base, 1)),
                    document_pages(renumbered(insertion, first.next_id)),
                    after_page,
                ),
            ),
        },
    }
}

/// The ids of the base once it is numbered from 1 on.
pub open spec fn base_ids(base: lopdf::Document) -> Set<ObjectId> {
    document_model(renumbered(base, 1)).objects.dom()
}

/// The ids of the insertion once it is numbered to follow the base.
pub open spec fn insertion_ids(base: lopdf::Document, insertion: lopdf::Document) -> Set<ObjectId> {
    document_model(
        renumbered(insertion, absorb_outcome(initial_state(), base)->Ok_0.next_id),
    ).objects.dom()
}

/// Inserts the pages of `insertion` into `base` after page `after_page`: in
/// front of all pages for 0, behind all pages for a number above the page
/// count of `base`. The two object graphs are merged, `base` first, and the
/// page tree of the catalog of `base` is rebuilt to hold the new page list.
/// The result keeps the trailer of the base. Every id of the insertion lies
/// above every id of the base, and no object number of the result but,
/// possibly, that of the page-tree node lies above its highest object
/// number.
pub fn insert_pages(base: &lopdf::Document, insertion: &lopdf::Document, after_page: u32) -> (result:
    Result<lopdf::Document, PdfError>)
    ensures
        match insert_document(*base, *insertion, after_page) {
            Ok(model) => result matches Ok(doc) && document_model(doc) == model,
            Err(error) => result == Err::<lopdf::Document, PdfError>(error),
        },
        result is Ok ==> all_below(base_ids(*base), insertion_ids(*base, *insertion))
            && base_ids(*base).disjoint(insertion_ids(*base, *insertion)),
        result matches Ok(doc) ==> forall|id: ObjectId|
            #[trigger] document_model(doc).objects.contains_key(id) ==> id.0 <= document_model(
                doc,
            ).max_id || Ok::<ObjectId, ReferenceFault>(id) == page_tree_node(
                absorb_outcome(
                    absorb_outcome(initial_state(), *base)->Ok_0,
                    *insertion,
                )->Ok_0.objects,
                absorb_outcome(initial_state(), *base)->Ok_0.catalog->Some_0,
            ),
{
    let mut merger = GraphMerger::new("1.5");
    match merger.absorb(base) {
        Ok(()) => {},
        Err(error) => { return Err(error); },
    }
    let base_pages = pages_from(merger.pages(), 0);
    match merger.absorb(insertion) {
        Ok(()) => {},
        Err(error) => { return Err(error); },
    }
    let inserted_pages = pages_from(merger.pages(), base_pages.len());
    proof {
        let first = absorb_outcome(initial_state(), *base)->Ok_0;
        assert(first.objects =~= document_model(renumbered(*base, 1)).objects);
        lemma_below_is_disjoint(base_ids(*base), insertion_ids(*base, *insertion));
    }
    let graph = match merger.finish_on_first() {
        Ok(graph) => graph,
        Err(error) => { return Err(error); },
    };
    let pages = splice_pages(&base_pages, &inserted_pages, after_page);
    let mut document = graph.document;
    proof {
        let first = absorb_outcome(initial_state(), *base)->Ok_0;
        let more = document_pages(renumbered(*insertion, first.next_id));
        assert(first.pages =~= document_pages(renumbered(*base, 1)));
        assert(first.pages.skip(0) =~= first.pages);
        assert((first.pages + more).skip(first.pages.len() as int) =~= more);
    }
    let ghost before = document_model(document);
    match rebuild(&mut document, graph.catalog, &pages) {
        Ok(()) => {
            proof {
                let node = page_tree_node(before.objects, graph.catalog)->Ok_0;
                assert forall|id: ObjectId| #[trigger]
                    document_model(document).objects.contains_key(id) && id
                        != node implies before.objects.contains_key(id) by {
                    lemma_reparented(with_node(before.objects, node, pages@), pages@, node, id);
                }
            }
            Ok(document)
        },
        Err(error) => Err(error),
    }
}

/// The pages after an insertion: the page-tree node of the result lists
/// the pages of the base up to the position, then the inserted pages in
/// their order, then the rest of the base; its count is the sum of the two
/// page counts. The documents meant are the renumbered ones, the base
/// numbered from 1 on and the insertion behind it.
pub proof fn law_insert_splices(base: lopdf::Document, insertion: lopdf::Document, after_page: u32)
    requires
        insert_document(base, insertion, after_page) is Ok,
    ensures
        ({
            let first = absorb_outcome(initial_state(), base)->Ok_0;
            let both = absorb_outcome(first, insertion)->Ok_0;
            let node = page_tree_node(both.objects, first.catalog->Some_0)->Ok_0;
            let result = insert_document(base, insertion, after_page)->Ok_0;
            let old_pages = document_pages(renumbered(base, 1));
            let new_pages = document_pages(renumbered(insertion, first.next_id));
            let position = insert_position(after_page as int, old_pages.len() as int);
            &&& result.objects.contains_key(node)
            &&& result.objects[node] matches Value::Dictionary(entries) && entries.contains_key(
                key("Kids"),
            ) && entries[key("Kids")] == Value::Array(
                references(old_pages.take(position) + new_pages + old_pages.skip(position)),
            ) && entries.contains_key(key("Count")) && entries[key("Count")] == Value::Integer(
                (old_pages.len() + new_pages.len()) as i64,
            )
        }),
{
    let first = absorb_outcome(initial_state(), base)->Ok_0;
    let both = absorb_outcome(first, insertion)->Ok_0;
    let catalog = first.catalog->Some_0;
    let node = page_tree_node(both.objects, catalog)->Ok_0;
    let old_pages = document_pages(renumbered(base, 1));
    let new_pages = document_pages(renumbered(insertion, first.next_id));
    law_rebuilt_node(
        extended_model(both, catalog),
        node,
        spliced_pages(old_pages, new_pages, after_page),
    );
}

/// The length of the encryption key, in bits.
pub const KEY_LENGTH: usize = 128;

/// Every permission that a protected document can grant: to print, also in
/// high quality, to modify, to copy, also for accessibility, to annotate,
/// to fill in forms and to assemble.
pub const ALL_PERMISSIONS: u64 = 0xf3c;

/// What the store is asked for when a document is to be protected.
pub struct EncryptionRequest {
    pub owner_password: String,
    pub user_password: String,
    pub key_length: usize,
    pub permissions: u64,
}

/// Whether `after` is `before` with an encryption dictionary added: it is
/// stored under the next object number, and the trailer refers to it.
pub open spec fn protected(before: DocumentModel, after: DocumentModel) -> bool {
    &&& before.max_id < u32::MAX
    &&& after.max_id == before.max_id + 1
    &&& after.objects.dom() == before.objects.dom().insert((after.max_id, 0u16))
    &&& after.trailer == before.trailer.insert(
        key("Encrypt"),
        Value::Reference((after.max_id, 0u16)),
    )
}

/// The request to protect a document with `password`: it is the owner's
/// and the user's password, the key has 128 bits, and every permission is
/// granted.
pub fn encryption_request(password: &str) -> (request: EncryptionRequest)
    ensures
        request.owner_password@ == password@,
        request.user_password@ == password@,
        request.key_length == KEY_LENGTH,
        request.permissions == ALL_PERMISSIONS,
{
    EncryptionRequest {
        owner_password: password.to_owned(),
        user_password: password.to_owned(),
        key_length: KEY_LENGTH,
        permissions: ALL_PERMISSIONS,
    }
}

/// What an encryption comes to once the store has said how it went: the
/// document on success, the store's description of the failure otherwise.
pub fn encryption_result(doc: lopdf::Document, outcome: Result<(), String>) -> (result: Result<
    lopdf::Document,
    PdfError,
>)
    ensures
        result == match outcome {
            Ok(()) => Ok::<lopdf::Document, PdfError>(doc),
            Err(text) => Err(PdfError::Encryption(text)),
        },
{
    match outcome {
        Ok(()) => Ok(doc),
        Err(text) => Err(PdfError::Encryption(text)),
    }
}

/// Lets the store protect a document as `request` asks. Whether it
/// succeeds is for the store to say; a failure is an encryption failure.
pub fn encrypt_as(doc: lopdf::Document, request: &EncryptionRequest) -> (result: Result<
    lopdf::Document,
    PdfError,
>)
    requires
        8 <= request.key_length,
    ensures
        match result {
            Ok(locked) => protected(document_model(doc), document_model(locked)),
            Err(error) => error is Encryption,
        },
{
    let mut doc = doc;
    let state = match encryption_state(&doc, request) {
        Ok(state) => state,
        Err(error) => {
            return encryption_result(doc, Err(error_text(&error)));
        },
    };
    let outcome = match encrypt(&mut doc, &state) {
        Ok(()) => Ok(()),
        Err(error) => Err(error_text(&error)),
    };
    encryption_result(doc, outcome)
}

/// Protects a document with `password`, as owner and as user password, with
/// a key of 128 bits and every permission granted. Fails for an empty
/// password; whether it fails for another one is for the store to say, and
/// then it is an encryption failure.
pub fn encrypt_pdf(doc: lopdf::Document, password: &str) -> (result: Result<
    lopdf::Document,
    PdfError,
>)
    ensures
        password@.len() == 0 ==> result == Err::<lopdf::Document, PdfError>(
            PdfError::Validation(ValidationFault::EmptyPassword),
        ),
        password@.len() > 0 ==> match result {
            Ok(locked) => protected(document_model(doc), document_model(locked)),
            Err(error) => error is Encryption,
        },
{
    if password.is_empty() {
        return Err(PdfError::Validation(ValidationFault::EmptyPassword));
    }
    let request = encryption_request(password);
    encrypt_as(doc, &request)
}

} // verus!
