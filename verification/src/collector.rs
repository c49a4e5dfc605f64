//! The page collector: the ordered page list of a document.

use vstd::prelude::*;
use crate::error::{PdfError, ReferenceFault};
use crate::model::{catalog_id, DocumentModel, ObjectId};
use crate::rebuilder::{find_page_tree_node, page_tree_node};
use crate::store::{as_reference, dictionary_get, document_model, document_pages, page_ids, trailer};

verus! {

/// The ids of the catalog and of the page-tree node that it refers to.
pub open spec fn page_tree_root(model: DocumentModel) -> Result<(ObjectId, ObjectId), ReferenceFault> {
    match catalog_id(model) {
        None => Err(ReferenceFault::MissingCatalog),
        Some(catalog) => match page_tree_node(model.objects, catalog) {
            Ok(node) => Ok((catalog, node)),
            Err(fault) => Err(fault),
        },
    }
}

/// Finds the catalog and the page-tree node of a document. Fails when the
/// trailer refers to no catalog, when the catalog's id leads to no
/// dictionary, or when the catalog refers to no page tree.
pub fn find_page_tree_root(doc: &lopdf::Document) -> (found: Result<(ObjectId, ObjectId), PdfError>)
    ensures
        found == match page_tree_root(document_model(*doc)) {
            Ok(ids) => Ok::<(ObjectId, ObjectId), PdfError>(ids),
            Err(fault) => Err(PdfError::Reference(fault)),
        },
{
    let entries = trailer(doc);
    let root = match dictionary_get(&entries, "Root") {
        Some(root) => root,
        None => { return Err(PdfError::Reference(ReferenceFault::MissingCatalog)); },
    };
    let catalog = match as_reference(&root) {
        Some(catalog) => catalog,
        None => { return Err(PdfError::Reference(ReferenceFault::MissingCatalog)); },
    };
    match find_page_tree_node(doc, catalog) {
        Ok(node) => Ok((catalog, node)),
        Err(error) => Err(error),
    }
}

/// The page list of a document: the ids of its pages in page order, page 1
/// first. Fails when the catalog or the page tree's root cannot be found.
pub fn collect_pages(doc: &lopdf::Document) -> (pages: Result<Vec<ObjectId>, PdfError>)
    ensures
        match page_tree_root(document_model(*doc)) {
            Ok(_) => pages matches Ok(list) && list@ == document_pages(*doc),
            Err(fault) => pages == Err::<Vec<ObjectId>, PdfError>(PdfError::Reference(fault)),
        },
{
    match find_page_tree_root(doc) {
        Ok(_) => Ok(page_ids(doc)),
        Err(error) => Err(error),
    }
}

} // verus!
