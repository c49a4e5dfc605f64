//! The graph merger: folds the object graphs of several documents into one
//! address space, and their page lists into one.

use vstd::prelude::*;
use crate::collector::{collect_pages, find_page_tree_root, page_tree_root};
use crate::error::{PdfError, ReferenceFault, ValidationFault};
use crate::model::{key, no_entries, DocumentModel, Entries, ObjectId, Value};
use crate::store::{
    clone_document, dictionary_entries, dictionary_set, document_model, document_pages, max_id,
    new_dictionary, new_document, object_at, object_ids, put_object, reference_object, renumber,
    renumbered, set_max_id, set_trailer, trailer,
};

verus! {

/// The offset at which a graph is numbered so that it follows a graph whose
/// highest object number is `base_max_id`.
pub fn allocate_offset(base_max_id: u32) -> (offset: u32)
    requires
        base_max_id < u32::MAX,
    ensures
        offset == base_max_id + 1,
{
    base_max_id + 1
}

/// Stores a copy of every object of `source` in `target`, under its id.
pub fn copy_objects(target: &mut lopdf::Document, source: &lopdf::Document)
    ensures
        document_model(*final(target)) == (DocumentModel {
            objects: document_model(*old(target)).objects.union_prefer_right(
                document_model(*source).objects,
            ),
            ..document_model(*old(target))
        }),
{
    let ids = object_ids(source);
    let ghost gathered = document_model(*target);
    let ghost added = document_model(*source).objects;
    assert(ids@.take(0).to_set() =~= Set::<ObjectId>::empty());
    assert(gathered.objects.union_prefer_right(added.restrict(Set::<ObjectId>::empty()))
        =~= gathered.objects);
    let mut i: usize = 0;
    while i < ids.len()
        invariant
            i <= ids.len(),
            ids@.to_set() == added.dom(),
            added == document_model(*source).objects,
            document_model(*target) == (DocumentModel {
                objects: gathered.objects.union_prefer_right(
                    added.restrict(ids@.take(i as int).to_set()),
                ),
                ..gathered
            }),
        decreases ids.len() - i,
    {
        let id = ids[i];
        assert(ids@.to_set().contains(id));
        match object_at(source, id) {
            Some(object) => {
                put_object(target, id, object);
            },
            None => {},
        }
        i = i + 1;
        assert(ids@.take(i as int).drop_last() =~= ids@.take(i - 1));
        assert(ids@.take(i as int).to_set() =~= ids@.take(i - 1).to_set().insert(id)) by {
            let longer = ids@.take(i as int);
            let shorter = ids@.take(i - 1);
            assert(longer =~= shorter.push(id));
            assert forall|x: ObjectId| longer.contains(x) <==> shorter.contains(x) || x == id by {
                if longer.contains(x) {
                    let k = choose|k: int| 0 <= k < longer.len() && longer[k] == x;
                    if k < i - 1 {
                        assert(shorter[k] == x);
                    }
                }
                if shorter.contains(x) {
                    let k = choose|k: int| 0 <= k < shorter.len() && shorter[k] == x;
                    assert(longer[k] == x);
                }
                if x == id {
                    assert(longer[i - 1] == x);
                }
            }
        }
        assert(document_model(*target).objects =~= gathered.objects.union_prefer_right(
            added.restrict(ids@.take(i as int).to_set()),
        ));
    }
    assert(ids@.take(i as int) =~= ids@);
    assert(added.restrict(added.dom()) =~= added);
}

/// Appends the pages of `more` to `list`.
pub fn append_pages(list: &mut Vec<ObjectId>, more: &Vec<ObjectId>)
    ensures
        final(list)@ == old(list)@ + more@,
{
    let ghost listed = list@;
    let mut j: usize = 0;
    assert(list@ =~= listed + more@.take(0));
    while j < more.len()
        invariant
            j <= more.len(),
            list@ == listed + more@.take(j as int),
        decreases more.len() - j,
    {
        list.push(more[j]);
        j = j + 1;
        assert(list@ =~= listed + more@.take(j as int));
    }
    assert(more@.take(j as int) =~= more@);
}

/// What a merger has gathered: the objects of the documents taken in so far,
/// their pages in order, the catalog and the trailer of the first of them,
/// and the first object number that is still free.
pub struct MergeState {
    pub objects: Map<ObjectId, Value>,
    pub pages: Seq<ObjectId>,
    pub catalog: Option<ObjectId>,
    pub trailer: Entries,
    pub next_id: u32,
}

/// The state of a merger that has taken in nothing.
pub open spec fn initial_state() -> MergeState {
    MergeState {
        objects: Map::empty(),
        pages: Seq::empty(),
        catalog: None,
        trailer: no_entries(),
        next_id: 1,
    }
}

/// Whether every object number in use lies below the first free one.
pub open spec fn bounded(state: MergeState) -> bool {
    &&& 1 <= state.next_id
    &&& state.objects.dom().finite()
    &&& forall|id: ObjectId| #[trigger] state.objects.contains_key(id) ==> id.0 < state.next_id
}

/// Whether every object number of `ids` lies from `first` up to, and not
/// including, `end`.
pub open spec fn numbered_within(ids: Set<ObjectId>, first: int, end: int) -> bool {
    forall|id: ObjectId| #[trigger] ids.contains(id) ==> first <= id.0 < end
}

/// Whether every object number of `earlier` lies below every one of
/// `later`.
pub open spec fn all_below(earlier: Set<ObjectId>, later: Set<ObjectId>) -> bool {
    forall|a: ObjectId, b: ObjectId|
        #[trigger] earlier.contains(a) && #[trigger] later.contains(b) ==> a.0 < b.0
}

/// Ids of which the one set lies below the other are not shared.
pub proof fn lemma_below_is_disjoint(earlier: Set<ObjectId>, later: Set<ObjectId>)
    requires
        all_below(earlier, later),
    ensures
        earlier.disjoint(later),
{
}

/// The state after `doc` has been taken in, or why it cannot be.
pub open spec fn absorb_outcome(state: MergeState, doc: lopdf::Document) -> Result<
    MergeState,
    PdfError,
> {
    let count = document_model(doc).objects.dom().len();
    if count > i32::MAX || state.next_id + count > u32::MAX {
        Err(PdfError::Validation(ValidationFault::CapacityExceeded))
    } else {
        let numbered = renumbered(doc, state.next_id);
        match page_tree_root(document_model(numbered)) {
            Err(fault) => Err(PdfError::Reference(fault)),
            Ok(root) => Ok(
                MergeState {
                    objects: state.objects.union_prefer_right(document_model(numbered).objects),
                    pages: state.pages + document_pages(numbered),
                    catalog: if state.catalog is Some {
                        state.catalog
                    } else {
                        Some(root.0)
                    },
                    trailer: if state.catalog is Some {
                        state.trailer
                    } else {
                        document_model(numbered).trailer
                    },
                    next_id: (document_model(numbered).max_id + 1) as u32,
                },
            ),
        }
    }
}

/// The state after the documents have been taken in, one after the other.
pub open spec fn absorbed_all(docs: Seq<lopdf::Document>) -> Result<MergeState, PdfError>
    decreases docs.len(),
{
    if docs.len() == 0 {
        Ok(initial_state())
    } else {
        match absorbed_all(docs.drop_last()) {
            Ok(state) => absorb_outcome(state, docs.last()),
            Err(error) => Err(error),
        }
    }
}

/// The document that holds what a merger has gathered, with `catalog` as
/// its catalog and nothing else in its trailer.
pub open spec fn merged_model(state: MergeState, catalog: ObjectId) -> DocumentModel {
    DocumentModel {
        objects: state.objects,
        trailer: no_entries().insert(key("Root"), Value::Reference(catalog)),
        max_id: (state.next_id - 1) as u32,
    }
}

/// The document that holds what a merger has gathered, with the trailer of
/// the first document taken in, renumbered as that document was, and
/// `catalog` as its catalog.
pub open spec fn extended_model(state: MergeState, catalog: ObjectId) -> DocumentModel {
    DocumentModel {
        objects: state.objects,
        trailer: state.trailer.insert(key("Root"), Value::Reference(catalog)),
        max_id: (state.next_id - 1) as u32,
    }
}

/// Merged object graphs: one document that holds the objects of all, the
/// page list of all, the id of the catalog, and the first free object
/// number.
pub struct MergedGraph {
    pub document: lopdf::Document,
    pub pages: Vec<ObjectId>,
    pub catalog: ObjectId,
    pub next_id: u32,
}

/// A merger takes in documents one by one.
pub struct GraphMerger {
    document: lopdf::Document,
    pages: Vec<ObjectId>,
    catalog: Option<ObjectId>,
    trailer: lopdf::Dictionary,
    next_id: u32,
}

impl View for GraphMerger {
    type V = MergeState;

    closed spec fn view(&self) -> MergeState {
        MergeState {
            objects: document_model(self.document).objects,
            pages: self.pages@,
            catalog: self.catalog,
            trailer: dictionary_entries(self.trailer),
            next_id: self.next_id,
        }
    }
}

impl GraphMerger {
    /// Every object number in use lies below the first free one.
    pub open spec fn wf(&self) -> bool {
        bounded(self@)
    }

    /// A merger that has taken in nothing. Its document will say that it
    /// conforms to `version` of the format.
    pub fn new(version: &str) -> (merger: GraphMerger)
        ensures
            merger.wf(),
            merger@ == initial_state(),
    {
        GraphMerger {
            document: new_document(version),
            pages: Vec::new(),
            catalog: None,
            trailer: new_dictionary(),
            next_id: 1,
        }
    }

    /// The pages gathered so far.
    pub fn pages(&self) -> (pages: &Vec<ObjectId>)
        ensures
            pages@ == self@.pages,
    {
        &self.pages
    }

    /// The catalog of the first document taken in.
    pub fn catalog(&self) -> (catalog: Option<ObjectId>)
        ensures
            catalog == self@.catalog,
    {
        self.catalog
    }

    /// The first object number that is still free.
    pub fn next_id(&self) -> (next_id: u32)
        ensures
            next_id == self@.next_id,
    {
        self.next_id
    }

    /// Takes in a document. A copy of it is renumbered from the first free
    /// object number on, so that none of its ids is in use already; its
    /// objects and its pages then join those gathered so far. Fails, and
    /// takes in nothing, when the object numbers do not suffice or when the
    /// catalog or page tree of the renumbered document cannot be found.
    pub fn absorb(&mut self, doc: &lopdf::Document) -> (done: Result<(), PdfError>)
        requires
            old(self).wf(),
        ensures
            final(self).wf(),
            match absorb_outcome(old(self)@, *doc) {
                Ok(state) => done is Ok && final(self)@ == state,
                Err(error) => done == Err::<(), PdfError>(error) && final(self)@ == old(self)@,
            },
            done is Ok ==> old(self)@.next_id <= final(self)@.next_id && numbered_within(
                document_model(renumbered(*doc, old(self)@.next_id)).objects.dom(),
                old(self)@.next_id as int,
                final(self)@.next_id as int,
            ) && all_below(
                old(self)@.objects.dom(),
                document_model(renumbered(*doc, old(self)@.next_id)).objects.dom(),
            ) && old(self)@.objects.dom().disjoint(
                document_model(renumbered(*doc, old(self)@.next_id)).objects.dom(),
            ),
    {
        let before = object_ids(doc);
        proof {
            before@.unique_seq_to_set();
        }
        let count: u64 = before.len() as u64;
        if count > 0x7fff_ffff || self.next_id as u64 + count > 0xffff_ffff {
            return Err(PdfError::Validation(ValidationFault::CapacityExceeded));
        }
        let mut numbered = clone_document(doc);
        renumber(&mut numbered, self.next_id);
        let root = match find_page_tree_root(&numbered) {
            Ok(root) => root,
            Err(error) => { return Err(error); },
        };
        let pages = match collect_pages(&numbered) {
            Ok(pages) => pages,
            Err(error) => { return Err(error); },
        };
        copy_objects(&mut self.document, &numbered);
        append_pages(&mut self.pages, &pages);
        if self.catalog.is_none() {
            self.catalog = Some(root.0);
            self.trailer = trailer(&numbered);
        }
        self.next_id = allocate_offset(max_id(&numbered));
        proof {
            let gathered = old(self)@.objects;
            let added = document_model(numbered).objects;
            assert(gathered.union_prefer_right(added).dom() =~= gathered.dom().union(added.dom()));
            assert forall|id: ObjectId| #[trigger]
                self@.objects.contains_key(id) implies id.0 < self.next_id by {
                if !added.contains_key(id) {
                    assert(gathered.contains_key(id));
                }
            }
        }
        Ok(())
    }

    /// Hands out what was gathered as one document, whose trailer names the
    /// catalog of the first document taken in, and nothing else, and whose
    /// highest object number is the last one in use. Fails when no document
    /// was taken in.
    pub fn finish(self) -> (graph: Result<MergedGraph, PdfError>)
        requires
            self.wf(),
        ensures
            match self@.catalog {
                None => graph == Err::<MergedGraph, PdfError>(
                    PdfError::Reference(ReferenceFault::MissingCatalog),
                ),
                Some(catalog) => graph matches Ok(merged) && merged.catalog == catalog
                    && merged.pages@ == self@.pages && merged.next_id == self@.next_id
                    && document_model(merged.document) == merged_model(self@, catalog),
            },
    {
        let GraphMerger { document, pages, catalog, trailer: _, next_id } = self;
        let catalog = match catalog {
            Some(catalog) => catalog,
            None => { return Err(PdfError::Reference(ReferenceFault::MissingCatalog)); },
        };
        let mut document = document;
        let mut entries = new_dictionary();
        dictionary_set(&mut entries, "Root", reference_object(catalog));
        set_trailer(&mut document, entries);
        set_max_id(&mut document, next_id - 1);
        Ok(MergedGraph { document, pages, catalog, next_id })
    }

    /// Hands out what was gathered as one document that goes on from the
    /// first document taken in: it has the trailer of that document, as it
    /// was renumbered, with its catalog as the root. Its highest object
    /// number is the last one in use. Fails when no document was taken in.
    pub fn finish_on_first(self) -> (graph: Result<MergedGraph, PdfError>)
        requires
            self.wf(),
        ensures
            match self@.catalog {
                None => graph == Err::<MergedGraph, PdfError>(
                    PdfError::Reference(ReferenceFault::MissingCatalog),
                ),
                Some(catalog) => graph matches Ok(merged) && merged.catalog == catalog
                    && merged.pages@ == self@.pages && merged.next_id == self@.next_id
                    && document_model(merged.document) == extended_model(self@, catalog),
            },
    {
        let GraphMerger { document, pages, catalog, trailer, next_id } = self;
        let catalog = match catalog {
            Some(catalog) => catalog,
            None => { return Err(PdfError::Reference(ReferenceFault::MissingCatalog)); },
        };
        let mut document = document;
        let mut entries = trailer;
        dictionary_set(&mut entries, "Root", reference_object(catalog));
        set_trailer(&mut document, entries);
        set_max_id(&mut document, next_id - 1);
        Ok(MergedGraph { document, pages, catalog, next_id })
    }
}

/// What `merge_graphs` returns for `docs`: the model of the merged
/// document, the page list, the catalog and the first free object number;
/// or why it fails.
pub open spec fn merge_outcome(docs: Seq<lopdf::Document>) -> Result<
    (DocumentModel, Seq<ObjectId>, ObjectId, u32),
    PdfError,
> {
    match absorbed_all(docs) {
        Err(error) => Err(error),
        Ok(state) => match state.catalog {
            None => Err(PdfError::Reference(ReferenceFault::MissingCatalog)),
            Some(catalog) => Ok(
                (merged_model(state, catalog), state.pages, catalog, state.next_id),
            ),
        },
    }
}

/// The object ids of document `i` of `docs` once it is renumbered to follow
/// the documents before it.
pub open spec fn numbered_ids(docs: Seq<lopdf::Document>, i: int) -> Set<ObjectId> {
    document_model(
        renumbered(docs[i], absorbed_all(docs.take(i))->Ok_0.next_id),
    ).objects.dom()
}

/// Once a document cannot be taken in, the documents behind it change
/// nothing.
pub proof fn lemma_failure_stays(docs: Seq<lopdf::Document>, n: int)
    requires
        0 <= n <= docs.len(),
        absorbed_all(docs.take(n)) is Err,
    ensures
        absorbed_all(docs) == absorbed_all(docs.take(n)),
    decreases docs.len(),
{
    if n == docs.len() {
        assert(docs.take(n) =~= docs);
    } else {
        assert(docs.drop_last().take(n) =~= docs.take(n));
        lemma_failure_stays(docs.drop_last(), n);
    }
}

/// Merges the object graphs of `docs`, in order: each document is
/// renumbered to follow the one before it, the first from 1 on. The result
/// holds all their objects, their pages in the order of the documents, and
/// the catalog of the first document. Fails when there is no document, when
/// the object numbers do not suffice, or when the catalog or page tree of a
/// renumbered document cannot be found.
pub fn merge_graphs(docs: &Vec<lopdf::Document>) -> (graph: Result<MergedGraph, PdfError>)
    ensures
        match merge_outcome(docs@) {
            Ok(outcome) => graph matches Ok(merged) && document_model(merged.document) == outcome.0
                && merged.pages@ == outcome.1 && merged.catalog == outcome.2 && merged.next_id
                == outcome.3,
            Err(error) => graph == Err::<MergedGraph, PdfError>(error),
        },
        graph is Ok ==> forall|i: int, j: int|
            0 <= i < j < docs@.len() ==> all_below(
                #[trigger] numbered_ids(docs@, i),
                #[trigger] numbered_ids(docs@, j),
            ),
        graph is Ok ==> forall|i: int, j: int|
            0 <= i < j < docs@.len() ==> #[trigger] numbered_ids(docs@, i).disjoint(
                #[trigger] numbered_ids(docs@, j),
            ),
        graph matches Ok(merged) ==> bounded(absorbed_all(docs@)->Ok_0) && forall|id: ObjectId|
            #[trigger] document_model(merged.document).objects.contains_key(id) ==> id.0
                <= document_model(merged.document).max_id,
{
    let mut merger = GraphMerger::new("1.5");
    let mut i: usize = 0;
    assert(docs@.take(0) =~= Seq::<lopdf::Document>::empty());
    while i < docs.len()
        invariant
            i <= docs.len(),
            merger.wf(),
            absorbed_all(docs@.take(i as int)) == Ok::<MergeState, PdfError>(merger@),
            forall|k: int|
                0 <= k < i ==> (#[trigger] numbered_ids(docs@, k)).subset_of(
                    merger@.objects.dom(),
                ),
            forall|k: int, l: int|
                0 <= k < l < i ==> all_below(
                    #[trigger] numbered_ids(docs@, k),
                    #[trigger] numbered_ids(docs@, l),
                ),
        decreases docs.len() - i,
    {
        assert(docs@.take(i + 1).drop_last() =~= docs@.take(i as int));
        let ghost gathered = merger@.objects.dom();
        match merger.absorb(&docs[i]) {
            Ok(()) => {},
            Err(error) => {
                proof {
                    lemma_failure_stays(docs@, i + 1);
                }
                return Err(error);
            },
        }
        proof {
            assert(all_below(gathered, numbered_ids(docs@, i as int)));
            assert forall|k: int| 0 <= k < i implies all_below(
                #[trigger] numbered_ids(docs@, k),
                numbered_ids(docs@, i as int),
            ) by {
                assert(numbered_ids(docs@, k).subset_of(gathered));
            }
        }
        i = i + 1;
    }
    assert(docs@.take(i as int) =~= docs@);
    proof {
        assert forall|i: int, j: int| 0 <= i < j < docs@.len() implies #[trigger] numbered_ids(
            docs@,
            i,
        ).disjoint(#[trigger] numbered_ids(docs@, j)) by {
            lemma_below_is_disjoint(numbered_ids(docs@, i), numbered_ids(docs@, j));
        }
    }
    merger.finish()
}

} // verus!
