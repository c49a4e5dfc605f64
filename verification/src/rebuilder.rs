//! The page-tree rebuilder: makes one flat page-tree node hold a given list
//! of pages, and points each of those pages back at the node.

use vstd::prelude::*;
use crate::error::{PdfError, ReferenceFault, ValidationFault};
use crate::model::{
    key, lemma_page_tree_keys_differ, no_entries, reference_at, references, DocumentModel, Entries,
    ObjectId, Value,
};
use crate::store::{
    array_object, as_dictionary, as_reference, dictionary_get, dictionary_object, dictionary_set,
    document_model, integer_object, name_object, new_dictionary, object_at, object_value,
    chain_end, chain_limit, dereference, object_values, put_object, reference_object, target,
};

verus! {

/// The page-tree node that the catalog stored under `catalog` refers to.
pub open spec fn page_tree_node(objects: Map<ObjectId, Value>, catalog: ObjectId) -> Result<
    ObjectId,
    ReferenceFault,
> {
    match target(objects, catalog) {
        Some(end) => if objects.contains_key(end) && objects[end] is Dictionary {
            match reference_at(objects[end]->Dictionary_0, key("Pages")) {
                Some(node) => Ok(node),
                None => Err(ReferenceFault::MissingPageTree),
            }
        } else {
            Err(ReferenceFault::InvalidCatalog)
        },
        None => Err(ReferenceFault::InvalidCatalog),
    }
}

/// The entries of the dictionary stored under `node`; none where no
/// dictionary is stored there.
pub open spec fn node_entries(objects: Map<ObjectId, Value>, node: ObjectId) -> Entries {
    if objects.contains_key(node) && objects[node] is Dictionary {
        objects[node]->Dictionary_0
    } else {
        no_entries()
    }
}

/// A flat page-tree node whose children are `ids`, in order, and whose
/// other entries are those of `entries`.
pub open spec fn pages_node(entries: Entries, ids: Seq<ObjectId>) -> Value {
    Value::Dictionary(
        entries.insert(key("Type"), Value::Name(key("Pages"))).insert(
            key("Count"),
            Value::Integer(ids.len() as i64),
        ).insert(key("Kids"), Value::Array(references(ids))),
    )
}

/// The objects with the node stored under `node` made a flat page-tree
/// node of `ids`: its children and its count are overwritten, its other
/// entries stay.
pub open spec fn with_node(objects: Map<ObjectId, Value>, node: ObjectId, ids: Seq<ObjectId>) -> Map<
    ObjectId,
    Value,
> {
    objects.insert(node, pages_node(node_entries(objects, node), ids))
}

/// The objects after the dictionary that a lookup of `id` reaches has got
/// the entry `name`; unchanged when the lookup reaches no dictionary.
pub open spec fn with_entry(
    objects: Map<ObjectId, Value>,
    id: ObjectId,
    name: Seq<u8>,
    value: Value,
) -> Map<ObjectId, Value> {
    match target(objects, id) {
        Some(end) => if objects.contains_key(end) && objects[end] is Dictionary {
            objects.insert(end, Value::Dictionary(objects[end]->Dictionary_0.insert(name, value)))
        } else {
            objects
        },
        None => objects,
    }
}

/// The objects after each page of `ids`, from the first to the last, has
/// been given `node` as its parent.
pub open spec fn reparented(objects: Map<ObjectId, Value>, ids: Seq<ObjectId>, node: ObjectId) -> Map<
    ObjectId,
    Value,
>
    decreases ids.len(),
{
    if ids.len() == 0 {
        objects
    } else {
        with_entry(
            reparented(objects, ids.drop_last(), node),
            ids.last(),
            key("Parent"),
            Value::Reference(node),
        )
    }
}

/// The document after its page tree has been rebuilt at `node` from `ids`.
pub open spec fn rebuilt(model: DocumentModel, node: ObjectId, ids: Seq<ObjectId>) -> DocumentModel {
    DocumentModel {
        objects: reparented(with_node(model.objects, node, ids), ids, node),
        ..model
    }
}

/// What `rebuild` makes of a document, or why it fails.
pub open spec fn rebuild_outcome(model: DocumentModel, catalog: ObjectId, ids: Seq<ObjectId>) -> Result<
    DocumentModel,
    PdfError,
> {
    match page_tree_node(model.objects, catalog) {
        Err(fault) => Err(PdfError::Reference(fault)),
        Ok(node) => if ids.len() > i64::MAX {
            Err(PdfError::Validation(ValidationFault::CapacityExceeded))
        } else {
            Ok(rebuilt(model, node, ids))
        },
    }
}

/// The id of the object that a lookup of `id` reaches, following
/// references; nothing when there is no such object.
pub fn resolve(doc: &lopdf::Document, id: ObjectId) -> (reached: Option<ObjectId>)
    ensures
        reached == target(document_model(*doc).objects, id),
{
    match object_at(doc, id) {
        None => None,
        Some(object) => match dereference(doc, &object) {
            None => None,
            Some(None) => Some(id),
            Some(Some(end)) => Some(end),
        },
    }
}

/// Finds the page-tree node that the catalog stored under `catalog` refers
/// to.
pub fn find_page_tree_node(doc: &lopdf::Document, catalog: ObjectId) -> (found: Result<
    ObjectId,
    PdfError,
>)
    ensures
        found == match page_tree_node(document_model(*doc).objects, catalog) {
            Ok(node) => Ok::<ObjectId, PdfError>(node),
            Err(fault) => Err(PdfError::Reference(fault)),
        },
{
    let end = match resolve(doc, catalog) {
        Some(end) => end,
        None => { return Err(PdfError::Reference(ReferenceFault::InvalidCatalog)); },
    };
    let object = match object_at(doc, end) {
        Some(object) => object,
        None => { return Err(PdfError::Reference(ReferenceFault::InvalidCatalog)); },
    };
    let entries = match as_dictionary(&object) {
        Some(entries) => entries,
        None => { return Err(PdfError::Reference(ReferenceFault::InvalidCatalog)); },
    };
    let pages = match dictionary_get(&entries, "Pages") {
        Some(pages) => pages,
        None => { return Err(PdfError::Reference(ReferenceFault::MissingPageTree)); },
    };
    match as_reference(&pages) {
        Some(node) => Ok(node),
        None => Err(PdfError::Reference(ReferenceFault::MissingPageTree)),
    }
}

/// Gives the dictionary that a lookup of `id` reaches the entry `name`;
/// leaves the document as it is when the lookup reaches no dictionary.
pub fn set_entry(doc: &mut lopdf::Document, id: ObjectId, name: &str, value: lopdf::Object)
    ensures
        document_model(*final(doc)) == (DocumentModel {
            objects: with_entry(
                document_model(*old(doc)).objects,
                id,
                key(name),
                object_value(value),
            ),
            ..document_model(*old(doc))
        }),
{
    if let Some(end) = resolve(doc, id) {
        if let Some(object) = object_at(doc, end) {
            if let Some(mut entries) = as_dictionary(&object) {
                dictionary_set(&mut entries, name, value);
                put_object(doc, end, dictionary_object(entries));
            }
        }
    }
}

/// One reference for each id, in order.
pub fn reference_objects(ids: &Vec<ObjectId>) -> (kids: Vec<lopdf::Object>)
    ensures
        object_values(kids@) == references(ids@),
{
    let mut kids: Vec<lopdf::Object> = Vec::new();
    let mut i: usize = 0;
    while i < ids.len()
        invariant
            i <= ids.len(),
            kids@.len() == i,
            object_values(kids@) == references(ids@.take(i as int)),
        decreases ids.len() - i,
    {
        let ghost before = kids@;
        let kid = reference_object(ids[i]);
        kids.push(kid);
        i = i + 1;
        assert forall|j: int| 0 <= j < kids@.len() implies object_values(kids@)[j] == references(
            ids@.take(i as int),
        )[j] by {
            if j < i - 1 {
                assert(object_values(before)[j] == references(ids@.take(i - 1))[j]);
            }
        }
        assert(object_values(kids@) =~= references(ids@.take(i as int)));
    }
    assert(ids@.take(i as int) =~= ids@);
    kids
}

/// Rebuilds the page tree of `doc`: the node that the catalog under
/// `catalog` refers to gets `ids` as its children and their number as its
/// count, and every page of `ids` gets that node as its parent. The node
/// keeps its id and, where it is a dictionary, its other entries. Fails, and leaves the document as it is, when the catalog
/// leads to no dictionary or names no page tree.
pub fn rebuild(doc: &mut lopdf::Document, catalog: ObjectId, ids: &Vec<ObjectId>) -> (done: Result<
    (),
    PdfError,
>)
    ensures
        match rebuild_outcome(document_model(*old(doc)), catalog, ids@) {
            Ok(model) => done is Ok && document_model(*final(doc)) == model,
            Err(error) => done == Err::<(), PdfError>(error) && *final(doc) == *old(doc),
        },
{
    let node = match find_page_tree_node(doc, catalog) {
        Ok(node) => node,
        Err(error) => { return Err(error); },
    };
    let length: u64 = ids.len() as u64;
    if length > 0x7fff_ffff_ffff_ffff {
        return Err(PdfError::Validation(ValidationFault::CapacityExceeded));
    }
    let kids = reference_objects(ids);
    let mut entries = match object_at(doc, node) {
        Some(object) => match as_dictionary(&object) {
            Some(entries) => entries,
            None => new_dictionary(),
        },
        None => new_dictionary(),
    };
    dictionary_set(&mut entries, "Type", name_object("Pages"));
    dictionary_set(&mut entries, "Count", integer_object(length as i64));
    dictionary_set(&mut entries, "Kids", array_object(kids));
    put_object(doc, node, dictionary_object(entries));
    let ghost start = document_model(*doc);
    let mut i: usize = 0;
    while i < ids.len()
        invariant
            i <= ids.len(),
            document_model(*doc) == (DocumentModel {
                objects: reparented(start.objects, ids@.take(i as int), node),
                ..start
            }),
        decreases ids.len() - i,
    {
        set_entry(doc, ids[i], "Parent", reference_object(node));
        i = i + 1;
        assert(ids@.take(i as int).drop_last() =~= ids@.take(i - 1));
    }
    assert(ids@.take(i as int) =~= ids@);
    Ok(())
}

/// The entries of `value` when it is a dictionary that either is `entries`
/// or is `entries` with `node` as its parent.
pub open spec fn same_but_parent(value: Value, entries: Entries, node: ObjectId) -> bool {
    value == Value::Dictionary(entries) || value == Value::Dictionary(
        entries.insert(key("Parent"), Value::Reference(node)),
    )
}

/// Giving one dictionary an entry changes no other entry, and no object
/// that is not a dictionary.
pub proof fn lemma_with_entry(
    objects: Map<ObjectId, Value>,
    id: ObjectId,
    name: Seq<u8>,
    value: Value,
    other: ObjectId,
)
    ensures
        with_entry(objects, id, name, value).contains_key(other) == objects.contains_key(other),
        objects.contains_key(other) ==> match objects[other] {
            Value::Dictionary(entries) => with_entry(objects, id, name, value)[other]
                == Value::Dictionary(entries) || with_entry(objects, id, name, value)[other]
                == Value::Dictionary(entries.insert(name, value)),
            unchanged => with_entry(objects, id, name, value)[other] == unchanged,
        },
{
}

/// Giving pages their parent leaves every object in place; a dictionary
/// stays as it was or gets the parent, and nothing else changes.
pub proof fn lemma_reparented(
    objects: Map<ObjectId, Value>,
    ids: Seq<ObjectId>,
    node: ObjectId,
    other: ObjectId,
)
    ensures
        reparented(objects, ids, node).contains_key(other) == objects.contains_key(other),
        objects.contains_key(other) ==> match objects[other] {
            Value::Dictionary(entries) => same_but_parent(
                reparented(objects, ids, node)[other],
                entries,
                node,
            ),
            unchanged => reparented(objects, ids, node)[other] == unchanged,
        },
    decreases ids.len(),
{
    if ids.len() > 0 {
        let before = reparented(objects, ids.drop_last(), node);
        let parent = Value::Reference(node);
        lemma_reparented(objects, ids.drop_last(), node, other);
        lemma_with_entry(before, ids.last(), key("Parent"), parent, other);
        if objects.contains_key(other) {
            if let Value::Dictionary(entries) = objects[other] {
                assert(entries.insert(key("Parent"), parent).insert(key("Parent"), parent)
                    =~= entries.insert(key("Parent"), parent));
            }
        }
    }
}

/// After a rebuild the page-tree node lists exactly the given pages, in
/// order, and its count is their number.
pub proof fn law_rebuilt_node(model: DocumentModel, node: ObjectId, ids: Seq<ObjectId>)
    requires
        ids.len() <= i64::MAX,
    ensures
        rebuilt(model, node, ids).objects.contains_key(node),
        rebuilt(model, node, ids).objects[node] matches Value::Dictionary(entries)
            && entries.contains_key(key("Kids")) && entries[key("Kids")] == Value::Array(
            references(ids),
        ) && entries.contains_key(key("Count")) && entries[key("Count")] == Value::Integer(
            ids.len() as i64,
        ) && entries.contains_key(key("Type")) && entries[key("Type")] == Value::Name(
            key("Pages"),
        ),
{
    lemma_page_tree_keys_differ();
    lemma_reparented(with_node(model.objects, node, ids), ids, node, node);
}

/// A rebuild leaves the other entries of the page-tree node as they were:
/// all but its type, its count, its children and, should the node be among
/// the pages, its parent.
pub proof fn law_rebuilt_node_keeps(
    model: DocumentModel,
    node: ObjectId,
    ids: Seq<ObjectId>,
    name: Seq<u8>,
)
    requires
        name != key("Type"),
        name != key("Count"),
        name != key("Kids"),
        name != key("Parent"),
    ensures
        rebuilt(model, node, ids).objects[node] matches Value::Dictionary(entries)
            && entries.contains_key(name) == node_entries(model.objects, node).contains_key(name)
            && (entries.contains_key(name) ==> entries[name] == node_entries(
            model.objects,
            node,
        )[name]),
{
    lemma_reparented(with_node(model.objects, node, ids), ids, node, node);
}

/// What a chain of references ends at is there and is no reference.
pub proof fn lemma_chain_reaches(
    objects: Map<ObjectId, Value>,
    value: Value,
    last: Option<ObjectId>,
    hops: nat,
)
    requires
        last matches Some(id) ==> objects.contains_key(id) && objects[id] == value,
    ensures
        chain_end(objects, value, last, hops) matches Some(Some(end)) ==> objects.contains_key(end)
            && !(objects[end] is Reference),
        chain_end(objects, value, last, hops) == Some(None::<ObjectId>) ==> last is None && !(
        value is Reference),
    decreases chain_limit() - hops,
{
    if let Value::Reference(next) = value {
        if objects.contains_key(next) && hops < chain_limit() {
            lemma_chain_reaches(objects, objects[next], Some(next), hops + 1);
        }
    }
}

/// What a lookup reaches is there and is no reference.
pub proof fn lemma_target_reaches(objects: Map<ObjectId, Value>, id: ObjectId)
    ensures
        target(objects, id) matches Some(end) ==> objects.contains_key(end) && !(objects[end]
            is Reference),
{
    if objects.contains_key(id) {
        lemma_chain_reaches(objects, objects[id], None, 0);
    }
}

/// A chain of references ends where it did when an object that is no
/// reference is replaced by another that is none.
pub proof fn lemma_chain_stays(
    objects: Map<ObjectId, Value>,
    at: ObjectId,
    new: Value,
    value: Value,
    last: Option<ObjectId>,
    hops: nat,
)
    requires
        objects.contains_key(at),
        !(objects[at] is Reference),
        !(new is Reference),
    ensures
        chain_end(objects.insert(at, new), value, last, hops) == chain_end(
            objects,
            value,
            last,
            hops,
        ),
    decreases chain_limit() - hops,
{
    if let Value::Reference(next) = value {
        if objects.contains_key(next) && hops < chain_limit() {
            if next == at {
                assert(chain_end(objects, objects[next], Some(next), hops + 1) == Some(Some(next)));
                assert(chain_end(objects.insert(at, new), new, Some(next), hops + 1) == Some(
                    Some(next),
                ));
            } else {
                lemma_chain_stays(objects, at, new, objects[next], Some(next), hops + 1);
            }
        }
    }
}

/// A chain of references that ends somewhere ends there when an object is
/// stored under an id that was free.
pub proof fn lemma_chain_stays_beside(
    objects: Map<ObjectId, Value>,
    at: ObjectId,
    new: Value,
    value: Value,
    last: Option<ObjectId>,
    hops: nat,
)
    requires
        !objects.contains_key(at),
        chain_end(objects, value, last, hops) is Some,
    ensures
        chain_end(objects.insert(at, new), value, last, hops) == chain_end(
            objects,
            value,
            last,
            hops,
        ),
    decreases chain_limit() - hops,
{
    if let Value::Reference(next) = value {
        if objects.contains_key(next) && hops < chain_limit() {
            lemma_chain_stays_beside(objects, at, new, objects[next], Some(next), hops + 1);
        }
    }
}

/// A lookup reaches what it did when an object that is no reference is
/// replaced by another that is none.
pub proof fn lemma_target_stays(
    objects: Map<ObjectId, Value>,
    at: ObjectId,
    new: Value,
    id: ObjectId,
)
    requires
        objects.contains_key(at),
        !(objects[at] is Reference),
        !(new is Reference),
    ensures
        target(objects.insert(at, new), id) == target(objects, id),
{
    if objects.contains_key(id) {
        if id != at {
            lemma_chain_stays(objects, at, new, objects[id], None, 0);
        }
    }
}

/// A chain of references that ends somewhere ends there among more
/// objects.
pub proof fn lemma_chain_in_larger(
    objects: Map<ObjectId, Value>,
    larger: Map<ObjectId, Value>,
    value: Value,
    last: Option<ObjectId>,
    hops: nat,
)
    requires
        objects.submap_of(larger),
        chain_end(objects, value, last, hops) is Some,
    ensures
        chain_end(larger, value, last, hops) == chain_end(objects, value, last, hops),
    decreases chain_limit() - hops,
{
    if let Value::Reference(next) = value {
        if objects.contains_key(next) && hops < chain_limit() {
            assert(larger.contains_key(next) && larger[next] == objects[next]);
            lemma_chain_in_larger(objects, larger, objects[next], Some(next), hops + 1);
        }
    }
}

/// A lookup that reaches something reaches it among more objects.
pub proof fn lemma_target_in_larger(
    objects: Map<ObjectId, Value>,
    larger: Map<ObjectId, Value>,
    id: ObjectId,
)
    requires
        objects.submap_of(larger),
        target(objects, id) is Some,
    ensures
        target(larger, id) == target(objects, id),
{
    assert(larger.contains_key(id) && larger[id] == objects[id]);
    lemma_chain_in_larger(objects, larger, objects[id], None, 0);
}

/// Giving a dictionary an entry changes nothing in what a lookup reaches.
pub proof fn lemma_with_entry_target(
    objects: Map<ObjectId, Value>,
    id: ObjectId,
    name: Seq<u8>,
    value: Value,
    other: ObjectId,
)
    ensures
        target(with_entry(objects, id, name, value), other) == target(objects, other),
{
    if let Some(end) = target(objects, id) {
        if objects.contains_key(end) && objects[end] is Dictionary {
            lemma_target_stays(
                objects,
                end,
                Value::Dictionary(objects[end]->Dictionary_0.insert(name, value)),
                other,
            );
        }
    }
}

/// Giving pages their parent changes nothing in what a lookup reaches.
pub proof fn lemma_reparented_target(
    objects: Map<ObjectId, Value>,
    ids: Seq<ObjectId>,
    node: ObjectId,
    other: ObjectId,
)
    ensures
        target(reparented(objects, ids, node), other) == target(objects, other),
    decreases ids.len(),
{
    if ids.len() > 0 {
        lemma_reparented_target(objects, ids.drop_last(), node, other);
        lemma_with_entry_target(
            reparented(objects, ids.drop_last(), node),
            ids.last(),
            key("Parent"),
            Value::Reference(node),
            other,
        );
    }
}

/// Whether no reference is stored under `node`.
pub open spec fn no_reference_at(objects: Map<ObjectId, Value>, node: ObjectId) -> bool {
    !(objects.contains_key(node) && objects[node] is Reference)
}

/// Writing the page-tree node changes nothing in what a lookup reaches,
/// where the lookup reached something and no reference was stored under the
/// node's id.
pub proof fn lemma_with_node_target(
    objects: Map<ObjectId, Value>,
    node: ObjectId,
    ids: Seq<ObjectId>,
    other: ObjectId,
)
    requires
        no_reference_at(objects, node),
        target(objects, other) is Some,
    ensures
        target(with_node(objects, node, ids), other) == target(objects, other),
{
    let new = pages_node(node_entries(objects, node), ids);
    if objects.contains_key(node) {
        lemma_target_stays(objects, node, new, other);
    } else {
        lemma_chain_stays_beside(objects, node, new, objects[other], None, 0);
    }
}

/// The dictionary that a lookup of a page reaches has the node as its
/// parent once the pages have been given their parent, and is otherwise as
/// it was.
pub proof fn lemma_reparented_page(
    objects: Map<ObjectId, Value>,
    node: ObjectId,
    ids: Seq<ObjectId>,
    i: int,
)
    requires
        0 <= i < ids.len(),
        target(objects, ids[i]) matches Some(end) && objects.contains_key(end) && objects[end]
            is Dictionary,
    ensures
        reparented(objects, ids, node)[target(objects, ids[i])->Some_0] == Value::Dictionary(
            objects[target(objects, ids[i])->Some_0]->Dictionary_0.insert(
                key("Parent"),
                Value::Reference(node),
            ),
        ),
    decreases ids.len(),
{
    let end = target(objects, ids[i])->Some_0;
    let before = reparented(objects, ids.drop_last(), node);
    let parent = Value::Reference(node);
    let entries = objects[end]->Dictionary_0;
    assert(entries.insert(key("Parent"), parent).insert(key("Parent"), parent) =~= entries.insert(
        key("Parent"),
        parent,
    ));
    if i == ids.len() - 1 {
        lemma_reparented(objects, ids.drop_last(), node, end);
        lemma_reparented_target(objects, ids.drop_last(), node, ids[i]);
    } else {
        lemma_reparented_page(objects, node, ids.drop_last(), i);
        lemma_with_entry(before, ids.last(), key("Parent"), parent, end);
    }
}

/// After a rebuild the dictionary that a lookup of a given page reaches,
/// be it stored under the page's id or behind references, has the
/// page-tree node as its parent and is otherwise as it was. Stated where no
/// reference was stored under the node's id and the page is not the node.
pub proof fn law_rebuilt_parents(model: DocumentModel, node: ObjectId, ids: Seq<ObjectId>, i: int)
    requires
        0 <= i < ids.len(),
        no_reference_at(model.objects, node),
        target(model.objects, ids[i]) matches Some(end) && end != node && model.objects[end]
            is Dictionary,
    ensures
        rebuilt(model, node, ids).objects[target(model.objects, ids[i])->Some_0]
            == Value::Dictionary(
            model.objects[target(model.objects, ids[i])->Some_0]->Dictionary_0.insert(
                key("Parent"),
                Value::Reference(node),
            ),
        ),
{
    lemma_target_reaches(model.objects, ids[i]);
    lemma_with_node_target(model.objects, node, ids, ids[i]);
    lemma_reparented_page(with_node(model.objects, node, ids), node, ids, i);
}

/// A rebuild takes no object away, and changes none that is no dictionary
/// but the node itself.
pub proof fn law_rebuilt_keeps(model: DocumentModel, node: ObjectId, ids: Seq<ObjectId>, id: ObjectId)
    requires
        model.objects.contains_key(id),
    ensures
        rebuilt(model, node, ids).objects.contains_key(id),
        id != node ==> match model.objects[id] {
            Value::Dictionary(entries) => same_but_parent(
                rebuilt(model, node, ids).objects[id],
                entries,
                node,
            ),
            unchanged => rebuilt(model, node, ids).objects[id] == unchanged,
        },
{
    lemma_reparented(with_node(model.objects, node, ids), ids, node, id);
}

} // verus!
