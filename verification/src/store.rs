//! The object store: `lopdf` behind contracts. Nothing in this file is
//! proved; each contract says what the named `lopdf` item does to the model of
//! the values it touches.

use vstd::prelude::*;
use crate::model::{key, no_entries, DocumentModel, Entries, ObjectId, Value};
use crate::pdf::EncryptionRequest;

verus! {

#[verifier::external_type_specification]
#[verifier::external_body]
pub struct ExDocument(lopdf::Document);

#[verifier::external_type_specification]
#[verifier::external_body]
pub struct ExObject(lopdf::Object);

#[verifier::external_type_specification]
#[verifier::external_body]
pub struct ExDictionary(lopdf::Dictionary);

#[verifier::external_type_specification]
#[verifier::external_body]
pub struct ExError(lopdf::Error);

#[verifier::external_type_specification]
#[verifier::external_body]
pub struct ExEncryptionState(lopdf::EncryptionState);

#[verifier::external_type_specification]
#[verifier::external_body]
pub struct ExOperation(lopdf::content::Operation);

/// The objects, trailer and highest object number of a document.
pub uninterp spec fn document_model(doc: lopdf::Document) -> DocumentModel;

/// The ids of a document's pages as `Document::get_pages` reports them, in
/// page order.
pub uninterp spec fn document_pages(doc: lopdf::Document) -> Seq<ObjectId>;

/// The document that `Document::renumber_objects_with` makes of `doc` when
/// it numbers the objects from `start`.
pub uninterp spec fn renumbered(doc: lopdf::Document, start: u32) -> lopdf::Document;

/// What an object holds.
pub uninterp spec fn object_value(object: lopdf::Object) -> Value;

/// What a dictionary holds.
pub uninterp spec fn dictionary_entries(dictionary: lopdf::Dictionary) -> Entries;

/// The operator of a content operation, and the values of its operands.
pub uninterp spec fn operation_parts(operation: lopdf::content::Operation) -> (Seq<char>, Seq<Value>);

/// The bytes that `Content::encode` writes for operations with the given
/// operators and operands; nothing when it fails.
pub uninterp spec fn encoded_content(operations: Seq<(Seq<char>, Seq<Value>)>) -> Option<Seq<u8>>;

/// The parts of a list of operations, in order.
pub open spec fn operations_parts(operations: Seq<lopdf::content::Operation>) -> Seq<
    (Seq<char>, Seq<Value>),
> {
    operations.map_values(|operation: lopdf::content::Operation| operation_parts(operation))
}

/// Whether every operand is an integer or a name.
pub open spec fn plain_operands(operations: Seq<(Seq<char>, Seq<Value>)>) -> bool {
    forall|i: int, j: int|
        0 <= i < operations.len() && 0 <= j < operations[i].1.len() ==> (
        #[trigger] operations[i].1[j] is Integer || operations[i].1[j] is Name)
}

/// The document that `Document::decompress` makes of `doc`.
pub uninterp spec fn decompressed(doc: lopdf::Document) -> lopdf::Document;

/// The document that `Document::compress` makes of `doc`.
pub uninterp spec fn compressed(doc: lopdf::Document) -> lopdf::Document;

/// The document that `Document::prune_objects` makes of `doc`.
pub uninterp spec fn pruned(doc: lopdf::Document) -> lopdf::Document;

/// Whether a name says how the bytes of a stream are encoded.
pub open spec fn is_encoding_entry(name: Seq<u8>) -> bool {
    name == key("Filter") || name == key("DecodeParms") || name == key("Length")
}

/// Whether the dictionary of a stream is as it was but for the entries
/// that say how its bytes are encoded.
pub open spec fn same_but_encoding(before: Entries, after: Entries) -> bool {
    forall|name: Seq<u8>|
        !is_encoding_entry(name) ==> (#[trigger] after.contains_key(name)) == before.contains_key(
            name,
        ) && (before.contains_key(name) ==> after[name] == before[name])
}

/// Whether `after` is `before` but for the encoding of a stream: every
/// value that is no stream is as it was, and a stream is a stream with the
/// same dictionary but for the entries that say how its bytes are encoded.
pub open spec fn same_but_streams(before: Value, after: Value) -> bool {
    if before is Stream {
        after is Stream && same_but_encoding(before->Stream_0, after->Stream_0)
    } else {
        after == before
    }
}

/// Whether `after` is `before` with its streams encoded anew: the same
/// trailer, the same ids, and every object as it was but for the encoding
/// of a stream.
pub open spec fn reencoded(before: DocumentModel, after: DocumentModel) -> bool {
    &&& after.trailer == before.trailer
    &&& after.max_id == before.max_id
    &&& after.objects.dom() == before.objects.dom()
    &&& forall|id: ObjectId| #[trigger]
        before.objects.contains_key(id) ==> same_but_streams(
            before.objects[id],
            after.objects[id],
        )
}

/// The number of references that a lookup follows before it gives up.
pub open spec fn chain_limit() -> nat {
    128
}

/// Where a chain of references ends that starts with `value`, after `hops`
/// references have been followed and `last` was the last id looked up: the
/// id of the first object that is no reference, which is `last` when
/// `value` is none. Nothing when a reference leads to no object or when
/// more than 128 references would have to be followed.
pub open spec fn chain_end(
    objects: Map<ObjectId, Value>,
    value: Value,
    last: Option<ObjectId>,
    hops: nat,
) -> Option<Option<ObjectId>>
    decreases chain_limit() - hops,
{
    match value {
        Value::Reference(next) => if !objects.contains_key(next) || hops >= chain_limit() {
            None
        } else {
            chain_end(objects, objects[next], Some(next), hops + 1)
        },
        _ => Some(last),
    }
}

/// The id of the object that a lookup of `id` reaches: `id` itself unless a
/// reference is stored there, else the end of the chain of references.
pub open spec fn target(objects: Map<ObjectId, Value>, id: ObjectId) -> Option<ObjectId> {
    if !objects.contains_key(id) {
        None
    } else {
        match chain_end(objects, objects[id], None, 0) {
            None => None,
            Some(None) => Some(id),
            Some(Some(end)) => Some(end),
        }
    }
}

/// The values of a list of objects, in order.
pub open spec fn object_values(objects: Seq<lopdf::Object>) -> Seq<Value> {
    objects.map_values(|object: lopdf::Object| object_value(object))
}

/// `Document::with_version`: a document without objects, with an empty
/// trailer, that has handed out no object number yet.
#[verifier::external_body]
pub(crate) fn new_document(version: &str) -> (doc: lopdf::Document)
    ensures
        document_model(doc) == (DocumentModel {
            objects: Map::empty(),
            trailer: no_entries(),
            max_id: 0,
        }),
{
    lopdf::Document::with_version(version)
}

/// `Document::clone`: the same document once more.
#[verifier::external_body]
pub(crate) fn clone_document(doc: &lopdf::Document) -> (copy: lopdf::Document)
    ensures
        copy == *doc,
{
    doc.clone()
}

/// The keys of `Document::objects`: every object id of the document, once.
#[verifier::external_body]
pub(crate) fn object_ids(doc: &lopdf::Document) -> (ids: Vec<ObjectId>)
    ensures
        ids@.no_duplicates(),
        ids@.to_set() == document_model(*doc).objects.dom(),
{
    doc.objects.keys().copied().collect()
}

/// `Document::objects`, looked up without following references: a copy of
/// the object stored under `id`, if there is one.
#[verifier::external_body]
pub(crate) fn object_at(doc: &lopdf::Document, id: ObjectId) -> (found: Option<lopdf::Object>)
    ensures
        match found {
            Some(object) => document_model(*doc).objects.contains_key(id) && object_value(object)
                == document_model(*doc).objects[id],
            None => !document_model(*doc).objects.contains_key(id),
        },
{
    doc.objects.get(&id).cloned()
}

/// `Document::set_object`: stores `object` under `id`, in place of what was
/// there; trailer and highest object number stay.
#[verifier::external_body]
pub(crate) fn put_object(doc: &mut lopdf::Document, id: ObjectId, object: lopdf::Object)
    ensures
        document_model(*final(doc)) == (DocumentModel {
            objects: document_model(*old(doc)).objects.insert(id, object_value(object)),
            ..document_model(*old(doc))
        }),
{
    doc.set_object(id, object);
}

/// `Document::renumber_objects_with`: the objects get the numbers from
/// `start` on, one each, and the highest of them becomes the document's
/// highest object number. It counts pages in an `i32` and numbers in a
/// `u32`, hence the bounds.
#[verifier::external_body]
pub(crate) fn renumber(doc: &mut lopdf::Document, start: u32)
    requires
        1 <= start,
        document_model(*old(doc)).objects.dom().finite(),
        document_model(*old(doc)).objects.dom().len() <= i32::MAX,
        start + document_model(*old(doc)).objects.dom().len() <= u32::MAX,
    ensures
        *final(doc) == renumbered(*old(doc), start),
        document_model(*final(doc)).objects.dom().finite(),
        document_model(*final(doc)).objects.dom().len() <= document_model(
            *old(doc),
        ).objects.dom().len(),
        document_model(*final(doc)).max_id + 1 == start + document_model(
            *final(doc),
        ).objects.dom().len(),
        forall|id: ObjectId| #[trigger]
            document_model(*final(doc)).objects.contains_key(id) ==> start <= id.0
                <= document_model(*final(doc)).max_id,
{
    doc.renumber_objects_with(start);
}

/// `Document::get_pages`: the ids of the pages, in page order.
#[verifier::external_body]
pub(crate) fn page_ids(doc: &lopdf::Document) -> (ids: Vec<ObjectId>)
    ensures
        ids@ == document_pages(*doc),
{
    doc.get_pages().into_values().collect()
}

/// `Document::trailer`: a copy of the trailer.
#[verifier::external_body]
pub(crate) fn trailer(doc: &lopdf::Document) -> (copy: lopdf::Dictionary)
    ensures
        dictionary_entries(copy) == document_model(*doc).trailer,
{
    doc.trailer.clone()
}

/// `Document::trailer`, assigned: the trailer becomes `trailer`; objects and
/// highest object number stay.
#[verifier::external_body]
pub(crate) fn set_trailer(doc: &mut lopdf::Document, trailer: lopdf::Dictionary)
    ensures
        document_model(*final(doc)) == (DocumentModel {
            trailer: dictionary_entries(trailer),
            ..document_model(*old(doc))
        }),
{
    doc.trailer = trailer;
}

/// `Document::max_id`: the highest object number handed out so far.
#[verifier::external_body]
pub(crate) fn max_id(doc: &lopdf::Document) -> (number: u32)
    ensures
        number == document_model(*doc).max_id,
{
    doc.max_id
}

/// `Document::max_id`, assigned: objects and trailer stay.
#[verifier::external_body]
pub(crate) fn set_max_id(doc: &mut lopdf::Document, number: u32)
    ensures
        document_model(*final(doc)) == (DocumentModel {
            max_id: number,
            ..document_model(*old(doc))
        }),
{
    doc.max_id = number;
}

/// `Document::try_new_object_id`: the next object number with generation 0,
/// which becomes the highest; nothing, and no change, when the numbers have
/// run out.
#[verifier::external_body]
pub(crate) fn new_object_id(doc: &mut lopdf::Document) -> (id: Option<ObjectId>)
    ensures
        match id {
            Some(id) => document_model(*old(doc)).max_id < u32::MAX && id == (
                (document_model(*old(doc)).max_id + 1) as u32,
                0u16,
            ) && document_model(*final(doc)) == (DocumentModel {
                max_id: id.0,
                ..document_model(*old(doc))
            }),
            None => document_model(*old(doc)).max_id == u32::MAX && *final(doc) == *old(doc),
        },
{
    doc.try_new_object_id().ok()
}

/// `Document::dereference`: follows the chain of references that starts
/// with `object` and says the id of the object at its end; no id when
/// `object` is no reference, nothing when a reference leads to no object
/// or when more than 128 references would have to be followed.
#[verifier::external_body]
pub(crate) fn dereference(doc: &lopdf::Document, object: &lopdf::Object) -> (end: Option<
    Option<ObjectId>,
>)
    ensures
        end == chain_end(document_model(*doc).objects, object_value(*object), None, 0),
{
    doc.dereference(object).ok().map(|found| found.0)
}

/// `Dictionary::new`: a dictionary without entries.
#[verifier::external_body]
pub(crate) fn new_dictionary() -> (made: lopdf::Dictionary)
    ensures
        dictionary_entries(made) == no_entries(),
{
    lopdf::Dictionary::new()
}

/// `Dictionary::get`: a copy of the value stored under `name`, if there is
/// one.
#[verifier::external_body]
pub(crate) fn dictionary_get(dictionary: &lopdf::Dictionary, name: &str) -> (found: Option<
    lopdf::Object,
>)
    ensures
        match found {
            Some(object) => dictionary_entries(*dictionary).contains_key(key(name))
                && object_value(object) == dictionary_entries(*dictionary)[key(name)],
            None => !dictionary_entries(*dictionary).contains_key(key(name)),
        },
{
    dictionary.get(name.as_bytes()).ok().cloned()
}

/// `Dictionary::set`: stores `value` under `name`, in place of what was
/// there.
#[verifier::external_body]
pub(crate) fn dictionary_set(dictionary: &mut lopdf::Dictionary, name: &str, value: lopdf::Object)
    ensures
        dictionary_entries(*final(dictionary)) == dictionary_entries(*old(dictionary)).insert(
            key(name),
            object_value(value),
        ),
{
    dictionary.set(name, value);
}

/// `Dictionary::remove`: takes out the entry under `name`, if there is one.
#[verifier::external_body]
pub(crate) fn dictionary_remove(dictionary: &mut lopdf::Dictionary, name: &str)
    ensures
        dictionary_entries(*final(dictionary)) == dictionary_entries(*old(dictionary)).remove(
            key(name),
        ),
{
    dictionary.remove(name.as_bytes());
}

/// `Object::from` an object id: a reference to it.
#[verifier::external_body]
pub(crate) fn reference_object(id: ObjectId) -> (object: lopdf::Object)
    ensures
        object_value(object) == Value::Reference(id),
{
    lopdf::Object::from(id)
}

/// `Object::from` an `i64`: that integer.
#[verifier::external_body]
pub(crate) fn integer_object(number: i64) -> (object: lopdf::Object)
    ensures
        object_value(object) == Value::Integer(number),
{
    lopdf::Object::from(number)
}

/// `Object::from` a string slice: the name with those bytes.
#[verifier::external_body]
pub(crate) fn name_object(name: &str) -> (object: lopdf::Object)
    ensures
        object_value(object) == Value::Name(key(name)),
{
    lopdf::Object::from(name)
}

/// `Object::from` a vector of objects: the array of them.
#[verifier::external_body]
pub(crate) fn array_object(items: Vec<lopdf::Object>) -> (object: lopdf::Object)
    ensures
        object_value(object) == Value::Array(object_values(items@)),
{
    lopdf::Object::from(items)
}

/// `Object::from` a dictionary: that dictionary as an object.
#[verifier::external_body]
pub(crate) fn dictionary_object(dictionary: lopdf::Dictionary) -> (object: lopdf::Object)
    ensures
        object_value(object) == Value::Dictionary(dictionary_entries(dictionary)),
{
    lopdf::Object::from(dictionary)
}

/// `Object::as_reference`: the id referred to, if the object is a
/// reference.
#[verifier::external_body]
pub(crate) fn as_reference(object: &lopdf::Object) -> (id: Option<ObjectId>)
    ensures
        id == match object_value(*object) {
            Value::Reference(id) => Some(id),
            _ => None,
        },
{
    object.as_reference().ok()
}

/// `Object::as_i64`: the number, if the object is an integer.
#[verifier::external_body]
pub(crate) fn as_integer(object: &lopdf::Object) -> (number: Option<i64>)
    ensures
        number == match object_value(*object) {
            Value::Integer(number) => Some(number),
            _ => None,
        },
{
    object.as_i64().ok()
}

/// `Object::as_dict`: a copy of the dictionary, if the object is one (a
/// stream is none).
#[verifier::external_body]
pub(crate) fn as_dictionary(object: &lopdf::Object) -> (dictionary: Option<lopdf::Dictionary>)
    ensures
        match dictionary {
            Some(dictionary) => object_value(*object) == Value::Dictionary(
                dictionary_entries(dictionary),
            ),
            None => !(object_value(*object) is Dictionary),
        },
{
    object.as_dict().ok().cloned()
}

/// `Stream::new`, as an object: a stream with the given bytes, whose
/// dictionary is `dictionary` with the number of bytes as its length.
#[verifier::external_body]
pub(crate) fn stream_object(dictionary: lopdf::Dictionary, content: Vec<u8>) -> (object:
    lopdf::Object)
    ensures
        object_value(object) == Value::Stream(
            dictionary_entries(dictionary).insert(
                key("Length"),
                Value::Integer(content@.len() as i64),
            ),
            content@,
        ),
{
    lopdf::Object::Stream(lopdf::Stream::new(dictionary, content))
}

/// `Document::compress`: encodes streams anew, which changes their bytes
/// and their entries for filter and length, and touches nothing else.
#[verifier::external_body]
pub(crate) fn compress(doc: &mut lopdf::Document)
    ensures
        *final(doc) == compressed(*old(doc)),
        reencoded(document_model(*old(doc)), document_model(*final(doc))),
{
    doc.compress();
}

/// `Document::decompress`: decodes streams, which changes their bytes and
/// their entries for filter, decoding parameters and length, and touches
/// nothing else.
#[verifier::external_body]
pub(crate) fn decompress(doc: &mut lopdf::Document)
    ensures
        *final(doc) == decompressed(*old(doc)),
        reencoded(document_model(*old(doc)), document_model(*final(doc))),
{
    doc.decompress();
}

/// `Document::prune_objects`: removes objects that nothing refers to and
/// changes none of those that stay.
#[verifier::external_body]
pub(crate) fn prune(doc: &mut lopdf::Document)
    ensures
        *final(doc) == pruned(*old(doc)),
        document_model(*final(doc)).trailer == document_model(*old(doc)).trailer,
        document_model(*final(doc)).max_id == document_model(*old(doc)).max_id,
        document_model(*final(doc)).objects.submap_of(document_model(*old(doc)).objects),
{
    doc.prune_objects();
}

/// `EncryptionState::try_from` an `EncryptionVersion::V2`, which is the
/// RC4 handler with a key of chosen length: the keys for encrypting `doc`
/// as `request` asks, the permissions made by
/// `Permissions::from_bits_truncate`. A key of less than one byte makes the
/// store panic, hence the bound.
#[verifier::external_body]
pub(crate) fn encryption_state(doc: &lopdf::Document, request: &EncryptionRequest) -> (state: Result<
    lopdf::EncryptionState,
    lopdf::Error,
>)
    requires
        8 <= request.key_length,
{
    let version = lopdf::EncryptionVersion::V2 {
        document: doc,
        owner_password: &request.owner_password,
        user_password: &request.user_password,
        key_length: request.key_length,
        permissions: lopdf::Permissions::from_bits_truncate(request.permissions),
    };
    lopdf::EncryptionState::try_from(version)
}

/// `Document::encrypt`: on success the encryption dictionary is stored
/// under the next object number, with generation 0, and the trailer refers
/// to it; the other objects keep their ids.
#[verifier::external_body]
pub(crate) fn encrypt(doc: &mut lopdf::Document, state: &lopdf::EncryptionState) -> (done: Result<
    (),
    lopdf::Error,
>)
    ensures
        done is Ok ==> document_model(*old(doc)).max_id < u32::MAX && document_model(
            *final(doc),
        ).max_id == document_model(*old(doc)).max_id + 1 && document_model(
            *final(doc),
        ).objects.dom() == document_model(*old(doc)).objects.dom().insert(
            (document_model(*final(doc)).max_id, 0u16),
        ) && document_model(*final(doc)).trailer == document_model(*old(doc)).trailer.insert(
            key("Encrypt"),
            Value::Reference((document_model(*final(doc)).max_id, 0u16)),
        ),
{
    doc.encrypt(state)
}

/// `Error::to_string`: the store's description of a failure.
#[verifier::external_body]
pub(crate) fn error_text(error: &lopdf::Error) -> (text: String) {
    error.to_string()
}

/// `Operation::new`: a content operation.
#[verifier::external_body]
pub(crate) fn operation(operator: &str, operands: Vec<lopdf::Object>) -> (made:
    lopdf::content::Operation)
    ensures
        operation_parts(made) == (operator@, object_values(operands@)),
{
    lopdf::content::Operation::new(operator, operands)
}

/// `Content::encode`: the bytes of a content stream that holds the given
/// operations.
#[verifier::external_body]
pub(crate) fn encode_content(operations: Vec<lopdf::content::Operation>) -> (bytes: Result<
    Vec<u8>,
    lopdf::Error,
>)
    requires
        plain_operands(operations_parts(operations@)),
    ensures
        match bytes {
            Ok(bytes) => encoded_content(operations_parts(operations@)) == Some(bytes@),
            Err(_) => encoded_content(operations_parts(operations@)) is None,
        },
{
    lopdf::content::Content { operations }.encode()
}

} // verus!
