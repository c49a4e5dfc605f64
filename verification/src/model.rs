//! The mathematical model of a document: its objects as values, keyed by
//! object id.

use vstd::prelude::*;
use vstd::string::StringSliceAdditionalSpecFns;

verus! {

/// An object identifier: object number and generation number.
pub type ObjectId = (u32, u16);

/// The entries of a dictionary, by name.
pub type Entries = Map<Seq<u8>, Value>;

/// What an object holds. A real number is modelled without its digits, a
/// stream without the way its bytes are to be read.
pub enum Value {
    Null,
    Boolean(bool),
    Integer(i64),
    Real,
    Name(Seq<u8>),
    Text(Seq<u8>),
    Array(Seq<Value>),
    Dictionary(Entries),
    Stream(Entries, Seq<u8>),
    Reference(ObjectId),
}

/// What a document holds: the object map, the trailer and the highest object
/// number handed out so far.
pub struct DocumentModel {
    pub objects: Map<ObjectId, Value>,
    pub trailer: Entries,
    pub max_id: u32,
}

/// A dictionary without entries.
pub open spec fn no_entries() -> Entries {
    Map::empty()
}

/// The bytes of a dictionary key or of a name.
pub open spec fn key(name: &str) -> Seq<u8> {
    name.spec_bytes()
}

/// The id that `entries` refers to under `name`, if it holds a reference
/// there.
pub open spec fn reference_at(entries: Entries, name: Seq<u8>) -> Option<ObjectId> {
    if entries.contains_key(name) {
        match entries[name] {
            Value::Reference(id) => Some(id),
            _ => None,
        }
    } else {
        None
    }
}

/// One reference for each id, in order.
pub open spec fn references(ids: Seq<ObjectId>) -> Seq<Value> {
    ids.map_values(|id: ObjectId| Value::Reference(id))
}

/// The id of the catalog, as the trailer gives it.
pub open spec fn catalog_id(model: DocumentModel) -> Option<ObjectId> {
    reference_at(model.trailer, key("Root"))
}

/// The keys that the page tree uses differ from one another.
pub proof fn lemma_page_tree_keys_differ()
    ensures
        key("Type") != key("Count"),
        key("Type") != key("Kids"),
        key("Type") != key("Parent"),
        key("Count") != key("Kids"),
        key("Count") != key("Parent"),
        key("Kids") != key("Parent"),
{
    reveal_strlit("Type");
    reveal_strlit("Count");
    reveal_strlit("Kids");
    reveal_strlit("Parent");
    vstd::string::is_ascii_spec_bytes("Type");
    vstd::string::is_ascii_spec_bytes("Count");
    vstd::string::is_ascii_spec_bytes("Kids");
    vstd::string::is_ascii_spec_bytes("Parent");
    assert(key("Type")[0] == 'T' as u8);
    assert(key("Kids")[0] == 'K' as u8);
    assert(key("Count")[0] == 'C' as u8);
}

} // verus!
