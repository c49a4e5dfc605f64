//! The single-page wrap: a document of one page that shows one image.

use vstd::prelude::*;
use crate::collector::page_tree_root;
use crate::error::{PdfError, ReferenceFault};
use crate::model::{key, no_entries, DocumentModel, Entries, ObjectId, Value};
use crate::store::{
    array_object, dictionary_object, dictionary_set, document_model, encode_content,
    encoded_content, error_text, integer_object, name_object, new_dictionary, new_document,
    is_encoding_entry, new_object_id, object_values, operation, operations_parts, put_object,
    reencoded, reference_object, same_but_streams, set_trailer, stream_object,
};

verus! {

/// The content operations that draw the image over the whole page: save
/// the graphics state, scale the unit square to the page, paint the image,
/// restore the state.
pub open spec fn placement_operations(width: u32, height: u32) -> Seq<(Seq<char>, Seq<Value>)> {
    seq![
        ("q"@, Seq::empty()),
        (
            "cm"@,
            seq![
                Value::Integer(width as i64),
                Value::Integer(0),
                Value::Integer(0),
                Value::Integer(height as i64),
                Value::Integer(0),
                Value::Integer(0),
            ],
        ),
        ("Do"@, seq![Value::Name(key("Im0"))]),
        ("Q"@, Seq::empty()),
    ]
}

/// A stream with the given dictionary and bytes.
pub open spec fn stream_value(entries: Entries, content: Seq<u8>) -> Value {
    Value::Stream(entries.insert(key("Length"), Value::Integer(content.len() as i64)), content)
}

/// The dictionary of an image of the given size with 8-bit RGB samples.
pub open spec fn image_entries(width: u32, height: u32) -> Entries {
    no_entries().insert(key("Type"), Value::Name(key("XObject"))).insert(
        key("Subtype"),
        Value::Name(key("Image")),
    ).insert(key("Width"), Value::Integer(width as i64)).insert(
        key("Height"),
        Value::Integer(height as i64),
    ).insert(key("ColorSpace"), Value::Name(key("DeviceRGB"))).insert(
        key("BitsPerComponent"),
        Value::Integer(8),
    )
}

/// A page of the size of the image, with the given parent, content stream
/// and image.
pub open spec fn page_value(
    width: u32,
    height: u32,
    parent: ObjectId,
    contents: ObjectId,
    image: ObjectId,
) -> Value {
    Value::Dictionary(
        no_entries().insert(key("Type"), Value::Name(key("Page"))).insert(
            key("Parent"),
            Value::Reference(parent),
        ).insert(
            key("MediaBox"),
            Value::Array(
                seq![
                    Value::Integer(0),
                    Value::Integer(0),
                    Value::Integer(width as i64),
                    Value::Integer(height as i64),
                ],
            ),
        ).insert(key("Contents"), Value::Reference(contents)).insert(
            key("Resources"),
            Value::Dictionary(
                no_entries().insert(
                    key("XObject"),
                    Value::Dictionary(no_entries().insert(key("Im0"), Value::Reference(image))),
                ),
            ),
        ),
    )
}

/// A page-tree node with the one child `page`.
pub open spec fn single_page_node(page: ObjectId) -> Value {
    Value::Dictionary(
        no_entries().insert(key("Type"), Value::Name(key("Pages"))).insert(
            key("Kids"),
            Value::Array(seq![Value::Reference(page)]),
        ).insert(key("Count"), Value::Integer(1)),
    )
}

/// A catalog whose page tree is `pages`.
pub open spec fn catalog_value(pages: ObjectId) -> Value {
    Value::Dictionary(
        no_entries().insert(key("Type"), Value::Name(key("Catalog"))).insert(
            key("Pages"),
            Value::Reference(pages),
        ),
    )
}

/// The document of one page that shows the image: page-tree node, content
/// stream, page, image and catalog, under the object numbers 1 to 5.
pub open spec fn single_page_model(width: u32, height: u32, content: Seq<u8>, rgb: Seq<u8>) -> DocumentModel {
    DocumentModel {
        objects: Map::<ObjectId, Value>::empty().insert(
            (4u32, 0u16),
            stream_value(image_entries(width, height), rgb),
        ).insert((2u32, 0u16), stream_value(no_entries(), content)).insert(
            (3u32, 0u16),
            page_value(width, height, (1u32, 0u16), (2u32, 0u16), (4u32, 0u16)),
        ).insert((1u32, 0u16), single_page_node((3u32, 0u16))).insert(
            (5u32, 0u16),
            catalog_value((1u32, 0u16)),
        ),
        trailer: no_entries().insert(key("Root"), Value::Reference((5u32, 0u16))),
        max_id: 5,
    }
}

/// The bytes of the content stream that draws the image over the whole
/// page.
pub fn placement_content(width: u32, height: u32) -> (content: Result<Vec<u8>, PdfError>)
    ensures
        match encoded_content(placement_operations(width, height)) {
            Some(bytes) => content matches Ok(made) && made@ == bytes,
            None => content matches Err(PdfError::Io(_)),
        },
{
    let mut operations: Vec<lopdf::content::Operation> = Vec::new();
    operations.push(operation("q", Vec::new()));
    let mut matrix: Vec<lopdf::Object> = Vec::new();
    matrix.push(integer_object(width as i64));
    matrix.push(integer_object(0));
    matrix.push(integer_object(0));
    matrix.push(integer_object(height as i64));
    matrix.push(integer_object(0));
    matrix.push(integer_object(0));
    operations.push(operation("cm", matrix));
    let mut image: Vec<lopdf::Object> = Vec::new();
    image.push(name_object("Im0"));
    operations.push(operation("Do", image));
    operations.push(operation("Q", Vec::new()));
    proof {
        let parts = operations_parts(operations@);
        let wanted = placement_operations(width, height);
        assert(parts[0].1 =~= wanted[0].1);
        assert(parts[1].1 =~= wanted[1].1);
        assert(parts[2].1 =~= wanted[2].1);
        assert(parts[3].1 =~= wanted[3].1);
        assert(parts =~= wanted);
    }
    match encode_content(operations) {
        Ok(bytes) => Ok(bytes),
        Err(error) => Err(PdfError::Io(error_text(&error))),
    }
}

/// Builds the document of one page that shows an image of the given size,
/// from the content stream's bytes and the image's RGB samples.
pub fn single_page_document(width: u32, height: u32, content: Vec<u8>, rgb: Vec<u8>) -> (doc:
    lopdf::Document)
    ensures
        document_model(doc) == single_page_model(width, height, content@, rgb@),
{
    let mut doc = new_document("1.5");
    let pages_id = new_object_id(&mut doc).unwrap();
    let content_id = new_object_id(&mut doc).unwrap();
    let page_id = new_object_id(&mut doc).unwrap();
    let image_id = new_object_id(&mut doc).unwrap();
    let catalog_id = new_object_id(&mut doc).unwrap();

    let mut image = new_dictionary();
    dictionary_set(&mut image, "Type", name_object("XObject"));
    dictionary_set(&mut image, "Subtype", name_object("Image"));
    dictionary_set(&mut image, "Width", integer_object(width as i64));
    dictionary_set(&mut image, "Height", integer_object(height as i64));
    dictionary_set(&mut image, "ColorSpace", name_object("DeviceRGB"));
    dictionary_set(&mut image, "BitsPerComponent", integer_object(8));
    put_object(&mut doc, image_id, stream_object(image, rgb));
    put_object(&mut doc, content_id, stream_object(new_dictionary(), content));

    let mut media_box: Vec<lopdf::Object> = Vec::new();
    media_box.push(integer_object(0));
    media_box.push(integer_object(0));
    media_box.push(integer_object(width as i64));
    media_box.push(integer_object(height as i64));
    assert(object_values(media_box@) =~= seq![
        Value::Integer(0),
        Value::Integer(0),
        Value::Integer(width as i64),
        Value::Integer(height as i64),
    ]);
    let mut images = new_dictionary();
    dictionary_set(&mut images, "Im0", reference_object(image_id));
    let mut resources = new_dictionary();
    dictionary_set(&mut resources, "XObject", dictionary_object(images));
    let mut page = new_dictionary();
    dictionary_set(&mut page, "Type", name_object("Page"));
    dictionary_set(&mut page, "Parent", reference_object(pages_id));
    dictionary_set(&mut page, "MediaBox", array_object(media_box));
    dictionary_set(&mut page, "Contents", reference_object(content_id));
    dictionary_set(&mut page, "Resources", dictionary_object(resources));
    put_object(&mut doc, page_id, dictionary_object(page));

    let mut kids: Vec<lopdf::Object> = Vec::new();
    kids.push(reference_object(page_id));
    assert(object_values(kids@) =~= seq![Value::Reference(page_id)]);
    let mut pages = new_dictionary();
    dictionary_set(&mut pages, "Type", name_object("Pages"));
    dictionary_set(&mut pages, "Kids", array_object(kids));
    dictionary_set(&mut pages, "Count", integer_object(1));
    put_object(&mut doc, pages_id, dictionary_object(pages));

    let mut catalog = new_dictionary();
    dictionary_set(&mut catalog, "Type", name_object("Catalog"));
    dictionary_set(&mut catalog, "Pages", reference_object(pages_id));
    put_object(&mut doc, catalog_id, dictionary_object(catalog));

    let mut trailer = new_dictionary();
    dictionary_set(&mut trailer, "Root", reference_object(catalog_id));
    set_trailer(&mut doc, trailer);
    doc
}

/// The single-page document keeps the rules of the page tree, also after
/// its streams have been encoded anew: the trailer leads to the catalog,
/// the catalog to the page-tree node, the node lists the one page with
/// count 1, and the page names the node as its parent. The image keeps its
/// width and its height.
pub proof fn law_single_page_tree(
    width: u32,
    height: u32,
    content: Seq<u8>,
    rgb: Seq<u8>,
    encoded: DocumentModel,
)
    requires
        reencoded(single_page_model(width, height, content, rgb), encoded),
    ensures
        page_tree_root(encoded) == Ok::<(ObjectId, ObjectId), ReferenceFault>(
            ((5u32, 0u16), (1u32, 0u16)),
        ),
        encoded.objects[(1u32, 0u16)] == single_page_node((3u32, 0u16)),
        single_page_node((3u32, 0u16)) matches Value::Dictionary(entries) && entries[key("Kids")]
            == Value::Array(seq![Value::Reference((3u32, 0u16))]) && entries[key("Count")]
            == Value::Integer(1),
        encoded.objects[(3u32, 0u16)] matches Value::Dictionary(entries) && entries[key(
            "Parent",
        )] == Value::Reference((1u32, 0u16)),
        encoded.objects[(4u32, 0u16)] matches Value::Stream(entries, _) && entries[key("Width")]
            == Value::Integer(width as i64) && entries[key("Height")] == Value::Integer(
            height as i64,
        ),
{
    let plain = single_page_model(width, height, content, rgb);
    reveal_strlit("Type");
    reveal_strlit("Kids");
    reveal_strlit("Count");
    reveal_strlit("Parent");
    reveal_strlit("MediaBox");
    reveal_strlit("Contents");
    reveal_strlit("Resources");
    reveal_strlit("Pages");
    vstd::string::is_ascii_spec_bytes("Type");
    vstd::string::is_ascii_spec_bytes("Kids");
    vstd::string::is_ascii_spec_bytes("Count");
    vstd::string::is_ascii_spec_bytes("Parent");
    vstd::string::is_ascii_spec_bytes("MediaBox");
    vstd::string::is_ascii_spec_bytes("Contents");
    vstd::string::is_ascii_spec_bytes("Resources");
    vstd::string::is_ascii_spec_bytes("Pages");
    reveal_strlit("Width");
    reveal_strlit("Height");
    reveal_strlit("ColorSpace");
    reveal_strlit("BitsPerComponent");
    reveal_strlit("Length");
    reveal_strlit("Filter");
    reveal_strlit("DecodeParms");
    vstd::string::is_ascii_spec_bytes("Width");
    vstd::string::is_ascii_spec_bytes("Height");
    vstd::string::is_ascii_spec_bytes("ColorSpace");
    vstd::string::is_ascii_spec_bytes("BitsPerComponent");
    vstd::string::is_ascii_spec_bytes("Length");
    vstd::string::is_ascii_spec_bytes("Filter");
    vstd::string::is_ascii_spec_bytes("DecodeParms");
    assert(key("Height")[0] == 'H' as u8);
    assert(key("Length")[0] == 'L' as u8);
    assert(key("Filter")[0] == 'F' as u8);
    assert(plain.objects.contains_key((4u32, 0u16)));
    assert(plain.objects[(4u32, 0u16)] == stream_value(image_entries(width, height), rgb));
    assert(!is_encoding_entry(key("Width")));
    assert(!is_encoding_entry(key("Height")));
    assert(same_but_streams(plain.objects[(4u32, 0u16)], encoded.objects[(4u32, 0u16)]));
    let before = plain.objects[(4u32, 0u16)]->Stream_0;
    let after = encoded.objects[(4u32, 0u16)]->Stream_0;
    assert(before.contains_key(key("Width")) && before[key("Width")] == Value::Integer(
        width as i64,
    ));
    assert(before.contains_key(key("Height")) && before[key("Height")] == Value::Integer(
        height as i64,
    ));
    assert(after.contains_key(key("Width")) == before.contains_key(key("Width")));
    assert(after.contains_key(key("Height")) == before.contains_key(key("Height")));
    assert(plain.objects.contains_key((1u32, 0u16)));
    assert(plain.objects.contains_key((3u32, 0u16)));
    assert(plain.objects.contains_key((5u32, 0u16)));
    assert(plain.objects[(5u32, 0u16)] == catalog_value((1u32, 0u16)));
    assert(plain.objects[(3u32, 0u16)] == page_value(
        width,
        height,
        (1u32, 0u16),
        (2u32, 0u16),
        (4u32, 0u16),
    ));
    assert(plain.objects[(1u32, 0u16)] == single_page_node((3u32, 0u16)));
}

} // verus!
