use vstd::prelude::*;
use crate::ShrinkError;

verus! {

// The trusted boundary to the lopdf PDF library: the object graph and the
// calls that load, read, edit and serialize it. Verus believes each contract
// below; each doc comment names the lopdf item relied on.

#[verifier::external_type_specification]
#[verifier::external_body]
pub struct ExDocument(lopdf::Document);

#[verifier::external_type_specification]
#[verifier::external_body]
pub struct ExObject(lopdf::Object);

#[verifier::external_type_specification]
#[verifier::external_body]
pub struct ExDictionary(lopdf::Dictionary);

/// Relies on lopdf::Document::load_mem: parses a byte buffer into an object
/// graph, failing on bytes that are not a readable PDF.
#[verifier::external_body]
pub(crate) fn load_document(bytes: &[u8]) -> (r: Result<lopdf::Document, ShrinkError>)
    ensures
        r is Err ==> r->Err_0 is Parse,
{
    lopdf::Document::load_mem(bytes).map_err(|_e| ShrinkError::Parse)
}

/// Relies on lopdf::Document::catalog: the document's root catalog
/// dictionary, if the trailer names one.
#[verifier::external_body]
pub(crate) fn doc_catalog<'a>(doc: &'a lopdf::Document) -> (r: Option<&'a lopdf::Dictionary>) {
    doc.catalog().ok()
}

/// Relies on lopdf::Dictionary::get: the entry under the given key, if any.
#[verifier::external_body]
pub(crate) fn dict_get<'a>(dict: &'a lopdf::Dictionary, key: &str) -> (r: Option<
    &'a lopdf::Object,
>) {
    dict.get(key.as_bytes()).ok()
}

/// Relies on lopdf::Object::as_reference: the target id when the object is an
/// indirect reference, None otherwise.
#[verifier::external_body]
pub(crate) fn obj_as_reference(obj: &lopdf::Object) -> (r: Option<(u32, u16)>) {
    obj.as_reference().ok()
}

/// Relies on lopdf::Document::get_dictionary: the dictionary object stored
/// under the given id, if that id resolves to a dictionary.
#[verifier::external_body]
pub(crate) fn doc_get_dictionary<'a>(doc: &'a lopdf::Document, id: (u32, u16)) -> (r: Option<
    &'a lopdf::Dictionary,
>) {
    doc.get_dictionary(id).ok()
}

/// Relies on lopdf::Object::as_dict: the dictionary when the object holds one
/// directly, None otherwise.
#[verifier::external_body]
pub(crate) fn obj_as_dict<'a>(obj: &'a lopdf::Object) -> (r: Option<&'a lopdf::Dictionary>) {
    obj.as_dict().ok()
}

/// Relies on lopdf::Object::as_array: the element list when the object is an
/// array, None otherwise.
#[verifier::external_body]
pub(crate) fn obj_as_array<'a>(obj: &'a lopdf::Object) -> (r: Option<&'a Vec<lopdf::Object>>) {
    obj.as_array().ok()
}

/// Relies on lopdf::Object::as_i64: the value when the object is an integer,
/// None otherwise.
#[verifier::external_body]
pub(crate) fn obj_as_i64(obj: &lopdf::Object) -> (r: Option<i64>) {
    obj.as_i64().ok()
}

/// Relies on lopdf::Object::as_str: the raw bytes when the object is a PDF
/// string, None otherwise.
#[verifier::external_body]
pub(crate) fn obj_as_string_bytes<'a>(obj: &'a lopdf::Object) -> (r: Option<&'a [u8]>) {
    obj.as_str().ok()
}

/// Relies on lopdf::Document::get_pages: the page tree numbers its pages
/// consecutively from 1 in document order, so the ascending key list is
/// 1, 2, ... up to the page count (page numbers are 32-bit, so a count at the
/// 32-bit limit is the machine bound).
#[verifier::external_body]
pub(crate) fn page_numbers(doc: &lopdf::Document) -> (r: Vec<u32>)
    ensures
        r@.len() <= u32::MAX as usize ==> (forall|i: int|
            0 <= i < r@.len() ==> #[trigger] r@[i] as int == i + 1),
{
    doc.get_pages().into_keys().collect()
}

/// Relies on lopdf::Document::delete_pages: removes each listed page number
/// from the page tree, adjusting the tree's page counts.
#[verifier::external_body]
pub(crate) fn delete_document_pages(doc: &mut lopdf::Document, pages: &Vec<u32>) {
    doc.delete_pages(pages.as_slice());
}

/// Relies on lopdf::Document::prune_objects: drops every object that is no
/// longer reachable from the document root.
#[verifier::external_body]
pub(crate) fn prune_document(doc: &mut lopdf::Document) {
    let _ = doc.prune_objects();
}

/// Relies on lopdf::Document::save_to: serializes the object graph as a PDF
/// byte stream.
#[verifier::external_body]
pub(crate) fn save_document(doc: &mut lopdf::Document) -> (r: Result<Vec<u8>, ShrinkError>)
    ensures
        r is Err ==> r->Err_0 is Serialize,
{
    let mut buffer: Vec<u8> = Vec::new();
    match doc.save_to(&mut std::io::Cursor::new(&mut buffer)) {
        Ok(_) => Ok(buffer),
        Err(_) => Err(ShrinkError::Serialize),
    }
}

} // verus!
