//! Reading documents and the operations on their pages.

use lopdf::{Dictionary, Object};
use vstd::prelude::*;
use crate::pdf::{is_numbered, PdfDictionary, PdfDocument, PdfObject, PdfPage, PdfStream};

verus! {

/// An object as `lopdf` holds it.
#[verifier::external_type_specification]
#[verifier::external_body]
pub struct LopdfObject(Object);

/// A dictionary as `lopdf` holds it.
#[verifier::external_type_specification]
#[verifier::external_body]
pub struct LopdfDictionary(Dictionary);

/// Turns a dictionary of `lopdf` into one of this library, entry by entry. Nothing is claimed
/// of it.
#[verifier::external_body]
fn dictionary_of(dict: &Dictionary) -> (r: PdfDictionary)
{
    PdfDictionary { entries: dict.iter().map(|(k, object)| (k.clone(), object_of(object))).collect() }
}

/// Turns an object of `lopdf` into one of this library, with the bits of a real number in its
/// place. Nothing is claimed of it.
#[verifier::external_body]
fn object_of(object: &Object) -> (r: PdfObject)
{
    match object {
        Object::Null => PdfObject::Null,
        Object::Boolean(value) => PdfObject::Boolean(*value),
        Object::Integer(value) => PdfObject::Integer(*value),
        Object::Real(value) => PdfObject::Real(value.to_bits()),
        Object::Name(name) => PdfObject::Name(name.clone()),
        Object::String(text, _) => PdfObject::Text(text.clone()),
        Object::Array(items) => PdfObject::Array(items.iter().map(object_of).collect()),
        Object::Dictionary(dict) => PdfObject::Dictionary(dictionary_of(dict)),
        Object::Stream(stream) => {
            PdfObject::Stream(PdfStream { dict: dictionary_of(&stream.dict), content: stream.content.clone() })
        },
        Object::Reference(id) => PdfObject::Reference(*id),
    }
}

/// Whether `document` may be what reading a document from some bytes gives. The packed streams
/// of an encrypted document are read in the order of a hash map, and where one is packed in
/// another, what is kept may depend on it.
pub uninterp spec fn document_outcome(bytes: Seq<u8>, document: Option<PdfDocument>) -> bool;

/// Whether `document` may be what reading a document from some bytes gives, with its pages
/// numbered in order.
pub open spec fn loaded(bytes: Seq<u8>, document: Option<PdfDocument>) -> bool {
    document_outcome(bytes, document) && (document matches Some(read) ==> is_numbered(read))
}

/// Calls `lopdf::Document::load_mem`, and `get_pages` and `get_page_contents` of the document
/// that it gives. Claimed of them: the result is an outcome of reading those bytes, and its
/// pages are numbered from one on, in order. Which bytes are a document, and what it holds, is
/// not stated.
#[verifier::external_body]
pub(crate) fn load_document(bytes: &[u8]) -> (r: Option<PdfDocument>)
    ensures
        document_outcome(bytes@, r),
        r matches Some(document) ==> is_numbered(document),
{
    let document = lopdf::Document::load_mem(bytes).ok()?;
    let objects = document.objects.iter().map(|(id, object)| (*id, object_of(object))).collect();
    let pages = document.get_pages().into_iter().map(|(number, id)| PdfPage {
        number,
        id,
        contents: document.get_page_contents(id),
    }).collect();
    Some(PdfDocument { objects, pages })
}

/// What an operand says: a text, a list of operands, or something else.
pub enum Operand {
    Text(Seq<u8>),
    List(Seq<Operand>),
    Other,
}

/// What an object says as an operand.
pub open spec fn operand_of(object: PdfObject) -> Operand
    decreases object,
{
    match object {
        PdfObject::Text(bytes) => Operand::Text(bytes@),
        PdfObject::Array(items) => Operand::List(operands_of(items@)),
        _ => Operand::Other,
    }
}

/// What some objects say as operands.
pub open spec fn operands_of(objects: Seq<PdfObject>) -> Seq<Operand>
    decreases objects,
{
    if objects.len() == 0 {
        Seq::empty()
    } else {
        seq![operand_of(objects[0])] + operands_of(objects.drop_first())
    }
}

/// What the operands of some operations say.
pub open spec fn operations_of(operations: Seq<Vec<PdfObject>>) -> Seq<Seq<Operand>> {
    operations.map_values(|operands: Vec<PdfObject>| operands_of(operands@))
}

/// The operations in the content of a page, in order, each by its operands, where it can be
/// read.
pub uninterp spec fn content_operations(bytes: Seq<u8>) -> Option<Seq<Seq<Operand>>>;

/// Calls `lopdf::content::Content::decode`. Claimed of it: whether it succeeds, and what the
/// operands of the operations say, depends on the bytes alone. What the operands are is not
/// stated.
#[verifier::external_body]
pub(crate) fn decode_content(bytes: &[u8]) -> (r: Option<Vec<Vec<PdfObject>>>)
    ensures
        r is Some <==> content_operations(bytes@) is Some,
        r matches Some(operations) ==> content_operations(bytes@) == Some(operations_of(operations@)),
{
    let content = lopdf::content::Content::decode(bytes).ok()?;
    let operations = content.operations.iter();
    Some(operations.map(|operation| operation.operands.iter().map(object_of).collect()).collect())
}

/// What an object says as an operand: a text its bytes, an array what each of its items says, in
/// order, and anything else nothing.
pub proof fn law_operands(object: PdfObject, objects: Seq<PdfObject>, operations: Seq<Vec<PdfObject>>)
    ensures
        object matches PdfObject::Text(bytes) ==> operand_of(object) == Operand::Text(bytes@),
        object matches PdfObject::Array(items) ==> (operand_of(object) matches Operand::List(said) && said.len()
            == items@.len() && forall|i: int| 0 <= i < said.len() ==> #[trigger] said[i] == operand_of(items@[i])),
        !(object is Text) && !(object is Array) ==> operand_of(object) is Other,
        operands_of(objects).len() == objects.len(),
        forall|i: int| 0 <= i < objects.len() ==> operands_of(objects)[i] == operand_of(#[trigger] objects[i]),
        operations_of(operations).len() == operations.len(),
        forall|i: int|
            0 <= i < operations.len() ==> operations_of(operations)[i] == operands_of((#[trigger] operations[i])@),
{
    lemma_operands(objects);
    if let PdfObject::Array(items) = object {
        lemma_operands(items@);
    }
}

proof fn lemma_operands(objects: Seq<PdfObject>)
    ensures
        operands_of(objects).len() == objects.len(),
        forall|i: int| 0 <= i < objects.len() ==> #[trigger] operands_of(objects)[i] == operand_of(objects[i]),
    decreases objects.len(),
{
    if objects.len() > 0 {
        let rest = objects.drop_first();
        lemma_operands(rest);
        assert forall|i: int| 0 <= i < objects.len() implies #[trigger] operands_of(objects)[i] == operand_of(
            objects[i],
        ) by {
            if i > 0 {
                assert(operands_of(objects)[i] == operands_of(rest)[i - 1]);
                assert(rest[i - 1] == objects[i]);
            }
        }
    }
}

} // verus!
