//! Numbers and arrays of a JSON document, found by JSON pointer.

use vstd::prelude::*;

verus! {

/// The unsigned integer that stands at a JSON pointer of a document; `None` where
/// the bytes are no document, nothing stands there, or something else does.
pub uninterp spec fn json_number_at(doc: Seq<u8>, pointer: Seq<char>) -> Option<u64>;

/// The length of the array that stands at a JSON pointer of a document.
pub uninterp spec fn json_array_at(doc: Seq<u8>, pointer: Seq<char>) -> Option<usize>;

/// The bytes are a JSON document.
pub uninterp spec fn json_document(doc: Seq<u8>) -> bool;

/// The document that is written when the value at a JSON pointer of a document
/// is replaced by an unsigned integer.
pub uninterp spec fn json_with_number(doc: Seq<u8>, pointer: Seq<char>, n: u64) -> Option<Seq<u8>>;

/// Bytes without the blanks at their end.
pub open spec fn unpadded(b: Seq<u8>) -> Seq<u8>
    decreases b.len(),
{
    if b.len() > 0 && b.last() == 0x20 {
        unpadded(b.drop_last())
    } else {
        b
    }
}

/// A JSON pointer without an escape: two that differ lead to different places.
pub open spec fn plain(pointer: Seq<char>) -> bool {
    forall|k: int| 0 <= k < pointer.len() ==> #[trigger] pointer[k] != '~'
}

/// `serde_json::from_slice` into a `Value`: which bytes it takes is a function of
/// the bytes, and blanks at their end do not matter.
#[verifier::external_body]
pub(crate) fn is_document(doc: &[u8]) -> (b: bool)
    ensures
        b == json_document(doc@),
        b == json_document(unpadded(doc@)),
{
    serde_json::from_slice::<serde_json::Value>(doc).is_ok()
}

/// `serde_json::Value::pointer` and `as_u64` on a parsed document: the integer is
/// a function of the bytes and the pointer, and blanks at the end of the bytes do
/// not matter.
#[verifier::external_body]
pub(crate) fn number_at(doc: &[u8], pointer: &str) -> (r: Option<u64>)
    ensures
        r == json_number_at(doc@, pointer@),
        r == json_number_at(unpadded(doc@), pointer@),
{
    let value: serde_json::Value = serde_json::from_slice(doc).ok()?;
    value.pointer(pointer)?.as_u64()
}

/// `serde_json::Value::pointer` and `as_array` on a parsed document: the length is
/// a function of the bytes and the pointer, and blanks at the end of the bytes do
/// not matter.
#[verifier::external_body]
pub(crate) fn array_at(doc: &[u8], pointer: &str) -> (r: Option<usize>)
    ensures
        r == json_array_at(doc@, pointer@),
        r == json_array_at(unpadded(doc@), pointer@),
{
    let value: serde_json::Value = serde_json::from_slice(doc).ok()?;
    Some(value.pointer(pointer)?.as_array()?.len())
}

/// `serde_json::Value::pointer_mut` and `serde_json::to_vec` on a parsed document:
/// the value at the pointer becomes the integer, and the document is written. What
/// is written is a function of the bytes, the pointer and the integer. It is a
/// document that ends with no blank, and the integer is read back from it. A number
/// can always be replaced, and then every other place has the number or the array
/// that it had, as far as the two pointers have no escapes.
#[verifier::external_body]
pub(crate) fn with_number(doc: &[u8], pointer: &str, n: u64) -> (r: Option<Vec<u8>>)
    ensures
        r is Some <==> json_with_number(doc@, pointer@, n) is Some,
        r is Some ==> json_with_number(doc@, pointer@, n) == Some(r->0@),
        json_number_at(doc@, pointer@) is Some ==> r is Some,
        r is Some ==> {
            &&& json_document(r->0@)
            &&& unpadded(r->0@) == r->0@
            &&& json_number_at(r->0@, pointer@) == Some(n)
        },
        r is Some && json_number_at(doc@, pointer@) is Some && plain(pointer@) ==> forall|
            other: Seq<char>,
        |
            plain(other) && other != pointer@ ==> #[trigger] json_number_at(r->0@, other)
                == json_number_at(doc@, other),
        r is Some && json_number_at(doc@, pointer@) is Some && plain(pointer@) ==> forall|
            other: Seq<char>,
        |
            plain(other) ==> #[trigger] json_array_at(r->0@, other) == json_array_at(doc@, other),
{
    let mut value: serde_json::Value = serde_json::from_slice(doc).ok()?;
    *value.pointer_mut(pointer)? = serde_json::Value::from(n);
    serde_json::to_vec(&value).ok()
}

} // verus!
