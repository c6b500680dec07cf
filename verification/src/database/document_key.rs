//! Byte keys of documents and of their attributes.
//!
//! A document key is the four bytes `doc-` followed by the document
//! identifier, most significant byte first. The key of one attribute of a
//! document is the document key, the byte `-`, and the attribute identifier,
//! most significant byte first. Both have a fixed width, so the lexicographic
//! order of the keys is the order of the pairs (document, attribute).

use crate::database::lexicographic::{
    lemma_precedes_after_common_start, lemma_precedes_before_any_end, lemma_precedes_strict,
    lemma_prefix_precedes, precedes, precedes_at,
};
use crate::database::schema::SchemaAttr;
use crate::DocumentId;
use vstd::prelude::*;
use vstd::slice::*;

verus! {

/// The width of a document key.
pub const DOC_KEY_LEN: usize = 12;

/// The width of the key of a document's attribute.
pub const DOC_KEY_ATTR_LEN: usize = 17;

/// The byte of `value` that starts `shift` bits above its lowest bit.
pub open spec fn byte_of(value: u64, shift: u64) -> u8 {
    ((value >> shift) & 0xff) as u8
}

/// The eight bytes of a value, most significant first.
pub open spec fn u64_be_bytes(value: u64) -> Seq<u8> {
    seq![
        byte_of(value, 56),
        byte_of(value, 48),
        byte_of(value, 40),
        byte_of(value, 32),
        byte_of(value, 24),
        byte_of(value, 16),
        byte_of(value, 8),
        byte_of(value, 0),
    ]
}

/// The four bytes of a value, most significant first.
pub open spec fn u32_be_bytes(value: u32) -> Seq<u8> {
    seq![
        byte_of(value as u64, 24),
        byte_of(value as u64, 16),
        byte_of(value as u64, 8),
        byte_of(value as u64, 0),
    ]
}

/// The value whose bytes, most significant first, are the first eight of `bytes`.
pub open spec fn u64_from_be_bytes(bytes: Seq<u8>) -> u64 {
    (bytes[0] as u64) << 56 | (bytes[1] as u64) << 48 | (bytes[2] as u64) << 40 | (bytes[3] as u64)
        << 32 | (bytes[4] as u64) << 24 | (bytes[5] as u64) << 16 | (bytes[6] as u64) << 8 | (
    bytes[7] as u64)
}

/// The value whose bytes, most significant first, are the first four of `bytes`.
pub open spec fn u32_from_be_bytes(bytes: Seq<u8>) -> u32 {
    (bytes[0] as u32) << 24 | (bytes[1] as u32) << 16 | (bytes[2] as u32) << 8 | (bytes[3] as u32)
}

/// The bytes `doc-` that start every document key.
pub open spec fn document_tag() -> Seq<u8> {
    seq![0x64u8, 0x6fu8, 0x63u8, 0x2du8]
}

/// The byte `-` between the document and the attribute.
pub open spec fn attribute_tag() -> Seq<u8> {
    seq![0x2du8]
}

/// The key of a document.
pub open spec fn document_key_bytes(id: DocumentId) -> Seq<u8> {
    document_tag() + u64_be_bytes(id)
}

/// The key of an attribute of a document.
pub open spec fn document_key_attr_bytes(id: DocumentId, attr: u32) -> Seq<u8> {
    document_key_bytes(id) + attribute_tag() + u32_be_bytes(attr)
}

/// `bytes` starts with the key of a document.
pub open spec fn has_document_key(bytes: Seq<u8>) -> bool {
    bytes.len() >= DOC_KEY_LEN && bytes.take(4) == document_tag()
}

/// `bytes` starts with the key of an attribute of a document.
pub open spec fn has_document_key_attr(bytes: Seq<u8>) -> bool {
    bytes.len() >= DOC_KEY_ATTR_LEN && bytes.take(4) == document_tag() && bytes[12] == 0x2du8
}

proof fn lemma_bytes_of_u64(value: u64)
    by (bit_vector)
    ensures
        (byte_of(value, 56) as u64) << 56 | (byte_of(value, 48) as u64) << 48 | (byte_of(
            value,
            40,
        ) as u64) << 40 | (byte_of(value, 32) as u64) << 32 | (byte_of(value, 24) as u64) << 24 | (
        byte_of(value, 16) as u64) << 16 | (byte_of(value, 8) as u64) << 8 | (byte_of(
            value,
            0,
        ) as u64) == value,
{
}

proof fn lemma_bytes_of_u32(value: u32)
    by (bit_vector)
    ensures
        (byte_of(value as u64, 24) as u32) << 24 | (byte_of(value as u64, 16) as u32) << 16 | (
        byte_of(value as u64, 8) as u32) << 8 | (byte_of(value as u64, 0) as u32) == value,
{
}

proof fn lemma_u64_of_bytes(b0: u8, b1: u8, b2: u8, b3: u8, b4: u8, b5: u8, b6: u8, b7: u8)
    by (bit_vector)
    ensures
        ({
            let value = (b0 as u64) << 56 | (b1 as u64) << 48 | (b2 as u64) << 40 | (b3 as u64)
                << 32 | (b4 as u64) << 24 | (b5 as u64) << 16 | (b6 as u64) << 8 | (b7 as u64);
            &&& byte_of(value, 56) == b0
            &&& byte_of(value, 48) == b1
            &&& byte_of(value, 40) == b2
            &&& byte_of(value, 32) == b3
            &&& byte_of(value, 24) == b4
            &&& byte_of(value, 16) == b5
            &&& byte_of(value, 8) == b6
            &&& byte_of(value, 0) == b7
        }),
{
}

proof fn lemma_u32_of_bytes(b0: u8, b1: u8, b2: u8, b3: u8)
    by (bit_vector)
    ensures
        ({
            let value = (b0 as u32) << 24 | (b1 as u32) << 16 | (b2 as u32) << 8 | (b3 as u32);
            &&& byte_of(value as u64, 24) == b0
            &&& byte_of(value as u64, 16) == b1
            &&& byte_of(value as u64, 8) == b2
            &&& byte_of(value as u64, 0) == b3
        }),
{
}

proof fn lemma_first_smaller_byte(a: u64, b: u64)
    by (bit_vector)
    requires
        a < b,
    ensures
        byte_of(a, 56) < byte_of(b, 56) || (byte_of(a, 56) == byte_of(b, 56) && (byte_of(a, 48)
            < byte_of(b, 48) || (byte_of(a, 48) == byte_of(b, 48) && (byte_of(a, 40) < byte_of(
            b,
            40,
        ) || (byte_of(a, 40) == byte_of(b, 40) && (byte_of(a, 32) < byte_of(b, 32) || (byte_of(
            a,
            32,
        ) == byte_of(b, 32) && (byte_of(a, 24) < byte_of(b, 24) || (byte_of(a, 24) == byte_of(
            b,
            24,
        ) && (byte_of(a, 16) < byte_of(b, 16) || (byte_of(a, 16) == byte_of(b, 16) && (byte_of(
            a,
            8,
        ) < byte_of(b, 8) || (byte_of(a, 8) == byte_of(b, 8) && byte_of(a, 0) < byte_of(
            b,
            0,
        )))))))))))))),
{
}

/// Reading back the bytes of a value gives the value.
pub proof fn lemma_u64_be_round_trip(value: u64)
    ensures
        u64_be_bytes(value).len() == 8,
        u64_from_be_bytes(u64_be_bytes(value)) == value,
{
    lemma_bytes_of_u64(value);
}

/// Reading back the bytes of a value gives the value.
pub proof fn lemma_u32_be_round_trip(value: u32)
    ensures
        u32_be_bytes(value).len() == 4,
        u32_from_be_bytes(u32_be_bytes(value)) == value,
{
    lemma_bytes_of_u32(value);
}

/// Any eight bytes are the bytes of the value read from them.
pub proof fn lemma_u64_be_bytes_of_any(bytes: Seq<u8>)
    requires
        bytes.len() == 8,
    ensures
        u64_be_bytes(u64_from_be_bytes(bytes)) == bytes,
{
    lemma_u64_of_bytes(
        bytes[0],
        bytes[1],
        bytes[2],
        bytes[3],
        bytes[4],
        bytes[5],
        bytes[6],
        bytes[7],
    );
    assert(u64_be_bytes(u64_from_be_bytes(bytes)) =~= bytes);
}

/// Any four bytes are the bytes of the value read from them.
pub proof fn lemma_u32_be_bytes_of_any(bytes: Seq<u8>)
    requires
        bytes.len() == 4,
    ensures
        u32_be_bytes(u32_from_be_bytes(bytes)) == bytes,
{
    lemma_u32_of_bytes(bytes[0], bytes[1], bytes[2], bytes[3]);
    assert(u32_be_bytes(u32_from_be_bytes(bytes)) =~= bytes);
}

/// The bytes of the smaller value come first.
pub proof fn lemma_u64_be_order(a: u64, b: u64)
    requires
        a < b,
    ensures
        precedes(u64_be_bytes(a), u64_be_bytes(b)),
{
    lemma_first_smaller_byte(a, b);
    let x = u64_be_bytes(a);
    let y = u64_be_bytes(b);
    if x[0] < y[0] {
        assert(precedes_at(x, y, 0));
    } else if x[1] < y[1] {
        assert(precedes_at(x, y, 1));
    } else if x[2] < y[2] {
        assert(precedes_at(x, y, 2));
    } else if x[3] < y[3] {
        assert(precedes_at(x, y, 3));
    } else if x[4] < y[4] {
        assert(precedes_at(x, y, 4));
    } else if x[5] < y[5] {
        assert(precedes_at(x, y, 5));
    } else if x[6] < y[6] {
        assert(precedes_at(x, y, 6));
    } else {
        assert(precedes_at(x, y, 7));
    }
}

/// The bytes of the smaller value come first.
pub proof fn lemma_u32_be_order(a: u32, b: u32)
    requires
        a < b,
    ensures
        precedes(u32_be_bytes(a), u32_be_bytes(b)),
{
    lemma_first_smaller_byte(a as u64, b as u64);
    assert(byte_of(a as u64, 56) == 0 && byte_of(a as u64, 48) == 0 && byte_of(a as u64, 40)
        == 0 && byte_of(a as u64, 32) == 0) by (bit_vector)
        requires
            a as u64 <= 0xffff_ffffu64,
    ;
    assert(byte_of(b as u64, 56) == 0 && byte_of(b as u64, 48) == 0 && byte_of(b as u64, 40)
        == 0 && byte_of(b as u64, 32) == 0) by (bit_vector)
        requires
            b as u64 <= 0xffff_ffffu64,
    ;
    let x = u32_be_bytes(a);
    let y = u32_be_bytes(b);
    if x[0] < y[0] {
        assert(precedes_at(x, y, 0));
    } else if x[1] < y[1] {
        assert(precedes_at(x, y, 1));
    } else if x[2] < y[2] {
        assert(precedes_at(x, y, 2));
    } else {
        assert(precedes_at(x, y, 3));
    }
}

/// Keys of attributes are ordered as the pairs (document, attribute) are:
/// first by document, and within one document by attribute.
pub proof fn lemma_document_key_attr_order(a: DocumentId, x: u32, b: DocumentId, y: u32)
    ensures
        precedes(document_key_attr_bytes(a, x), document_key_attr_bytes(b, y)) == (a < b || (a == b
            && x < y)),
{
    let key_a = document_key_attr_bytes(a, x);
    let key_b = document_key_attr_bytes(b, y);
    if a < b || (a == b && x < y) {
        lemma_ordered_pairs(a, x, b, y);
    } else if a == b && x == y {
        lemma_precedes_strict(key_a, key_b);
    } else {
        lemma_ordered_pairs(b, y, a, x);
        lemma_precedes_strict(key_a, key_b);
    }
}

proof fn lemma_ordered_pairs(a: DocumentId, x: u32, b: DocumentId, y: u32)
    requires
        a < b || (a == b && x < y),
    ensures
        precedes(document_key_attr_bytes(a, x), document_key_attr_bytes(b, y)),
{
    let key_a = document_key_attr_bytes(a, x);
    let key_b = document_key_attr_bytes(b, y);
    if a < b {
        lemma_u64_be_order(a, b);
        let end_a = attribute_tag() + u32_be_bytes(x);
        let end_b = attribute_tag() + u32_be_bytes(y);
        lemma_precedes_before_any_end(u64_be_bytes(a), u64_be_bytes(b), end_a, end_b);
        lemma_precedes_after_common_start(
            document_tag(),
            u64_be_bytes(a) + end_a,
            u64_be_bytes(b) + end_b,
        );
        assert(key_a =~= document_tag() + (u64_be_bytes(a) + end_a));
        assert(key_b =~= document_tag() + (u64_be_bytes(b) + end_b));
    } else {
        lemma_u32_be_order(x, y);
        let start = document_key_bytes(a) + attribute_tag();
        lemma_precedes_after_common_start(start, u32_be_bytes(x), u32_be_bytes(y));
    }
}

/// Keys of documents are ordered as the documents are.
pub proof fn lemma_document_key_order(a: DocumentId, b: DocumentId)
    ensures
        precedes(document_key_bytes(a), document_key_bytes(b)) == (a < b),
{
    let key_a = document_key_bytes(a);
    let key_b = document_key_bytes(b);
    if a < b {
        lemma_u64_be_order(a, b);
        lemma_precedes_after_common_start(document_tag(), u64_be_bytes(a), u64_be_bytes(b));
    } else if a == b {
        lemma_precedes_strict(key_a, key_b);
    } else {
        lemma_u64_be_order(b, a);
        lemma_precedes_after_common_start(document_tag(), u64_be_bytes(b), u64_be_bytes(a));
        lemma_precedes_strict(key_a, key_b);
    }
}

/// The key of a document stands before the keys of its attributes, and the
/// keys of the attributes of one document stand before the key of any later
/// document: a scan that starts at a document key meets that document's
/// attributes first, in the order of their identifiers.
pub proof fn lemma_document_key_bounds(a: DocumentId, x: u32, b: DocumentId)
    ensures
        precedes(document_key_bytes(a), document_key_attr_bytes(a, x)),
        a < b ==> precedes(document_key_attr_bytes(a, x), document_key_bytes(b)),
{
    let end = attribute_tag() + u32_be_bytes(x);
    lemma_prefix_precedes(document_key_bytes(a), end);
    assert(document_key_attr_bytes(a, x) =~= document_key_bytes(a) + end);
    if a < b {
        lemma_u64_be_order(a, b);
        lemma_precedes_before_any_end(u64_be_bytes(a), u64_be_bytes(b), end, Seq::empty());
        lemma_precedes_after_common_start(
            document_tag(),
            u64_be_bytes(a) + end,
            u64_be_bytes(b) + Seq::empty(),
        );
        assert(document_key_attr_bytes(a, x) =~= document_tag() + (u64_be_bytes(a) + end));
        assert(document_key_bytes(b) =~= document_tag() + (u64_be_bytes(b) + Seq::empty()));
    }
}

fn byte_at(value: u64, shift: u64) -> (byte: u8)
    requires
        shift < 64,
    ensures
        byte == byte_of(value, shift),
{
    let low = (value >> shift) & 0xff;
    assert(low < 256) by (bit_vector)
        requires
            low == (value >> shift) & 0xff,
    ;
    low as u8
}

fn read_u64_be(bytes: &[u8]) -> (value: u64)
    requires
        bytes@.len() >= 8,
    ensures
        value == u64_from_be_bytes(bytes@),
{
    (bytes[0] as u64) << 56 | (bytes[1] as u64) << 48 | (bytes[2] as u64) << 40 | (bytes[3] as u64)
        << 32 | (bytes[4] as u64) << 24 | (bytes[5] as u64) << 16 | (bytes[6] as u64) << 8 | (
    bytes[7] as u64)
}

fn read_u32_be(bytes: &[u8]) -> (value: u32)
    requires
        bytes@.len() >= 4,
    ensures
        value == u32_from_be_bytes(bytes@),
{
    (bytes[0] as u32) << 24 | (bytes[1] as u32) << 16 | (bytes[2] as u32) << 8 | (bytes[3] as u32)
}

/// The key of a document: a lower bound for scans over its attributes.
#[derive(Debug, Copy, Clone, PartialEq, Eq)]
pub struct DocumentKey {
    bytes: [u8; DOC_KEY_LEN],
}

impl View for DocumentKey {
    type V = Seq<u8>;

    closed spec fn view(&self) -> Seq<u8> {
        self.bytes@
    }
}

impl DocumentKey {
    #[verifier::type_invariant]
    spec fn well_formed(self) -> bool {
        self.bytes@.take(4) == document_tag()
    }

    /// The document that the key names.
    pub closed spec fn spec_document_id(&self) -> DocumentId {
        u64_from_be_bytes(self.bytes@.subrange(4, 12))
    }

    /// The key of the document `id`.
    pub fn new(id: DocumentId) -> (key: DocumentKey)
        ensures
            key@ == document_key_bytes(id),
            key.spec_document_id() == id,
    {
        let bytes = [
            0x64u8,
            0x6fu8,
            0x63u8,
            0x2du8,
            byte_at(id, 56),
            byte_at(id, 48),
            byte_at(id, 40),
            byte_at(id, 32),
            byte_at(id, 24),
            byte_at(id, 16),
            byte_at(id, 8),
            byte_at(id, 0),
        ];
        proof {
            assert(bytes@ =~= document_key_bytes(id));
            assert(bytes@.take(4) =~= document_tag());
            assert(bytes@.subrange(4, 12) =~= u64_be_bytes(id));
            lemma_u64_be_round_trip(id);
        }
        DocumentKey { bytes }
    }

    /// The document key that `bytes` starts with, if it starts with one.
    /// This is the inverse of the encoding: the bytes of a key, and the
    /// bytes of the key of an attribute, give back the key of the document.
    pub fn from_bytes(bytes: &[u8]) -> (key: Option<DocumentKey>)
        ensures
            key is Some == has_document_key(bytes@),
            key matches Some(k) ==> k@ == bytes@.take(DOC_KEY_LEN as int),
    {
        if bytes.len() < DOC_KEY_LEN || bytes[0] != 0x64 || bytes[1] != 0x6f || bytes[2] != 0x63
            || bytes[3] != 0x2d {
            assert(bytes@.len() >= 4 ==> bytes@.take(4)[0] == bytes@[0] && bytes@.take(4)[1]
                == bytes@[1] && bytes@.take(4)[2] == bytes@[2] && bytes@.take(4)[3] == bytes@[3]);
            return None;
        }
        let key = [
            bytes[0],
            bytes[1],
            bytes[2],
            bytes[3],
            bytes[4],
            bytes[5],
            bytes[6],
            bytes[7],
            bytes[8],
            bytes[9],
            bytes[10],
            bytes[11],
        ];
        proof {
            assert(key@ =~= bytes@.take(DOC_KEY_LEN as int));
            assert(key@.take(4) =~= document_tag());
            assert(bytes@.take(4) =~= document_tag());
        }
        Some(DocumentKey { bytes: key })
    }

    /// The key of the attribute `attr` of this document.
    pub fn with_attribute(&self, attr: SchemaAttr) -> (key: DocumentKeyAttr)
        ensures
            key@ == document_key_attr_bytes(self.spec_document_id(), attr.0),
            key@ == self@ + attribute_tag() + u32_be_bytes(attr.0),
    {
        let id = self.document_id();
        DocumentKeyAttr::new(id, attr)
    }

    /// The smallest key among those of this document's attributes.
    pub fn with_attribute_min(&self) -> (key: DocumentKeyAttr)
        ensures
            key@ == document_key_attr_bytes(self.spec_document_id(), 0),
    {
        self.with_attribute(SchemaAttr::new(0))
    }

    /// The largest key among those of this document's attributes.
    pub fn with_attribute_max(&self) -> (key: DocumentKeyAttr)
        ensures
            key@ == document_key_attr_bytes(self.spec_document_id(), u32::MAX),
    {
        self.with_attribute(SchemaAttr::max())
    }

    /// The document that the key names.
    #[verifier::when_used_as_spec(spec_document_id)]
    pub fn document_id(&self) -> (id: DocumentId)
        ensures
            id == self.spec_document_id(),
            self@ == document_key_bytes(id),
    {
        proof {
            use_type_invariant(self);
            lemma_u64_be_bytes_of_any(self.bytes@.subrange(4, 12));
            assert(self.bytes@ =~= self.bytes@.take(4) + self.bytes@.subrange(4, 12));
        }
        let id = read_u64_be(slice_subrange(self.bytes.as_slice(), 4, 12));
        id
    }

    /// The bytes of the key.
    pub fn as_bytes(&self) -> (bytes: &[u8])
        ensures
            bytes@ == self@,
            bytes@ == document_key_bytes(self.spec_document_id()),
    {
        proof {
            use_type_invariant(self);
            lemma_u64_be_bytes_of_any(self.bytes@.subrange(4, 12));
            assert(self.bytes@ =~= self.bytes@.take(4) + self.bytes@.subrange(4, 12));
        }
        self.bytes.as_slice()
    }
}

/// The key under which one attribute of one document is stored.
#[derive(Debug, Copy, Clone, PartialEq, Eq)]
pub struct DocumentKeyAttr {
    bytes: [u8; DOC_KEY_ATTR_LEN],
}

impl View for DocumentKeyAttr {
    type V = Seq<u8>;

    closed spec fn view(&self) -> Seq<u8> {
        self.bytes@
    }
}

impl DocumentKeyAttr {
    #[verifier::type_invariant]
    spec fn well_formed(self) -> bool {
        self.bytes@.take(4) == document_tag() && self.bytes@[12] == 0x2du8
    }

    /// The document that the key names.
    pub closed spec fn spec_document_id(&self) -> DocumentId {
        u64_from_be_bytes(self.bytes@.subrange(4, 12))
    }

    /// The attribute that the key names.
    pub closed spec fn spec_attribute(&self) -> SchemaAttr {
        SchemaAttr(u32_from_be_bytes(self.bytes@.subrange(13, 17)))
    }

    /// The key of the attribute `attr` of the document `id`.
    pub fn new(id: DocumentId, attr: SchemaAttr) -> (key: DocumentKeyAttr)
        ensures
            key@ == document_key_attr_bytes(id, attr.0),
            key.spec_document_id() == id,
            key.spec_attribute() == attr,
    {
        let index = attr.0 as u64;
        let bytes = [
            0x64u8,
            0x6fu8,
            0x63u8,
            0x2du8,
            byte_at(id, 56),
            byte_at(id, 48),
            byte_at(id, 40),
            byte_at(id, 32),
            byte_at(id, 24),
            byte_at(id, 16),
            byte_at(id, 8),
            byte_at(id, 0),
            0x2du8,
            byte_at(index, 24),
            byte_at(index, 16),
            byte_at(index, 8),
            byte_at(index, 0),
        ];
        proof {
            assert(bytes@ =~= document_key_attr_bytes(id, attr.0));
            assert(bytes@.take(4) =~= document_tag());
            assert(bytes@.subrange(4, 12) =~= u64_be_bytes(id));
            assert(bytes@.subrange(13, 17) =~= u32_be_bytes(attr.0));
            lemma_u64_be_round_trip(id);
            lemma_u32_be_round_trip(attr.0);
        }
        DocumentKeyAttr { bytes }
    }

    /// The smallest key among those of the attributes of the same document.
    pub fn with_attribute_min(&self) -> (key: DocumentKeyAttr)
        ensures
            key@ == document_key_attr_bytes(self.spec_document_id(), 0),
    {
        DocumentKeyAttr::new(self.document_id(), SchemaAttr::new(0))
    }

    /// The largest key among those of the attributes of the same document.
    pub fn with_attribute_max(&self) -> (key: DocumentKeyAttr)
        ensures
            key@ == document_key_attr_bytes(self.spec_document_id(), u32::MAX),
    {
        DocumentKeyAttr::new(self.document_id(), SchemaAttr::max())
    }

    /// The attribute key that `bytes` starts with, if it starts with one.
    /// This is the inverse of the encoding.
    pub fn from_bytes(bytes: &[u8]) -> (key: Option<DocumentKeyAttr>)
        ensures
            key is Some == has_document_key_attr(bytes@),
            key matches Some(k) ==> k@ == bytes@.take(DOC_KEY_ATTR_LEN as int),
    {
        if bytes.len() < DOC_KEY_ATTR_LEN || bytes[0] != 0x64 || bytes[1] != 0x6f || bytes[2]
            != 0x63 || bytes[3] != 0x2d || bytes[12] != 0x2d {
            assert(bytes@.len() >= 4 ==> bytes@.take(4)[0] == bytes@[0] && bytes@.take(4)[1]
                == bytes@[1] && bytes@.take(4)[2] == bytes@[2] && bytes@.take(4)[3] == bytes@[3]);
            return None;
        }
        let key = [
            bytes[0],
            bytes[1],
            bytes[2],
            bytes[3],
            bytes[4],
            bytes[5],
            bytes[6],
            bytes[7],
            bytes[8],
            bytes[9],
            bytes[10],
            bytes[11],
            bytes[12],
            bytes[13],
            bytes[14],
            bytes[15],
            bytes[16],
        ];
        proof {
            assert(key@ =~= bytes@.take(DOC_KEY_ATTR_LEN as int));
            assert(key@.take(4) =~= document_tag());
            assert(bytes@.take(4) =~= document_tag());
        }
        Some(DocumentKeyAttr { bytes: key })
    }

    /// The document that the key names.
    #[verifier::when_used_as_spec(spec_document_id)]
    pub fn document_id(&self) -> (id: DocumentId)
        ensures
            id == self.spec_document_id(),
            self@ == document_key_attr_bytes(id, self.spec_attribute().0),
    {
        proof {
            use_type_invariant(self);
            lemma_is_attribute_key(self.bytes@);
        }
        read_u64_be(slice_subrange(self.bytes.as_slice(), 4, 12))
    }

    /// The attribute that the key names.
    #[verifier::when_used_as_spec(spec_attribute)]
    pub fn attribute(&self) -> (attr: SchemaAttr)
        ensures
            attr == self.spec_attribute(),
            self@ == document_key_attr_bytes(self.spec_document_id(), attr.0),
    {
        proof {
            use_type_invariant(self);
            lemma_is_attribute_key(self.bytes@);
        }
        SchemaAttr::new(read_u32_be(slice_subrange(self.bytes.as_slice(), 13, 17)))
    }

    /// The key of the document alone.
    pub fn into_document_key(self) -> (key: DocumentKey)
        ensures
            key@ == document_key_bytes(self.spec_document_id()),
            key.spec_document_id() == self.spec_document_id(),
    {
        DocumentKey::new(self.document_id())
    }

    /// The bytes of the key.
    pub fn as_bytes(&self) -> (bytes: &[u8])
        ensures
            bytes@ == self@,
            bytes@ == document_key_attr_bytes(self.spec_document_id(), self.spec_attribute().0),
    {
        proof {
            use_type_invariant(self);
            lemma_is_attribute_key(self.bytes@);
        }
        self.bytes.as_slice()
    }

}

/// Seventeen bytes with both tags in place are the key of the document and
/// the attribute that are read from them.
proof fn lemma_is_attribute_key(bytes: Seq<u8>)
    requires
        bytes.len() == DOC_KEY_ATTR_LEN,
        bytes.take(4) == document_tag(),
        bytes[12] == 0x2du8,
    ensures
        bytes == document_key_attr_bytes(
            u64_from_be_bytes(bytes.subrange(4, 12)),
            u32_from_be_bytes(bytes.subrange(13, 17)),
        ),
{
    lemma_u64_be_bytes_of_any(bytes.subrange(4, 12));
    lemma_u32_be_bytes_of_any(bytes.subrange(13, 17));
    assert(bytes =~= bytes.take(4) + bytes.subrange(4, 12) + seq![bytes[12]] + bytes.subrange(
        13,
        17,
    ));
}

} // verus!
