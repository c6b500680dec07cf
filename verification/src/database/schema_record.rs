//! The binary record of a schema.
//!
//! A record is the `bincode` encoding, with fixed-width little-endian
//! integers, of the insertion-ordered attribute map: the number of entries
//! as eight bytes, then for each entry the byte length of its name as eight
//! bytes, the name in UTF-8, and one byte for each of its two flags.

use crate::database::attribute_map::{entries_of, inserted_all, Entry};
use linked_hash_map::LinkedHashMap;
use vstd::bytes::*;
use vstd::prelude::*;
use vstd::utf8::*;

verus! {

/// `bincode::ErrorKind`, taken as it is: the library tells success from
/// failure and looks no further into the error.
#[verifier::external_type_specification]
#[verifier::external_body]
pub struct ExErrorKind(bincode::ErrorKind);

/// A length as the record holds it: eight bytes, least significant first.
pub open spec fn length_bytes(length: nat) -> Seq<u8> {
    spec_u64_to_le_bytes(length as u64)
}

/// A flag as the record holds it.
pub open spec fn flag_byte(flag: bool) -> u8 {
    if flag {
        1
    } else {
        0
    }
}

/// The bytes of one entry.
pub open spec fn entry_bytes(entry: Entry) -> Seq<u8> {
    length_bytes(encode_utf8(entry.0).len()) + encode_utf8(entry.0) + seq![
        flag_byte(entry.1.0),
        flag_byte(entry.1.1),
    ]
}

/// The bytes of the entries, one after the other.
pub open spec fn entries_bytes(entries: Seq<Entry>) -> Seq<u8>
    decreases entries.len(),
{
    if entries.len() == 0 {
        Seq::empty()
    } else {
        entry_bytes(entries.first()) + entries_bytes(entries.drop_first())
    }
}

/// The record of the entries: their number, then the entries.
pub open spec fn record_bytes(entries: Seq<Entry>) -> Seq<u8> {
    length_bytes(entries.len()) + entries_bytes(entries)
}

/// `bytes` starts with the record of `entries`; what follows it is free.
pub open spec fn begins_with_record(bytes: Seq<u8>, entries: Seq<Entry>) -> bool {
    record_bytes(entries).is_prefix_of(bytes)
}

/// `bytes` starts with the record of some entries.
pub open spec fn holds_record(bytes: Seq<u8>) -> bool {
    exists|entries: Seq<Entry>| begins_with_record(bytes, entries)
}

/// The entries whose record `bytes` starts with, in the order of the record.
/// A name may occur more than once among them.
pub open spec fn parsed_record(bytes: Seq<u8>) -> Seq<Entry> {
    choose|entries: Seq<Entry>| begins_with_record(bytes, entries)
}

/// The number of entries that the first eight bytes announce.
pub open spec fn announced_count(bytes: Seq<u8>) -> nat {
    spec_u64_from_le_bytes(bytes.subrange(0, 8)) as nat
}

/// `bincode::serialize_into` on a byte vector and an attribute map: the
/// record of the map's entries is appended to the vector. The call cannot
/// fail: no size limit is set, the length of the map is known, and writing
/// to a vector always succeeds.
#[verifier::external_body]
pub(crate) fn encode_attribute_map(
    writer: &mut Vec<u8>,
    map: &LinkedHashMap<String, (bool, bool)>,
) -> (written: Result<(), Box<bincode::ErrorKind>>)
    ensures
        written is Ok,
        final(writer)@ == old(writer)@ + record_bytes(entries_of(*map)),
{
    bincode::serialize_into(writer, map)
}

/// `bincode::deserialize` to an attribute map: it succeeds exactly on bytes
/// that start with a record, and the map then holds the record's entries,
/// inserted in their order. Bytes after the record are ignored. The map
/// reserves room for the announced number of entries before it reads them,
/// so the caller has to bound that number by the length of the input.
#[verifier::external_body]
pub(crate) fn decode_attribute_map(bytes: &[u8]) -> (decoded: Result<
    LinkedHashMap<String, (bool, bool)>,
    Box<bincode::ErrorKind>,
>)
    requires
        bytes@.len() >= 8,
        8 + 10 * announced_count(bytes@) <= bytes@.len(),
    ensures
        match decoded {
            Ok(map) => exists|raw: Seq<Entry>| #[trigger]
                begins_with_record(bytes@, raw) && entries_of(map) == inserted_all(raw),
            Err(_) => !holds_record(bytes@),
        },
{
    bincode::deserialize(bytes)
}

/// Every entry takes at least ten bytes.
pub proof fn lemma_entries_bytes_len(entries: Seq<Entry>)
    ensures
        entries_bytes(entries).len() >= 10 * entries.len(),
        record_bytes(entries).len() == 8 + entries_bytes(entries).len(),
    decreases entries.len(),
{
    lemma_auto_spec_u64_to_from_le_bytes();
    if entries.len() > 0 {
        lemma_entries_bytes_len(entries.drop_first());
    }
}

/// The first eight bytes of input that starts with a record give the number
/// of its entries, and the input is long enough to hold that many.
pub proof fn lemma_record_count(bytes: Seq<u8>, entries: Seq<Entry>)
    requires
        begins_with_record(bytes, entries),
        bytes.len() <= u64::MAX,
    ensures
        bytes.len() >= 8 + 10 * entries.len(),
        announced_count(bytes) == entries.len(),
{
    lemma_auto_spec_u64_to_from_le_bytes();
    lemma_entries_bytes_len(entries);
    let record = record_bytes(entries);
    assert(bytes.subrange(0, 8) =~= length_bytes(entries.len())) by {
        assert(record.subrange(0, 8) =~= length_bytes(entries.len()));
        assert(bytes.subrange(0, record.len() as int) == record);
        assert(bytes.subrange(0, 8) =~= bytes.subrange(0, record.len() as int).subrange(0, 8));
    }
}

/// Two entries whose bytes both stand at the start of the same input are equal.
proof fn lemma_entry_unique(bytes: Seq<u8>, a: Entry, b: Entry)
    requires
        entry_bytes(a).is_prefix_of(bytes),
        entry_bytes(b).is_prefix_of(bytes),
        bytes.len() <= u64::MAX,
    ensures
        a == b,
{
    lemma_auto_spec_u64_to_from_le_bytes();
    let name_a = encode_utf8(a.0);
    let name_b = encode_utf8(b.0);
    let bytes_a = entry_bytes(a);
    let bytes_b = entry_bytes(b);
    assert(bytes.subrange(0, bytes_a.len() as int) == bytes_a);
    assert(bytes.subrange(0, bytes_b.len() as int) == bytes_b);
    assert(bytes_a.len() == 8 + name_a.len() + 2);
    assert(bytes_b.len() == 8 + name_b.len() + 2);
    assert(length_bytes(name_a.len()) =~= bytes.subrange(0, 8)) by {
        assert(bytes_a.subrange(0, 8) =~= length_bytes(name_a.len()));
        assert(bytes.subrange(0, 8) =~= bytes.subrange(0, bytes_a.len() as int).subrange(0, 8));
    }
    assert(length_bytes(name_b.len()) =~= bytes.subrange(0, 8)) by {
        assert(bytes_b.subrange(0, 8) =~= length_bytes(name_b.len()));
        assert(bytes.subrange(0, 8) =~= bytes.subrange(0, bytes_b.len() as int).subrange(0, 8));
    }
    assert(name_a.len() == name_b.len()) by {
        assert(spec_u64_from_le_bytes(length_bytes(name_a.len())) == name_a.len() as u64);
        assert(spec_u64_from_le_bytes(length_bytes(name_b.len())) == name_b.len() as u64);
    }
    let n = name_a.len() as int;
    assert(name_a =~= bytes.subrange(8, 8 + n)) by {
        assert(bytes_a.subrange(8, 8 + n) =~= name_a);
        assert(bytes.subrange(8, 8 + n) =~= bytes.subrange(0, bytes_a.len() as int).subrange(
            8,
            8 + n,
        ));
    }
    assert(name_b =~= bytes.subrange(8, 8 + n)) by {
        assert(bytes_b.subrange(8, 8 + n) =~= name_b);
        assert(bytes.subrange(8, 8 + n) =~= bytes.subrange(0, bytes_b.len() as int).subrange(
            8,
            8 + n,
        ));
    }
    assert(a.0 == b.0) by {
        encode_utf8_decode_utf8(a.0);
        encode_utf8_decode_utf8(b.0);
    }
    assert(bytes_a[8 + n] == bytes[8 + n] && bytes_b[8 + n] == bytes[8 + n]);
    assert(bytes_a[9 + n] == bytes[9 + n] && bytes_b[9 + n] == bytes[9 + n]);
    assert(bytes_a[8 + n] == flag_byte(a.1.0) && bytes_a[9 + n] == flag_byte(a.1.1));
    assert(bytes_b[8 + n] == flag_byte(b.1.0) && bytes_b[9 + n] == flag_byte(b.1.1));
    assert(a.1.0 == b.1.0 && a.1.1 == b.1.1);
}

/// Two entry lists of one length whose bytes both stand at the start of the
/// same input are equal.
proof fn lemma_entries_unique(bytes: Seq<u8>, a: Seq<Entry>, b: Seq<Entry>)
    requires
        entries_bytes(a).is_prefix_of(bytes),
        entries_bytes(b).is_prefix_of(bytes),
        a.len() == b.len(),
        bytes.len() <= u64::MAX,
    ensures
        a == b,
    decreases a.len(),
{
    if a.len() == 0 {
        assert(a =~= b);
    } else {
        let head_a = entry_bytes(a.first());
        let head_b = entry_bytes(b.first());
        let tail_a = entries_bytes(a.drop_first());
        let tail_b = entries_bytes(b.drop_first());
        assert(bytes.subrange(0, (head_a + tail_a).len() as int) == head_a + tail_a);
        assert(bytes.subrange(0, (head_b + tail_b).len() as int) == head_b + tail_b);
        assert(head_a.is_prefix_of(bytes)) by {
            assert(bytes.subrange(0, head_a.len() as int) =~= (head_a + tail_a).subrange(
                0,
                head_a.len() as int,
            ));
            assert((head_a + tail_a).subrange(0, head_a.len() as int) =~= head_a);
        }
        assert(head_b.is_prefix_of(bytes)) by {
            assert(bytes.subrange(0, head_b.len() as int) =~= (head_b + tail_b).subrange(
                0,
                head_b.len() as int,
            ));
            assert((head_b + tail_b).subrange(0, head_b.len() as int) =~= head_b);
        }
        lemma_entry_unique(bytes, a.first(), b.first());
        let rest = bytes.skip(head_a.len() as int);
        assert(tail_a.is_prefix_of(rest)) by {
            assert(rest.subrange(0, tail_a.len() as int) =~= (head_a + tail_a).subrange(
                head_a.len() as int,
                (head_a + tail_a).len() as int,
            ));
            assert((head_a + tail_a).subrange(
                head_a.len() as int,
                (head_a + tail_a).len() as int,
            ) =~= tail_a);
        }
        assert(tail_b.is_prefix_of(rest)) by {
            assert(rest.subrange(0, tail_b.len() as int) =~= (head_b + tail_b).subrange(
                head_b.len() as int,
                (head_b + tail_b).len() as int,
            ));
            assert((head_b + tail_b).subrange(
                head_b.len() as int,
                (head_b + tail_b).len() as int,
            ) =~= tail_b);
        }
        lemma_entries_unique(rest, a.drop_first(), b.drop_first());
        assert(a =~= seq![a.first()] + a.drop_first());
        assert(b =~= seq![b.first()] + b.drop_first());
    }
}

/// Input of a length that memory can hold starts with the record of at most
/// one entry list.
pub proof fn lemma_record_unique(bytes: Seq<u8>, a: Seq<Entry>, b: Seq<Entry>)
    requires
        begins_with_record(bytes, a),
        begins_with_record(bytes, b),
        bytes.len() <= u64::MAX,
    ensures
        a == b,
{
    lemma_record_count(bytes, a);
    lemma_record_count(bytes, b);
    lemma_entries_bytes_len(a);
    lemma_entries_bytes_len(b);
    let rest = bytes.skip(8);
    assert(entries_bytes(a).is_prefix_of(rest)) by {
        let record = record_bytes(a);
        assert(bytes.subrange(0, record.len() as int) == record);
        assert(rest.subrange(0, entries_bytes(a).len() as int) =~= record.subrange(
            8,
            record.len() as int,
        ));
        assert(record.subrange(8, record.len() as int) =~= entries_bytes(a));
    }
    assert(entries_bytes(b).is_prefix_of(rest)) by {
        let record = record_bytes(b);
        assert(bytes.subrange(0, record.len() as int) == record);
        assert(rest.subrange(0, entries_bytes(b).len() as int) =~= record.subrange(
            8,
            record.len() as int,
        ));
        assert(record.subrange(8, record.len() as int) =~= entries_bytes(b));
    }
    lemma_entries_unique(rest, a, b);
}

/// What is parsed from input that starts with the record of `entries` is `entries`.
pub proof fn lemma_parsed_record(bytes: Seq<u8>, entries: Seq<Entry>)
    requires
        begins_with_record(bytes, entries),
        bytes.len() <= u64::MAX,
    ensures
        holds_record(bytes),
        parsed_record(bytes) == entries,
{
    lemma_record_unique(bytes, parsed_record(bytes), entries);
}

} // verus!
