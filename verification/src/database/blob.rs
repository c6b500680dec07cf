//! The inverted index: for each term, where it occurs.
//!
//! A blob is built whole by an update and never changed afterwards. In the
//! store it is an opaque value: the `bincode` encoding of its postings.

use crate::database::schema::SchemaAttr;
use crate::error::Error;
use crate::DocumentId;
use vstd::prelude::*;

verus! {

/// One occurrence of a term: the document, the attribute, and the position of
/// the term in the attribute's text.
#[derive(Debug, Copy, Clone, PartialEq, Eq, Structural)]
pub struct Posting {
    pub document_id: DocumentId,
    pub attribute: SchemaAttr,
    pub position: u32,
}

/// A term with one of its occurrences, as (document, attribute, position).
pub type TermEntry = (Seq<char>, (u64, u32, u32));

/// The occurrence that an entry records.
pub open spec fn posting_of(entry: TermEntry) -> Posting {
    Posting { document_id: entry.1.0, attribute: SchemaAttr(entry.1.1), position: entry.1.2 }
}

/// The entries that a vector of terms and occurrences stands for.
pub open spec fn term_entries(postings: Seq<(String, (u64, u32, u32))>) -> Seq<TermEntry> {
    Seq::new(postings.len(), |i: int| (postings[i].0@, postings[i].1))
}

/// The occurrences of `term` among the first `upto` entries, in their order.
pub open spec fn postings_of(entries: Seq<TermEntry>, term: Seq<char>, upto: nat) -> Seq<Posting>
    decreases upto,
{
    if upto == 0 {
        Seq::empty()
    } else {
        let before = postings_of(entries, term, (upto - 1) as nat);
        if entries[upto - 1].0 == term {
            before.push(posting_of(entries[upto - 1]))
        } else {
            before
        }
    }
}

/// An occurrence that the entries record under a term is among the
/// occurrences found for the term.
pub proof fn lemma_posting_found(entries: Seq<TermEntry>, at: int, upto: nat)
    requires
        0 <= at < upto <= entries.len(),
    ensures
        postings_of(entries, entries[at].0, upto).contains(posting_of(entries[at])),
    decreases upto,
{
    let term = entries[at].0;
    let before = postings_of(entries, term, (upto - 1) as nat);
    if at == upto - 1 {
        assert(before.push(posting_of(entries[at]))[before.len() as int] == posting_of(entries[at]));
    } else {
        lemma_posting_found(entries, at, (upto - 1) as nat);
        let i = choose|i: int| 0 <= i < before.len() && before[i] == posting_of(entries[at]);
        if entries[upto - 1].0 == term {
            assert(before.push(posting_of(entries[upto - 1]))[i] == posting_of(entries[at]));
        }
    }
}

/// The bytes that `bincode::serialize` gives for a vector of terms and occurrences.
pub uninterp spec fn encoded_postings(entries: Seq<(Seq<char>, (u64, u32, u32))>) -> Seq<u8>;

/// The terms and occurrences that `bincode::deserialize` reads from bytes, if it reads any.
pub uninterp spec fn decoded_postings(bytes: Seq<u8>) -> Option<Seq<(Seq<char>, (u64, u32, u32))>>;

/// `bincode::serialize` on a vector of terms and occurrences. The call cannot
/// fail: no size limit is set and the length of the vector is known. What it
/// returns is read back by `bincode::deserialize` as the same vector.
#[verifier::external_body]
fn encode_postings(postings: &Vec<(String, (u64, u32, u32))>) -> (encoded: Result<
    Vec<u8>,
    Box<bincode::ErrorKind>,
>)
    ensures
        encoded is Ok,
        match encoded {
            Ok(bytes) => bytes@ == encoded_postings(term_entries(postings@)) && decoded_postings(
                bytes@,
            ) == Some(term_entries(postings@)),
            Err(_) => true,
        },
{
    bincode::serialize(postings)
}

/// `bincode::deserialize` to a vector of terms and occurrences: the result is
/// a function of the bytes alone.
#[verifier::external_body]
fn decode_postings(bytes: &[u8]) -> (decoded: Result<
    Vec<(String, (u64, u32, u32))>,
    Box<bincode::ErrorKind>,
>)
    ensures
        match decoded {
            Ok(postings) => decoded_postings(bytes@) == Some(term_entries(postings@)),
            Err(_) => decoded_postings(bytes@) is None,
        },
{
    bincode::deserialize(bytes)
}

/// The index that an update built: loaded whole from the store, and never
/// changed afterwards. A change of the index is a new blob.
#[derive(Debug, PartialEq, Eq)]
pub struct PositiveBlob {
    postings: Vec<(String, (u64, u32, u32))>,
}

impl View for PositiveBlob {
    type V = Seq<TermEntry>;

    closed spec fn view(&self) -> Seq<TermEntry> {
        term_entries(self.postings@)
    }
}

impl PositiveBlob {
    /// The index without occurrences.
    pub fn new() -> (blob: PositiveBlob)
        ensures
            blob@ == Seq::<TermEntry>::empty(),
    {
        let postings: Vec<(String, (u64, u32, u32))> = Vec::new();
        assert(term_entries(postings@) =~= Seq::<TermEntry>::empty());
        PositiveBlob { postings }
    }

    /// The index of these terms and occurrences.
    pub fn from_postings(postings: Vec<(String, (u64, u32, u32))>) -> (blob: PositiveBlob)
        ensures
            blob@ == term_entries(postings@),
    {
        PositiveBlob { postings }
    }

    /// The index that was stored as `bytes`.
    pub fn from_bytes(bytes: &[u8]) -> (read: Result<PositiveBlob, Error>)
        ensures
            match read {
                Ok(blob) => decoded_postings(bytes@) == Some(blob@),
                Err(error) => decoded_postings(bytes@) is None && error == Error::Decode,
            },
    {
        match decode_postings(bytes) {
            Ok(postings) => Ok(PositiveBlob { postings }),
            Err(_) => Err(Error::Decode),
        }
    }

    /// The bytes under which the index is stored. Read back, they give the
    /// same index.
    pub fn to_bytes(&self) -> (written: Result<Vec<u8>, Error>)
        ensures
            written matches Ok(bytes) && bytes@ == encoded_postings(self@) && decoded_postings(
                bytes@,
            ) == Some(self@),
    {
        match encode_postings(&self.postings) {
            Ok(bytes) => Ok(bytes),
            Err(_) => Err(Error::Encode),
        }
    }

    /// The number of occurrences that the index holds.
    pub fn len(&self) -> (len: usize)
        ensures
            len == self@.len(),
    {
        self.postings.len()
    }

    /// The occurrences of `term`, in the order in which the update met them.
    pub fn get(&self, term: &str) -> (found: Vec<Posting>)
        ensures
            found@ == postings_of(self@, term@, self@.len()),
    {
        let wanted = term.to_owned();
        let mut found: Vec<Posting> = Vec::new();
        let mut i: usize = 0;
        while i < self.postings.len()
            invariant
                i <= self.postings.len(),
                wanted@ == term@,
                found@ == postings_of(self@, term@, i as nat),
            decreases self.postings.len() - i,
        {
            if self.postings[i].0 == wanted {
                let occurrence = self.postings[i].1;
                found.push(
                    Posting {
                        document_id: occurrence.0,
                        attribute: SchemaAttr::new(occurrence.1),
                        position: occurrence.2,
                    },
                );
            }
            i += 1;
        }
        found
    }
}

} // verus!
