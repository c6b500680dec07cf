//! Updates: the column writes and the index of a batch of documents.
//!
//! A builder is open: it takes documents. `build` seals it into an update,
//! which holds the writes and the encoded index and takes no more documents.
//! The database then ingests the update, or the update is dropped.

use crate::database::blob::{
    decoded_postings, encoded_postings, lemma_posting_found, postings_of, term_entries,
    PositiveBlob, Posting, TermEntry,
};
use crate::database::document_key::{document_key_attr_bytes, DocumentKeyAttr, DOC_KEY_ATTR_LEN};
use crate::database::key_space::{as_map, increasing, lemma_lookup_is_map, pairs_of, KeySpace};
use crate::database::schema::{attribute_of, Declaration, Schema, SchemaAttr};
use crate::database::{data_index_key, data_schema_key, index_key};
use crate::error::Error;
use crate::DocumentId;
use vstd::prelude::*;
use vstd::slice::*;

verus! {

/// One attribute of a document as an update takes it: the attribute's name,
/// the bytes to store for it, and the terms of its text with their positions.
#[derive(Debug, Clone, PartialEq, Eq)]
pub struct Field {
    pub name: String,
    pub value: Vec<u8>,
    pub tokens: Vec<(String, u32)>,
}

/// A term and its position in a text.
pub type Token = (Seq<char>, u32);

/// The tokens that a vector of terms and positions stands for.
pub open spec fn tokens_of(tokens: Seq<(String, u32)>) -> Seq<Token> {
    Seq::new(tokens.len(), |i: int| (tokens[i].0@, tokens[i].1))
}

/// What a field holds: its name, its value and its tokens.
pub open spec fn field_of(field: Field) -> (Seq<char>, Seq<u8>, Seq<Token>) {
    (field.name@, field.value@, tokens_of(field.tokens@))
}

/// The occurrences of the tokens in one attribute of one document.
pub open spec fn occurrences(id: DocumentId, attr: u32, tokens: Seq<Token>) -> Seq<TermEntry> {
    Seq::new(tokens.len(), |i: int| (tokens[i].0, (id, attr, tokens[i].1)))
}

/// The writes after an attribute of a document was taken: where the schema
/// has the name and marks it as stored, the value stands under the key of the
/// document's attribute; else the writes are as before.
pub open spec fn writes_after(
    declarations: Seq<Declaration>,
    writes: Map<Seq<u8>, Seq<u8>>,
    id: DocumentId,
    name: Seq<char>,
    value: Seq<u8>,
) -> Map<Seq<u8>, Seq<u8>> {
    match attribute_of(declarations, name) {
        Some(attr) => if declarations[attr.0 as int].1.stored {
            writes.insert(document_key_attr_bytes(id, attr.0), value)
        } else {
            writes
        },
        None => writes,
    }
}

/// The index entries after an attribute of a document was taken: where the
/// schema has the name and marks it as indexed, the occurrences of its tokens
/// follow the entries; else the entries are as before.
pub open spec fn postings_after(
    declarations: Seq<Declaration>,
    postings: Seq<TermEntry>,
    id: DocumentId,
    name: Seq<char>,
    tokens: Seq<Token>,
) -> Seq<TermEntry> {
    match attribute_of(declarations, name) {
        Some(attr) => if declarations[attr.0 as int].1.indexed {
            postings + occurrences(id, attr.0, tokens)
        } else {
            postings
        },
        None => postings,
    }
}

/// The writes after the first `upto` fields of a document were taken, one by one.
pub open spec fn document_writes(
    declarations: Seq<Declaration>,
    writes: Map<Seq<u8>, Seq<u8>>,
    id: DocumentId,
    fields: Seq<Field>,
    upto: nat,
) -> Map<Seq<u8>, Seq<u8>>
    decreases upto,
{
    if upto == 0 {
        writes
    } else {
        writes_after(
            declarations,
            document_writes(declarations, writes, id, fields, (upto - 1) as nat),
            id,
            fields[upto - 1].name@,
            fields[upto - 1].value@,
        )
    }
}

/// The index entries after the first `upto` fields of a document were taken, one by one.
pub open spec fn document_postings(
    declarations: Seq<Declaration>,
    postings: Seq<TermEntry>,
    id: DocumentId,
    fields: Seq<Field>,
    upto: nat,
) -> Seq<TermEntry>
    decreases upto,
{
    if upto == 0 {
        postings
    } else {
        postings_after(
            declarations,
            document_postings(declarations, postings, id, fields, (upto - 1) as nat),
            id,
            fields[upto - 1].name@,
            tokens_of(fields[upto - 1].tokens@),
        )
    }
}

/// Stored and indexed are separate. An attribute that is not stored adds no
/// write, and one that is not indexed adds no index entry. The value of a
/// stored attribute stands under the key of the document's attribute, and
/// each token of an indexed attribute is found under its term, with the
/// document, the attribute and the token's position.
pub proof fn lemma_stored_indexed_separation(
    declarations: Seq<Declaration>,
    writes: Map<Seq<u8>, Seq<u8>>,
    postings: Seq<TermEntry>,
    id: DocumentId,
    name: Seq<char>,
    value: Seq<u8>,
    tokens: Seq<Token>,
)
    requires
        attribute_of(declarations, name) is Some,
    ensures
        ({
            let attr = attribute_of(declarations, name).unwrap();
            let props = declarations[attr.0 as int].1;
            let written = writes_after(declarations, writes, id, name, value);
            let indexed = postings_after(declarations, postings, id, name, tokens);
            &&& !props.stored ==> written == writes
            &&& !props.indexed ==> indexed == postings
            &&& props.stored ==> written.contains_key(document_key_attr_bytes(id, attr.0))
                && written[document_key_attr_bytes(id, attr.0)] == value
            &&& props.indexed ==> forall|i: int|
                0 <= i < tokens.len() ==> postings_of(
                    indexed,
                    (#[trigger] tokens[i]).0,
                    indexed.len(),
                ).contains(
                    Posting { document_id: id, attribute: attr, position: tokens[i].1 },
                )
        }),
{
    let attr = attribute_of(declarations, name).unwrap();
    let props = declarations[attr.0 as int].1;
    let indexed = postings_after(declarations, postings, id, name, tokens);
    if props.indexed {
        assert forall|i: int| 0 <= i < tokens.len() implies postings_of(
            indexed,
            (#[trigger] tokens[i]).0,
            indexed.len(),
        ).contains(Posting { document_id: id, attribute: attr, position: tokens[i].1 }) by {
            let at = postings.len() + i;
            assert(indexed[at] == occurrences(id, attr.0, tokens)[i]);
            lemma_posting_found(indexed, at, indexed.len());
        }
    }
}

/// An open update: it takes documents and gathers their writes and index entries.
#[derive(Debug)]
pub struct PositiveUpdateBuilder {
    schema: Schema,
    writes: KeySpace,
    postings: Vec<(String, (u64, u32, u32))>,
}

impl PositiveUpdateBuilder {
    /// What holds of every open update: each of its writes goes to the key
    /// of a document's attribute.
    #[verifier::type_invariant]
    spec fn writes_to_documents(self) -> bool {
        forall|key: Seq<u8>| #[trigger]
            as_map(self.writes@).contains_key(key) ==> key.len() == DOC_KEY_ATTR_LEN
    }

    /// The declarations of the schema that the update goes by.
    pub closed spec fn declarations(&self) -> Seq<Declaration> {
        self.schema@
    }

    /// The column writes gathered so far: for each key the value to store.
    pub closed spec fn writes(&self) -> Map<Seq<u8>, Seq<u8>> {
        as_map(self.writes@)
    }

    /// The index entries gathered so far, in the order in which they were met.
    pub closed spec fn postings(&self) -> Seq<TermEntry> {
        term_entries(self.postings@)
    }

    /// An update for documents of this schema, without any document yet.
    pub fn new(schema: Schema) -> (builder: PositiveUpdateBuilder)
        ensures
            builder.declarations() == schema@,
            builder.writes() == Map::<Seq<u8>, Seq<u8>>::empty(),
            builder.postings() == Seq::<TermEntry>::empty(),
    {
        let postings: Vec<(String, (u64, u32, u32))> = Vec::new();
        assert(term_entries(postings@) =~= Seq::<TermEntry>::empty());
        PositiveUpdateBuilder { schema, writes: KeySpace::new(), postings }
    }

    /// Takes one attribute of a document. Its value is written where the
    /// schema marks the attribute as stored, and its tokens are indexed where
    /// the schema marks it as indexed. A name that the schema lacks is passed
    /// over. Returns the attribute, if the schema has one of that name.
    pub fn update_attribute(
        &mut self,
        id: DocumentId,
        name: &str,
        value: &[u8],
        tokens: &[(String, u32)],
    ) -> (attribute: Option<SchemaAttr>)
        ensures
            attribute == attribute_of(old(self).declarations(), name@),
            final(self).declarations() == old(self).declarations(),
            final(self).writes() == writes_after(
                old(self).declarations(),
                old(self).writes(),
                id,
                name@,
                value@,
            ),
            final(self).postings() == postings_after(
                old(self).declarations(),
                old(self).postings(),
                id,
                name@,
                tokens_of(tokens@),
            ),
    {
        proof {
            use_type_invariant(&*self);
        }
        let attr = match self.schema.attribute(name) {
            Some(attr) => attr,
            None => {
                return None;
            },
        };
        let props = self.schema.props(attr);
        if props.is_stored() {
            let key = DocumentKeyAttr::new(id, attr);
            // The writes leave the update while they change, so that the
            // update is whole at every point where the change could stop.
            let mut writes = KeySpace::new();
            core::mem::swap(&mut self.writes, &mut writes);
            writes.put(slice_to_vec(key.as_bytes()), slice_to_vec(value));
            assert(key@.len() == DOC_KEY_ATTR_LEN);
            core::mem::swap(&mut self.writes, &mut writes);
        }
        if props.is_indexed() {
            let ghost before = term_entries(self.postings@);
            let ghost found = occurrences(id, attr.0, tokens_of(tokens@));
            let mut postings: Vec<(String, (u64, u32, u32))> = Vec::new();
            core::mem::swap(&mut self.postings, &mut postings);
            let mut i: usize = 0;
            while i < tokens.len()
                invariant
                    i <= tokens.len(),
                    found == occurrences(id, attr.0, tokens_of(tokens@)),
                    term_entries(postings@) == before + found.take(i as int),
                decreases tokens.len() - i,
            {
                let ghost so_far = term_entries(postings@);
                postings.push((tokens[i].0.clone(), (id, attr.0, tokens[i].1)));
                assert(term_entries(postings@) =~= so_far.push(found[i as int]));
                assert(so_far.push(found[i as int]) =~= before + found.take(i + 1));
                i += 1;
            }
            assert(found.take(i as int) =~= found);
            core::mem::swap(&mut self.postings, &mut postings);
        }
        Some(attr)
    }

    /// Takes a document: each of its fields in turn, as `update_attribute` takes one.
    pub fn update(&mut self, id: DocumentId, document: &Vec<Field>)
        ensures
            final(self).declarations() == old(self).declarations(),
            final(self).writes() == document_writes(
                old(self).declarations(),
                old(self).writes(),
                id,
                document@,
                document@.len(),
            ),
            final(self).postings() == document_postings(
                old(self).declarations(),
                old(self).postings(),
                id,
                document@,
                document@.len(),
            ),
    {
        let mut i: usize = 0;
        while i < document.len()
            invariant
                i <= document.len(),
                self.declarations() == old(self).declarations(),
                self.writes() == document_writes(
                    old(self).declarations(),
                    old(self).writes(),
                    id,
                    document@,
                    i as nat,
                ),
                self.postings() == document_postings(
                    old(self).declarations(),
                    old(self).postings(),
                    id,
                    document@,
                    i as nat,
                ),
            decreases document.len() - i,
        {
            let field = &document[i];
            let _ = self.update_attribute(
                id,
                field.name.as_str(),
                field.value.as_slice(),
                field.tokens.as_slice(),
            );
            i += 1;
        }
    }

    /// Seals the update: the index entries become the index of the update,
    /// and its encoding joins the writes under the key of the index. The
    /// builder is used up, so the update takes no more documents.
    pub fn build(self) -> (built: Result<PositiveUpdate, Error>)
        ensures
            match built {
                Ok(update) => update.writes() == self.writes().insert(
                    data_index_key(),
                    encoded_postings(self.postings()),
                ) && !update.spec_is_move() && update.sealed(),
                Err(_) => false,
            },
    {
        proof {
            use_type_invariant(&self);
        }
        let ghost gathered = self.writes();
        let blob = PositiveBlob::from_postings(self.postings);
        let mut writes = self.writes;
        match blob.to_bytes() {
            Ok(bytes) => {
                let key = index_key();
                writes.put(slice_to_vec(key.as_slice()), bytes);
                proof {
                    assert(data_index_key().len() == 10);
                    assert(data_schema_key().len() == 11);
                    assert(!gathered.contains_key(data_schema_key()));
                    lemma_lookup_is_map(writes@, data_schema_key());
                    lemma_lookup_is_map(writes@, data_index_key());
                }
                Ok(PositiveUpdate { writes, move_update: false })
            },
            Err(error) => Err(error),
        }
    }
}

/// A sealed update: the writes that ingestion will apply, and whether the
/// file that carries them may be moved into the store instead of copied.
#[derive(Debug)]
pub struct PositiveUpdate {
    writes: KeySpace,
    move_update: bool,
}

impl PositiveUpdate {
    /// What holds of every sealed update: it carries a readable index under
    /// the key of the index, and leaves the schema alone.
    #[verifier::type_invariant]
    pub open spec fn sealed(self) -> bool {
        &&& self.writes().contains_key(data_index_key())
        &&& decoded_postings(self.writes()[data_index_key()]) is Some
        &&& !self.writes().contains_key(data_schema_key())
    }

    /// The writes of the update: for each key the value to store.
    pub closed spec fn writes(&self) -> Map<Seq<u8>, Seq<u8>> {
        as_map(self.writes@)
    }

    /// Whether ingestion may move the update file.
    pub closed spec fn spec_is_move(&self) -> bool {
        self.move_update
    }

    /// Chooses between moving the update file into the store, which is fast
    /// and gives the file up, and copying it. This changes nothing in what
    /// the update writes.
    pub fn set_move(&mut self, move_update: bool)
        ensures
            final(self).spec_is_move() == move_update,
            final(self).writes() == old(self).writes(),
    {
        proof {
            use_type_invariant(&*self);
        }
        self.move_update = move_update;
    }

    /// Whether ingestion may move the update file.
    #[verifier::when_used_as_spec(spec_is_move)]
    pub fn is_move(&self) -> (move_update: bool)
        ensures
            move_update == self.spec_is_move(),
    {
        self.move_update
    }

    /// The writes of the update in strictly increasing key order: what the
    /// update file holds.
    pub fn entries(&self) -> (entries: &Vec<(Vec<u8>, Vec<u8>)>)
        ensures
            as_map(pairs_of(entries@)) == self.writes(),
            increasing(pairs_of(entries@)),
            self.sealed(),
    {
        proof {
            use_type_invariant(self);
        }
        self.writes.entries()
    }
}

} // verus!
