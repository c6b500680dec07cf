//! Consistent read views: one snapshot with the schema and the index that it holds.

use crate::database::blob::{postings_of, PositiveBlob, Posting};
use crate::database::document_key::{
    document_key_attr_bytes, document_key_bytes, has_document_key_attr, DocumentKey,
    DocumentKeyAttr, DOC_KEY_ATTR_LEN,
};
use crate::database::key_space::{copy_entries, increasing, lookup, pairs_of, Pair, Snapshot};
use crate::database::lexicographic::{precedes, precedes_at};
use crate::database::schema::{Declaration, Schema, SchemaAttr};
use crate::database::{retrieve_data_index, retrieve_data_schema, stored_index, stored_schema};
use crate::error::{CoreStructure, Error};
use crate::DocumentId;
use vstd::prelude::*;
use vstd::slice::*;

verus! {

/// The values that stand for retrieved fields: the attribute and the bytes stored for it.
pub open spec fn fields_of(fields: Seq<(SchemaAttr, Vec<u8>)>) -> Seq<(SchemaAttr, Seq<u8>)> {
    Seq::new(fields.len(), |i: int| (fields[i].0, fields[i].1@))
}

/// The stored fields of the document `id` among the first `upto` attributes:
/// for each attribute that the schema marks as stored and for which the pairs
/// hold a value, the attribute and that value, by increasing identifier.
pub open spec fn stored_fields(
    declarations: Seq<Declaration>,
    pairs: Seq<Pair>,
    id: DocumentId,
    upto: nat,
) -> Seq<(SchemaAttr, Seq<u8>)>
    decreases upto,
{
    if upto == 0 {
        Seq::empty()
    } else {
        let attr = (upto - 1) as u32;
        let before = stored_fields(declarations, pairs, id, (upto - 1) as nat);
        match lookup(pairs, document_key_attr_bytes(id, attr)) {
            Some(value) => if declarations[attr as int].1.stored {
                before.push((SchemaAttr(attr), value))
            } else {
                before
            },
            None => before,
        }
    }
}

/// A stored attribute for which the pairs hold a value is among the stored
/// fields of its document, with that value.
pub proof fn lemma_stored_field_found(
    declarations: Seq<Declaration>,
    pairs: Seq<Pair>,
    id: DocumentId,
    attr: u32,
    upto: nat,
)
    requires
        attr < upto <= declarations.len(),
        upto <= u32::MAX,
        declarations[attr as int].1.stored,
        lookup(pairs, document_key_attr_bytes(id, attr)) is Some,
    ensures
        stored_fields(declarations, pairs, id, upto).contains(
            (SchemaAttr(attr), lookup(pairs, document_key_attr_bytes(id, attr)).unwrap()),
        ),
    decreases upto,
{
    let field = (SchemaAttr(attr), lookup(pairs, document_key_attr_bytes(id, attr)).unwrap());
    let before = stored_fields(declarations, pairs, id, (upto - 1) as nat);
    let all = stored_fields(declarations, pairs, id, upto);
    if attr == upto - 1 {
        assert(all == before.push(field));
        assert(all[before.len() as int] == field);
    } else {
        lemma_stored_field_found(declarations, pairs, id, attr, (upto - 1) as nat);
        let at = choose|at: int| 0 <= at < before.len() && before[at] == field;
        assert(all[at] == field);
    }
}

/// The keys of document attributes among the first `upto` pairs, in their order.
pub open spec fn attribute_keys(pairs: Seq<Pair>, upto: nat) -> Seq<Seq<u8>>
    decreases upto,
{
    if upto == 0 {
        Seq::empty()
    } else {
        let before = attribute_keys(pairs, (upto - 1) as nat);
        let key = pairs[upto - 1].0;
        if has_document_key_attr(key) {
            before.push(key.take(DOC_KEY_ATTR_LEN as int))
        } else {
            before
        }
    }
}

/// The byte strings of keys.
pub open spec fn keys_of(keys: Seq<DocumentKeyAttr>) -> Seq<Seq<u8>> {
    Seq::new(keys.len(), |i: int| keys[i]@)
}

/// No key that comes before the key of the first document is the key of a
/// document's attribute.
proof fn lemma_no_attribute_key_before_documents(pairs: Seq<Pair>, upto: nat)
    requires
        upto <= pairs.len(),
        forall|i: int| 0 <= i < upto ==> precedes((#[trigger] pairs[i]).0, document_key_bytes(0)),
    ensures
        attribute_keys(pairs, upto) == Seq::<Seq<u8>>::empty(),
    decreases upto,
{
    if upto > 0 {
        lemma_no_attribute_key_before_documents(pairs, (upto - 1) as nat);
        let key = pairs[upto - 1].0;
        let first = document_key_bytes(0);
        if has_document_key_attr(key) {
            let k = choose|k: int| precedes_at(key, first, k);
            assert(byte_zero(56) && byte_zero(48) && byte_zero(40) && byte_zero(32) && byte_zero(24)
                && byte_zero(16) && byte_zero(8) && byte_zero(0)) by {
                lemma_zero_bytes();
            }
            assert(key.take(4)[0] == key[0] && key.take(4)[1] == key[1] && key.take(4)[2] == key[2]
                && key.take(4)[3] == key[3]);
            assert(key[k] < first[k]);
            assert(false);
        }
    }
}

spec fn byte_zero(shift: u64) -> bool {
    crate::database::document_key::byte_of(0, shift) == 0
}

proof fn lemma_zero_bytes()
    ensures
        byte_zero(56),
        byte_zero(48),
        byte_zero(40),
        byte_zero(32),
        byte_zero(24),
        byte_zero(16),
        byte_zero(8),
        byte_zero(0),
{
    assert(((0u64 >> 56u64) & 0xff) as u8 == 0) by (bit_vector);
    assert(((0u64 >> 48u64) & 0xff) as u8 == 0) by (bit_vector);
    assert(((0u64 >> 40u64) & 0xff) as u8 == 0) by (bit_vector);
    assert(((0u64 >> 32u64) & 0xff) as u8 == 0) by (bit_vector);
    assert(((0u64 >> 24u64) & 0xff) as u8 == 0) by (bit_vector);
    assert(((0u64 >> 16u64) & 0xff) as u8 == 0) by (bit_vector);
    assert(((0u64 >> 8u64) & 0xff) as u8 == 0) by (bit_vector);
    assert(((0u64 >> 0u64) & 0xff) as u8 == 0) by (bit_vector);
}

/// A snapshot together with the schema and the index that it holds: every
/// read through the view sees one generation of the data.
#[derive(Debug)]
pub struct DatabaseView {
    snapshot: Snapshot,
    blob: PositiveBlob,
    schema: Schema,
}

impl DatabaseView {
    #[verifier::type_invariant]
    spec fn well_formed(self) -> bool {
        self.consistent()
    }

    /// The snapshot that the view reads.
    pub closed spec fn spec_snapshot(&self) -> &Snapshot {
        &self.snapshot
    }

    /// The schema of the view.
    pub closed spec fn spec_schema(&self) -> &Schema {
        &self.schema
    }

    /// The index of the view.
    pub closed spec fn spec_blob(&self) -> &PositiveBlob {
        &self.blob
    }

    /// Schema and index are the ones that the snapshot holds under their keys.
    pub open spec fn consistent(&self) -> bool {
        &&& stored_schema(self.spec_snapshot()@) == Some(self.spec_schema()@)
        &&& stored_index(self.spec_snapshot()@) == Some(self.spec_blob()@)
    }

    /// Opens a view on a snapshot: loads the schema and the index from their
    /// keys. The schema is looked for first.
    pub fn new(snapshot: Snapshot) -> (opened: Result<DatabaseView, Error>)
        ensures
            match opened {
                Ok(view) => view.spec_snapshot()@ == snapshot@ && view.consistent(),
                Err(error) => if stored_schema(snapshot@) is None {
                    error == Error::MissingCoreStructure(CoreStructure::Schema)
                } else {
                    stored_index(snapshot@) is None && error == Error::MissingCoreStructure(
                        CoreStructure::Index,
                    )
                },
            },
    {
        let schema = match retrieve_data_schema(&snapshot) {
            Ok(schema) => schema,
            Err(error) => {
                return Err(error);
            },
        };
        let blob = match retrieve_data_index(&snapshot) {
            Ok(blob) => blob,
            Err(error) => {
                return Err(error);
            },
        };
        Ok(DatabaseView { snapshot, blob, schema })
    }

    /// The schema of the view.
    #[verifier::when_used_as_spec(spec_schema)]
    pub fn schema(&self) -> (schema: &Schema)
        ensures
            schema == self.spec_schema(),
            self.consistent(),
    {
        proof {
            use_type_invariant(self);
        }
        &self.schema
    }

    /// The index of the view.
    #[verifier::when_used_as_spec(spec_blob)]
    pub fn blob(&self) -> (blob: &PositiveBlob)
        ensures
            blob == self.spec_blob(),
            self.consistent(),
    {
        proof {
            use_type_invariant(self);
        }
        &self.blob
    }

    /// Gives the snapshot back and ends the view.
    pub fn into_snapshot(self) -> (snapshot: Snapshot)
        ensures
            snapshot == *self.spec_snapshot(),
    {
        self.snapshot
    }

    /// The snapshot that the view reads.
    #[verifier::when_used_as_spec(spec_snapshot)]
    pub fn snapshot(&self) -> (snapshot: &Snapshot)
        ensures
            snapshot == self.spec_snapshot(),
            self.consistent(),
    {
        proof {
            use_type_invariant(self);
        }
        &self.snapshot
    }

    /// The value that the snapshot holds under `key`.
    pub fn get(&self, key: &[u8]) -> (value: Option<&Vec<u8>>)
        ensures
            match value {
                Some(bytes) => lookup(self.spec_snapshot()@, key@) == Some(bytes@),
                None => lookup(self.spec_snapshot()@, key@) is None,
            },
    {
        self.snapshot.get(key)
    }

    /// Every entry that the view sees, in strictly increasing key order: what
    /// a sorted bulk file of the whole database holds.
    pub fn dump_all(&self) -> (entries: Vec<(Vec<u8>, Vec<u8>)>)
        ensures
            pairs_of(entries@) == self.spec_snapshot()@,
            increasing(pairs_of(entries@)),
    {
        copy_entries(self.snapshot.entries())
    }

    /// The stored fields of a document: for each attribute that the schema
    /// marks as stored and that the snapshot holds for the document, the
    /// attribute and its bytes, by increasing identifier. An attribute that
    /// is only indexed is never among them, and an attribute without a value
    /// is left out.
    pub fn retrieve_document(&self, id: DocumentId) -> (fields: Vec<(SchemaAttr, Vec<u8>)>)
        ensures
            fields_of(fields@) == stored_fields(
                self.spec_schema()@,
                self.spec_snapshot()@,
                id,
                self.spec_schema()@.len(),
            ),
            forall|k: int|
                0 <= k < fields.len() ==> {
                    let attr = (#[trigger] fields[k]).0;
                    &&& attr.0 < self.spec_schema()@.len()
                    &&& self.spec_schema()@[attr.0 as int].1.stored
                    &&& lookup(self.spec_snapshot()@, document_key_attr_bytes(id, attr.0)) == Some(
                        fields[k].1@,
                    )
                },
            forall|k: int, l: int|
                0 <= k < l < fields.len() ==> (#[trigger] fields[k]).0.0 < (#[trigger] fields[l]).0.0,
    {
        let count = self.schema.len();
        let ghost declarations = self.schema@;
        let ghost pairs = self.snapshot@;
        let mut fields: Vec<(SchemaAttr, Vec<u8>)> = Vec::new();
        let mut attr: u32 = 0;
        while attr < count
            invariant
                attr <= count == declarations.len(),
                declarations == self.schema@,
                pairs == self.snapshot@,
                fields_of(fields@) == stored_fields(declarations, pairs, id, attr as nat),
                forall|k: int|
                    0 <= k < fields.len() ==> {
                        let at = (#[trigger] fields[k]).0;
                        &&& at.0 < attr
                        &&& declarations[at.0 as int].1.stored
                        &&& lookup(pairs, document_key_attr_bytes(id, at.0)) == Some(fields[k].1@)
                    },
                forall|k: int, l: int|
                    0 <= k < l < fields.len() ==> (#[trigger] fields[k]).0.0 < (
                    #[trigger] fields[l]).0.0,
            decreases count - attr,
        {
            let ghost before = fields_of(fields@);
            if self.schema.props(SchemaAttr::new(attr)).is_stored() {
                let key = DocumentKeyAttr::new(id, SchemaAttr::new(attr));
                match self.snapshot.get(key.as_bytes()) {
                    Some(value) => {
                        fields.push((SchemaAttr::new(attr), slice_to_vec(value.as_slice())));
                        assert(fields_of(fields@) =~= before.push((SchemaAttr(attr), value@)));
                    },
                    None => {},
                }
            }
            attr += 1;
        }
        fields
    }

    /// The stored fields of each of the documents, in the order of `ids`.
    pub fn retrieve_documents(&self, ids: Vec<DocumentId>) -> (documents: DocumentIter<'_>)
        ensures
            documents.view_of() == self,
            documents.remaining() == ids@,
    {
        let back = ids.len();
        DocumentIter { database_view: self, document_ids: ids, front: 0, back }
    }

    /// A context for queries that is bound to this view: to its schema, its
    /// index and its snapshot, whatever is ingested meanwhile.
    pub fn query_builder(&self) -> (builder: QueryBuilder<'_>)
        ensures
            builder.view_of() == self,
    {
        QueryBuilder { view: self }
    }

    /// The keys of all document attributes that the snapshot holds, in key
    /// order: documents by identifier, and the attributes of each by theirs.
    pub fn document_keys(&self) -> (keys: Vec<DocumentKeyAttr>)
        ensures
            keys_of(keys@) == attribute_keys(self.spec_snapshot()@, self.spec_snapshot()@.len()),
    {
        let first = DocumentKey::new(0);
        let start = self.snapshot.lower_bound(first.as_bytes());
        let entries = self.snapshot.entries();
        let ghost pairs = self.snapshot@;
        proof {
            lemma_no_attribute_key_before_documents(pairs, start as nat);
        }
        let mut keys: Vec<DocumentKeyAttr> = Vec::new();
        let mut i: usize = start;
        while i < entries.len()
            invariant
                start <= i <= entries.len(),
                pairs == pairs_of(entries@),
                keys_of(keys@) == attribute_keys(pairs, i as nat),
            decreases entries.len() - i,
        {
            let ghost before = keys_of(keys@);
            match DocumentKeyAttr::from_bytes(entries[i].0.as_slice()) {
                Some(key) => {
                    keys.push(key);
                    assert(keys_of(keys@) =~= before.push(key@));
                },
                None => {},
            }
            i += 1;
        }
        keys
    }
}

/// The documents of a sequence of identifiers, handed out one by one from
/// either end, each retrieved when it is asked for.
#[derive(Debug)]
pub struct DocumentIter<'a> {
    database_view: &'a DatabaseView,
    document_ids: Vec<DocumentId>,
    front: usize,
    back: usize,
}

impl<'a> DocumentIter<'a> {
    #[verifier::type_invariant]
    spec fn well_formed(self) -> bool {
        self.front <= self.back <= self.document_ids.len()
    }

    /// The view that the documents are retrieved from.
    pub closed spec fn view_of(&self) -> &DatabaseView {
        self.database_view
    }

    /// The identifiers whose documents are still to come, first to last.
    pub closed spec fn remaining(&self) -> Seq<DocumentId> {
        self.document_ids@.subrange(self.front as int, self.back as int)
    }

    /// How many documents are still to come: the lower and the upper bound are
    /// that number.
    pub fn size_hint(&self) -> (hint: (usize, Option<usize>))
        ensures
            hint.0 == self.remaining().len(),
            hint.1 == Some(hint.0),
    {
        proof {
            use_type_invariant(self);
        }
        let left = self.back - self.front;
        (left, Some(left))
    }

    /// The stored fields of the first document that is still to come.
    pub fn next(&mut self) -> (document: Option<Vec<(SchemaAttr, Vec<u8>)>>)
        ensures
            final(self).view_of() == old(self).view_of(),
            match document {
                Some(fields) => {
                    &&& old(self).remaining().len() > 0
                    &&& final(self).remaining() == old(self).remaining().drop_first()
                    &&& fields_of(fields@) == stored_fields(
                        old(self).view_of().spec_schema()@,
                        old(self).view_of().spec_snapshot()@,
                        old(self).remaining().first(),
                        old(self).view_of().spec_schema()@.len(),
                    )
                },
                None => old(self).remaining().len() == 0 && final(self).remaining() == old(
                    self,
                ).remaining(),
            },
    {
        proof {
            use_type_invariant(&*self);
        }
        if self.front < self.back {
            let id = self.document_ids[self.front];
            self.front = self.front + 1;
            assert(self.remaining() =~= old(self).remaining().drop_first());
            Some(self.database_view.retrieve_document(id))
        } else {
            None
        }
    }

    /// The stored fields of the last document that is still to come.
    pub fn next_back(&mut self) -> (document: Option<Vec<(SchemaAttr, Vec<u8>)>>)
        ensures
            final(self).view_of() == old(self).view_of(),
            match document {
                Some(fields) => {
                    &&& old(self).remaining().len() > 0
                    &&& final(self).remaining() == old(self).remaining().drop_last()
                    &&& fields_of(fields@) == stored_fields(
                        old(self).view_of().spec_schema()@,
                        old(self).view_of().spec_snapshot()@,
                        old(self).remaining().last(),
                        old(self).view_of().spec_schema()@.len(),
                    )
                },
                None => old(self).remaining().len() == 0 && final(self).remaining() == old(
                    self,
                ).remaining(),
            },
    {
        proof {
            use_type_invariant(&*self);
        }
        if self.front < self.back {
            self.back = self.back - 1;
            let id = self.document_ids[self.back];
            assert(self.remaining() =~= old(self).remaining().drop_last());
            Some(self.database_view.retrieve_document(id))
        } else {
            None
        }
    }
}

/// A context for queries on one view.
#[derive(Debug)]
pub struct QueryBuilder<'a> {
    view: &'a DatabaseView,
}

impl<'a> QueryBuilder<'a> {
    /// The view that the queries read.
    pub closed spec fn view_of(&self) -> &DatabaseView {
        self.view
    }

    /// The occurrences of `term` in the index of the view, for ranking.
    pub fn postings(&self, term: &str) -> (found: Vec<Posting>)
        ensures
            found@ == postings_of(
                self.view_of().spec_blob()@,
                term@,
                self.view_of().spec_blob()@.len(),
            ),
    {
        self.view.blob().get(term)
    }
}

} // verus!
