//! The database: its store, its schema, its document keys, its updates and its read views.

use crate::database::blob::{decoded_postings, encoded_postings, PositiveBlob, TermEntry};
use crate::database::database_view::DatabaseView;
use crate::database::key_space::{
    as_map, lemma_increasing_pairs_unique, lemma_lookup_is_map, lemma_map_of_start, increasing,
    lookup, pairs_of, KeySpace, Pair, Snapshot,
};
use crate::database::schema::{
    lemma_schema_round_trip, read_schema, readable_schema, schema_record, valid_declarations,
    Declaration, Schema,
};
use crate::database::update::PositiveUpdate;
use crate::error::{CoreStructure, Error};
use vstd::prelude::*;
use vstd::slice::*;

pub mod attribute_map;
pub mod blob;
pub mod database_view;
pub mod document_key;
pub mod key_space;
pub mod lexicographic;
pub mod schema;
pub mod schema_record;
pub mod update;

verus! {

/// The key `data-schema`, under which the record of the schema is stored.
pub open spec fn data_schema_key() -> Seq<u8> {
    seq![0x64u8, 0x61u8, 0x74u8, 0x61u8, 0x2du8, 0x73u8, 0x63u8, 0x68u8, 0x65u8, 0x6du8, 0x61u8]
}

/// The key `data-index`, under which the index is stored.
pub open spec fn data_index_key() -> Seq<u8> {
    seq![0x64u8, 0x61u8, 0x74u8, 0x61u8, 0x2du8, 0x69u8, 0x6eu8, 0x64u8, 0x65u8, 0x78u8]
}

/// The key under which the record of the schema is stored.
pub fn schema_key() -> (key: [u8; 11])
    ensures
        key@ == data_schema_key(),
{
    let key = [0x64u8, 0x61u8, 0x74u8, 0x61u8, 0x2du8, 0x73u8, 0x63u8, 0x68u8, 0x65u8, 0x6du8, 0x61u8];
    assert(key@ =~= data_schema_key());
    key
}

/// The key under which the index is stored.
pub fn index_key() -> (key: [u8; 10])
    ensures
        key@ == data_index_key(),
{
    let key = [0x64u8, 0x61u8, 0x74u8, 0x61u8, 0x2du8, 0x69u8, 0x6eu8, 0x64u8, 0x65u8, 0x78u8];
    assert(key@ =~= data_index_key());
    key
}

/// The declarations of the schema that the pairs hold under its key, if they
/// hold a readable one.
pub open spec fn stored_schema(pairs: Seq<Pair>) -> Option<Seq<Declaration>> {
    match lookup(pairs, data_schema_key()) {
        Some(bytes) => if readable_schema(bytes) {
            Some(read_schema(bytes))
        } else {
            None
        },
        None => None,
    }
}

/// The schema of the database that the snapshot was taken of. A snapshot
/// without a schema, or with one that cannot be read, is no database.
pub fn retrieve_data_schema(snapshot: &Snapshot) -> (retrieved: Result<Schema, Error>)
    ensures
        match retrieved {
            Ok(schema) => stored_schema(snapshot@) == Some(schema@),
            Err(error) => stored_schema(snapshot@) is None && error == Error::MissingCoreStructure(
                CoreStructure::Schema,
            ),
        },
{
    let key = schema_key();
    match snapshot.get(key.as_slice()) {
        Some(bytes) => match Schema::read_from(bytes.as_slice()) {
            Ok(schema) => Ok(schema),
            Err(_) => Err(Error::MissingCoreStructure(CoreStructure::Schema)),
        },
        None => Err(Error::MissingCoreStructure(CoreStructure::Schema)),
    }
}

/// The index that the pairs hold under its key, if they hold a readable one.
pub open spec fn stored_index(pairs: Seq<Pair>) -> Option<Seq<TermEntry>> {
    match lookup(pairs, data_index_key()) {
        Some(bytes) => decoded_postings(bytes),
        None => None,
    }
}

/// The index of the database that the snapshot was taken of. A snapshot
/// without an index, or with one that cannot be read, is no database.
pub fn retrieve_data_index(snapshot: &Snapshot) -> (retrieved: Result<PositiveBlob, Error>)
    ensures
        match retrieved {
            Ok(blob) => stored_index(snapshot@) == Some(blob@),
            Err(error) => stored_index(snapshot@) is None && error == Error::MissingCoreStructure(
                CoreStructure::Index,
            ),
        },
{
    let key = index_key();
    match snapshot.get(key.as_slice()) {
        Some(bytes) => match PositiveBlob::from_bytes(bytes.as_slice()) {
            Ok(blob) => Ok(blob),
            Err(_) => Err(Error::MissingCoreStructure(CoreStructure::Index)),
        },
        None => Err(Error::MissingCoreStructure(CoreStructure::Index)),
    }
}

/// The store of a database: every key with its value. It holds a schema and
/// an index at all times, and only the ingestion of a sealed update changes it.
#[derive(Debug)]
pub struct Database {
    store: KeySpace,
}

impl Database {
    #[verifier::type_invariant]
    spec fn holds_core(self) -> bool {
        stored_schema(self.store@) is Some && stored_index(self.store@) is Some
    }

    /// The entries of the store, in strictly increasing key order.
    pub closed spec fn entries(&self) -> Seq<Pair> {
        self.store@
    }

    /// What the store holds: for each key its value.
    pub open spec fn contents(&self) -> Map<Seq<u8>, Seq<u8>> {
        as_map(self.entries())
    }

    /// A database of this schema without documents: it holds the record of
    /// the schema and an index without occurrences.
    pub fn create(schema: Schema) -> (created: Result<Database, Error>)
        ensures
            match created {
                Ok(database) => {
                    &&& database.contents() == Map::<Seq<u8>, Seq<u8>>::empty().insert(
                        data_schema_key(),
                        schema_record(schema@),
                    ).insert(data_index_key(), encoded_postings(Seq::<TermEntry>::empty()))
                    &&& increasing(database.entries())
                    &&& stored_schema(database.entries()) == Some(schema@)
                    &&& stored_index(database.entries()) == Some(Seq::<TermEntry>::empty())
                },
                Err(_) => false,
            },
    {
        let _ = schema.len();
        let mut store = KeySpace::new();
        let mut record: Vec<u8> = Vec::new();
        match schema.write_to(&mut record) {
            Ok(()) => {},
            Err(error) => {
                return Err(error);
            },
        }
        assert(record@ =~= schema_record(schema@));
        assert(record@.len() == record.len());
        let index = match PositiveBlob::new().to_bytes() {
            Ok(bytes) => bytes,
            Err(error) => {
                return Err(error);
            },
        };
        let key = schema_key();
        store.put(slice_to_vec(key.as_slice()), record);
        let key = index_key();
        store.put(slice_to_vec(key.as_slice()), index);
        proof {
            lemma_created_database(schema@, store@);
        }
        Ok(Database { store })
    }

    /// Merges a sealed update into the store: each key of the update takes
    /// the update's value, and every other key keeps its own. The merged
    /// store takes the place of the old one in one step. The update is used
    /// up. Whether its file is moved or copied changes nothing in what the
    /// store holds afterwards.
    pub fn ingest_update_file(&mut self, update: PositiveUpdate)
        ensures
            final(self).contents() == old(self).contents().union_prefer_right(update.writes()),
            increasing(final(self).entries()),
            stored_schema(final(self).entries()) == stored_schema(old(self).entries()),
            stored_index(final(self).entries()) == decoded_postings(
                update.writes()[data_index_key()],
            ),
    {
        proof {
            use_type_invariant(&*self);
        }
        let entries = update.entries();
        let ghost before = self.contents();
        let ghost pairs = pairs_of(entries@);
        let mut merged = self.store.clone();
        let mut i: usize = 0;
        assert(as_map(pairs.take(0)) =~= Map::<Seq<u8>, Seq<u8>>::empty());
        assert(before.union_prefer_right(Map::<Seq<u8>, Seq<u8>>::empty()) =~= before);
        while i < entries.len()
            invariant
                i <= entries.len(),
                pairs == pairs_of(entries@),
                increasing(pairs),
                as_map(merged@) == before.union_prefer_right(as_map(pairs.take(i as int))),
            decreases entries.len() - i,
        {
            proof {
                lemma_map_of_start(pairs, i as int);
                let so_far = as_map(pairs.take(i as int));
                assert(before.union_prefer_right(so_far.insert(pairs[i as int].0, pairs[i as int].1))
                    =~= before.union_prefer_right(so_far).insert(
                    pairs[i as int].0,
                    pairs[i as int].1,
                ));
            }
            merged.put(
                slice_to_vec(entries[i].0.as_slice()),
                slice_to_vec(entries[i].1.as_slice()),
            );
            i += 1;
        }
        proof {
            assert(pairs.take(i as int) =~= pairs);
            use_type_invariant(&merged);
            lemma_lookup_is_map(self.store@, data_schema_key());
            lemma_lookup_is_map(merged@, data_schema_key());
            lemma_lookup_is_map(merged@, data_index_key());
        }
        self.store = merged;
    }

    /// The store as it is now. What is ingested later does not reach the snapshot.
    pub fn snapshot(&self) -> (snapshot: Snapshot)
        ensures
            snapshot@ == self.entries(),
    {
        Snapshot::of(&self.store)
    }

    /// A view of the store as it is now: of a snapshot that is taken for the
    /// view, with the schema and the index that the store holds.
    pub fn view(&self) -> (view: DatabaseView)
        ensures
            view.spec_snapshot()@ == self.entries(),
            view.consistent(),
    {
        proof {
            use_type_invariant(self);
        }
        match DatabaseView::new(self.snapshot()) {
            Ok(view) => view,
            Err(_) => unreached(),
        }
    }

    /// The value that the store holds under `key`.
    pub fn get(&self, key: &[u8]) -> (value: Option<&Vec<u8>>)
        ensures
            match value {
                Some(bytes) => self.contents().contains_key(key@) && self.contents()[key@] == bytes@,
                None => !self.contents().contains_key(key@),
            },
    {
        proof {
            lemma_lookup_is_map(self.store@, key@);
        }
        self.store.get(key)
    }
}

/// Ingesting the same update twice leaves the store as ingesting it once does.
pub proof fn lemma_ingest_idempotent(store: Map<Seq<u8>, Seq<u8>>, update: Map<Seq<u8>, Seq<u8>>)
    ensures
        store.union_prefer_right(update).union_prefer_right(update) == store.union_prefer_right(
            update,
        ),
{
    assert(store.union_prefer_right(update).union_prefer_right(update)
        =~= store.union_prefer_right(update));
}

/// Two key spaces that hold the same values under the same keys hold the same
/// entries in the same order: a scan cannot tell one ingestion from two.
pub proof fn lemma_ingest_idempotent_entries(
    store: Map<Seq<u8>, Seq<u8>>,
    update: Map<Seq<u8>, Seq<u8>>,
    once: Seq<Pair>,
    twice: Seq<Pair>,
)
    requires
        increasing(once),
        increasing(twice),
        as_map(once) == store.union_prefer_right(update),
        as_map(twice) == as_map(once).union_prefer_right(update),
    ensures
        twice == once,
{
    lemma_ingest_idempotent(store, update);
    lemma_increasing_pairs_unique(twice, once);
}

/// A snapshot is isolated from later ingestion: under every key it holds
/// what the store held when the snapshot was taken, whatever update the
/// store has ingested since. A key that only the update brings is not seen.
pub proof fn lemma_snapshot_isolation(
    snapshot: Seq<Pair>,
    store: Map<Seq<u8>, Seq<u8>>,
    update: Map<Seq<u8>, Seq<u8>>,
    key: Seq<u8>,
)
    requires
        as_map(snapshot) == store,
    ensures
        store.contains_key(key) ==> lookup(snapshot, key) == Some(store[key]),
        !store.contains_key(key) ==> lookup(snapshot, key) is None,
        update.contains_key(key) && !store.contains_key(key) ==> store.union_prefer_right(
            update,
        ).contains_key(key) && lookup(snapshot, key) is None,
{
    lemma_lookup_is_map(snapshot, key);
}

/// A database that was created of a schema opens to a view of that schema
/// and of an index without occurrences.
pub proof fn lemma_created_database(declarations: Seq<Declaration>, pairs: Seq<Pair>)
    requires
        valid_declarations(declarations),
        schema_record(declarations).len() <= usize::MAX,
        as_map(pairs) == Map::<Seq<u8>, Seq<u8>>::empty().insert(
            data_schema_key(),
            schema_record(declarations),
        ).insert(data_index_key(), encoded_postings(Seq::<TermEntry>::empty())),
    ensures
        stored_schema(pairs) == Some(declarations),
        lookup(pairs, data_index_key()) == Some(encoded_postings(Seq::<TermEntry>::empty())),
{
    lemma_lookup_is_map(pairs, data_schema_key());
    lemma_lookup_is_map(pairs, data_index_key());
    assert(data_schema_key() != data_index_key()) by {
        assert(data_schema_key().len() != data_index_key().len());
    }
    lemma_schema_round_trip(declarations, Seq::empty());
    assert(schema_record(declarations) + Seq::<u8>::empty() =~= schema_record(declarations));
}

} // verus!
