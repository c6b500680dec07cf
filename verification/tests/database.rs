use meilidb::database::blob::{PositiveBlob, Posting};
use meilidb::database::database_view::DatabaseView;
use meilidb::database::document_key::DocumentKeyAttr;
use meilidb::database::key_space::Snapshot;
use meilidb::database::schema::{Schema, SchemaAttr, SchemaBuilder, SchemaProps};
use meilidb::database::update::{Field, PositiveUpdate, PositiveUpdateBuilder};
use meilidb::database::{index_key, retrieve_data_index, retrieve_data_schema, schema_key, Database};
use meilidb::error::{CoreStructure, Error};

const H: u64 = 0x1234_5678_9abc_def0;

fn schema() -> Schema {
    let mut builder = SchemaBuilder::new();
    builder.new_attribute("id", SchemaProps::stored()).unwrap();
    builder.new_attribute("title", SchemaProps::stored() | SchemaProps::indexed()).unwrap();
    builder.new_attribute("keywords", SchemaProps::indexed()).unwrap();
    builder.build()
}

fn tokens(text: &str) -> Vec<(String, u32)> {
    let mut position = 0u32;
    let mut tokens = Vec::new();
    for word in text.split_whitespace() {
        tokens.push((word.to_lowercase(), position));
        position += 1;
    }
    tokens
}

fn text_field(name: &str, text: &str) -> Field {
    Field { name: name.to_string(), value: bincode::serialize(text).unwrap(), tokens: tokens(text) }
}

fn document(id: &str, title: &str) -> Vec<Field> {
    vec![text_field("id", id), text_field("title", title)]
}

fn update_of(id: u64, fields: &Vec<Field>) -> PositiveUpdate {
    let mut builder = PositiveUpdateBuilder::new(schema());
    builder.update(id, fields);
    builder.build().unwrap()
}

fn text(bytes: &[u8]) -> String {
    bincode::deserialize(bytes).unwrap()
}

#[test]
fn well_known_keys() {
    assert_eq!(&schema_key()[..], &b"data-schema"[..]);
    assert_eq!(&index_key()[..], &b"data-index"[..]);
}

#[test]
fn created_database_opens_to_its_schema_and_an_empty_index() {
    let database = Database::create(schema()).unwrap();
    let mut record = Vec::new();
    schema().write_to(&mut record).unwrap();
    assert_eq!(database.get(b"data-schema"), Some(&record));
    assert_eq!(database.get(b"data-index"), Some(&PositiveBlob::new().to_bytes().unwrap()));
    assert_eq!(database.get(b"data"), None);
    let view = database.view();
    assert_eq!(view.schema(), &schema());
    assert_eq!(view.blob().len(), 0);
    assert_eq!(view.snapshot().len(), 2);
    assert!(view.retrieve_document(H).is_empty());
    assert!(view.document_keys().is_empty());
}

#[test]
fn end_to_end() {
    let mut database = Database::create(schema()).unwrap();
    let mut update = update_of(H, &document("42", "hello world"));
    update.set_move(true);
    assert!(update.is_move());
    database.ingest_update_file(update);

    let view = database.view();
    let fields = view.retrieve_document(H);
    assert_eq!(fields.len(), 2);
    assert_eq!(fields[0].0, SchemaAttr::new(0));
    assert_eq!(text(&fields[0].1), "42");
    assert_eq!(fields[1].0, SchemaAttr::new(1));
    assert_eq!(text(&fields[1].1), "hello world");
    assert_eq!(view.schema().attribute_name(fields[1].0), "title");

    let title = view.schema().attribute("title").unwrap();
    assert_eq!(
        view.blob().get("hello"),
        vec![Posting { document_id: H, attribute: title, position: 0 }]
    );
    assert_eq!(
        view.query_builder().postings("world"),
        vec![Posting { document_id: H, attribute: title, position: 1 }]
    );
    assert!(view.blob().get("42").is_empty());
    assert!(view.blob().get("absent").is_empty());
}

#[test]
fn stored_and_indexed_are_separate() {
    let mut database = Database::create(schema()).unwrap();
    let fields = vec![
        text_field("id", "seven"),
        text_field("keywords", "Search Engine"),
        text_field("unknown", "passed over"),
    ];
    let mut builder = PositiveUpdateBuilder::new(schema());
    assert_eq!(builder.update_attribute(H, "id", &fields[0].value, &fields[0].tokens), Some(SchemaAttr::new(0)));
    assert_eq!(
        builder.update_attribute(H, "keywords", &fields[1].value, &fields[1].tokens),
        Some(SchemaAttr::new(2))
    );
    assert_eq!(builder.update_attribute(H, "unknown", &fields[2].value, &fields[2].tokens), None);
    database.ingest_update_file(builder.build().unwrap());

    let view = database.view();
    // Only the stored attribute is retrieved, and it has no posting.
    assert_eq!(view.retrieve_document(H), vec![(SchemaAttr::new(0), fields[0].value.clone())]);
    assert!(view.blob().get("seven").is_empty());
    // The indexed attribute is found by its terms, and has no value in the store.
    let keywords = SchemaAttr::new(2);
    assert_eq!(view.blob().get("search"), vec![Posting { document_id: H, attribute: keywords, position: 0 }]);
    assert_eq!(view.blob().get("engine"), vec![Posting { document_id: H, attribute: keywords, position: 1 }]);
    assert_eq!(view.get(DocumentKeyAttr::new(H, keywords).as_bytes()), None);
    assert!(view.blob().get("passed").is_empty());
    assert_eq!(view.document_keys(), vec![DocumentKeyAttr::new(H, SchemaAttr::new(0))]);
}

#[test]
fn ingesting_twice_is_ingesting_once() {
    let fields = document("42", "hello world");
    let mut once = Database::create(schema()).unwrap();
    once.ingest_update_file(update_of(H, &fields));
    let mut twice = Database::create(schema()).unwrap();
    twice.ingest_update_file(update_of(H, &fields));
    twice.ingest_update_file(update_of(H, &fields));
    assert_eq!(once.snapshot(), twice.snapshot());
    assert_eq!(once.view().dump_all(), twice.view().dump_all());
    assert_eq!(twice.view().retrieve_document(H).len(), 2);
}

#[test]
fn update_replaces_the_values_of_its_keys() {
    let mut database = Database::create(schema()).unwrap();
    database.ingest_update_file(update_of(H, &document("42", "hello world")));
    database.ingest_update_file(update_of(7, &document("7", "other")));
    database.ingest_update_file(update_of(H, &document("42", "goodbye")));
    let view = database.view();
    assert_eq!(text(&view.retrieve_document(H)[1].1), "goodbye");
    assert_eq!(text(&view.retrieve_document(7)[1].1), "other");
    assert_eq!(view.snapshot().len(), 6);
}

#[test]
fn open_view_is_isolated_from_later_ingestion() {
    let mut database = Database::create(schema()).unwrap();
    database.ingest_update_file(update_of(1, &document("1", "first")));
    let before = database.view();
    let dump = before.dump_all();
    database.ingest_update_file(update_of(2, &document("2", "second")));
    database.ingest_update_file(update_of(1, &document("1", "changed")));

    assert_eq!(before.dump_all(), dump);
    assert!(before.retrieve_document(2).is_empty());
    assert_eq!(before.get(DocumentKeyAttr::new(2, SchemaAttr::new(0)).as_bytes()), None);
    assert_eq!(text(&before.retrieve_document(1)[1].1), "first");
    assert!(before.blob().get("second").is_empty());
    assert_eq!(before.blob().get("first").len(), 1);

    let after = database.view();
    assert_eq!(after.retrieve_document(2).len(), 2);
    assert_eq!(text(&after.retrieve_document(1)[1].1), "changed");
}

#[test]
fn missing_schema_is_a_missing_core_structure() {
    let index = PositiveBlob::new().to_bytes().unwrap();
    let snapshot = Snapshot::from_entries(vec![(b"data-index".to_vec(), index)]).unwrap();
    assert_eq!(
        retrieve_data_schema(&snapshot),
        Err(Error::MissingCoreStructure(CoreStructure::Schema))
    );
    match DatabaseView::new(snapshot) {
        Err(error) => assert_eq!(error, Error::MissingCoreStructure(CoreStructure::Schema)),
        Ok(_) => panic!("a snapshot without a schema opened"),
    }
    match DatabaseView::new(Snapshot::from_entries(vec![]).unwrap()) {
        Err(error) => assert_eq!(error, Error::MissingCoreStructure(CoreStructure::Schema)),
        Ok(_) => panic!("an empty snapshot opened"),
    }
}

#[test]
fn corrupt_schema_is_a_missing_core_structure() {
    let index = PositiveBlob::new().to_bytes().unwrap();
    let snapshot = Snapshot::from_entries(vec![
        (b"data-index".to_vec(), index),
        (b"data-schema".to_vec(), vec![1, 2, 3]),
    ])
    .unwrap();
    assert!(matches!(
        DatabaseView::new(snapshot),
        Err(Error::MissingCoreStructure(CoreStructure::Schema))
    ));
}

#[test]
fn missing_or_corrupt_index_is_a_missing_core_structure() {
    let mut record = Vec::new();
    schema().write_to(&mut record).unwrap();
    let snapshot = Snapshot::from_entries(vec![(b"data-schema".to_vec(), record.clone())]).unwrap();
    assert_eq!(retrieve_data_schema(&snapshot), Ok(schema()));
    assert_eq!(
        retrieve_data_index(&snapshot),
        Err(Error::MissingCoreStructure(CoreStructure::Index))
    );
    assert!(matches!(
        DatabaseView::new(snapshot),
        Err(Error::MissingCoreStructure(CoreStructure::Index))
    ));
    let snapshot = Snapshot::from_entries(vec![
        (b"data-index".to_vec(), vec![0xff; 3]),
        (b"data-schema".to_vec(), record),
    ])
    .unwrap();
    assert!(matches!(
        DatabaseView::new(snapshot),
        Err(Error::MissingCoreStructure(CoreStructure::Index))
    ));
}

#[test]
fn view_reads_its_snapshot() {
    let mut database = Database::create(schema()).unwrap();
    database.ingest_update_file(update_of(3, &document("3", "three")));
    let snapshot = database.snapshot();
    let view = DatabaseView::new(snapshot.clone()).unwrap();
    assert_eq!(view.snapshot(), &snapshot);
    assert_eq!(view.get(b"data-schema"), snapshot.get(b"data-schema"));
    assert_eq!(view.get(b"nothing"), None);
    let dump = view.dump_all();
    assert_eq!(&dump, snapshot.entries());
    for i in 1..dump.len() {
        assert!(dump[i - 1].0 < dump[i].0);
    }
    assert_eq!(view.into_snapshot(), snapshot);
}

#[test]
fn document_keys_are_listed_in_key_order() {
    let mut database = Database::create(schema()).unwrap();
    database.ingest_update_file(update_of(9, &document("9", "nine")));
    database.ingest_update_file(update_of(2, &document("2", "two")));
    let view = database.view();
    assert_eq!(
        view.document_keys(),
        vec![
            DocumentKeyAttr::new(2, SchemaAttr::new(0)),
            DocumentKeyAttr::new(2, SchemaAttr::new(1)),
            DocumentKeyAttr::new(9, SchemaAttr::new(0)),
            DocumentKeyAttr::new(9, SchemaAttr::new(1)),
        ]
    );
}

#[test]
fn documents_come_in_the_order_of_their_identifiers() {
    let mut database = Database::create(schema()).unwrap();
    database.ingest_update_file(update_of(1, &document("1", "one")));
    database.ingest_update_file(update_of(2, &document("2", "two")));
    database.ingest_update_file(update_of(3, &document("3", "three")));
    let view = database.view();

    let mut documents = view.retrieve_documents(vec![3, 1, 8, 2]);
    assert_eq!(documents.size_hint(), (4, Some(4)));
    assert_eq!(text(&documents.next().unwrap()[0].1), "3");
    assert_eq!(documents.size_hint(), (3, Some(3)));
    assert_eq!(text(&documents.next_back().unwrap()[0].1), "2");
    assert_eq!(text(&documents.next().unwrap()[0].1), "1");
    // A document that the store lacks has no fields; it does not end the sequence.
    assert_eq!(documents.next(), Some(vec![]));
    assert_eq!(documents.size_hint(), (0, Some(0)));
    assert_eq!(documents.next(), None);
    assert_eq!(documents.next_back(), None);

    let mut none = view.retrieve_documents(vec![]);
    assert_eq!(none.size_hint(), (0, Some(0)));
    assert_eq!(none.next(), None);
}

#[test]
fn blob_round_trip() {
    let postings = vec![
        ("hello".to_string(), (1u64, 1u32, 0u32)),
        ("world".to_string(), (1, 1, 1)),
        ("hello".to_string(), (2, 2, 5)),
    ];
    let blob = PositiveBlob::from_postings(postings.clone());
    assert_eq!(blob.len(), 3);
    let bytes = blob.to_bytes().unwrap();
    assert_eq!(bytes, bincode::serialize(&postings).unwrap());
    assert_ne!(bytes.len(), 0);
    let read = PositiveBlob::from_bytes(&bytes).unwrap();
    assert_eq!(read, blob);
    assert_eq!(
        read.get("hello"),
        vec![
            Posting { document_id: 1, attribute: SchemaAttr::new(1), position: 0 },
            Posting { document_id: 2, attribute: SchemaAttr::new(2), position: 5 },
        ]
    );
    assert_eq!(PositiveBlob::from_bytes(&bytes[..bytes.len() - 1]), Err(Error::Decode));
    assert_eq!(PositiveBlob::from_bytes(&[]), Err(Error::Decode));
}

#[test]
fn sealed_update_holds_its_writes_in_key_order() {
    let update = update_of(H, &document("42", "hello world"));
    assert!(!update.is_move());
    let entries = update.entries();
    assert_eq!(entries.len(), 3);
    assert_eq!(entries[0].0, b"data-index".to_vec());
    assert_eq!(entries[1].0, DocumentKeyAttr::new(H, SchemaAttr::new(0)).as_bytes().to_vec());
    assert_eq!(entries[2].0, DocumentKeyAttr::new(H, SchemaAttr::new(1)).as_bytes().to_vec());
    assert_eq!(text(&entries[1].1), "42");
    let blob = PositiveBlob::from_bytes(&entries[0].1).unwrap();
    assert_eq!(blob.len(), 2);
}
