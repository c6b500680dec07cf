use linked_hash_map::LinkedHashMap;
use meilidb::database::schema::{Schema, SchemaAttr, SchemaBuilder, SchemaProps};
use meilidb::error::Error;

fn three_attributes() -> Schema {
    let mut builder = SchemaBuilder::new();
    builder.new_attribute("alphabet", SchemaProps::stored()).unwrap();
    builder.new_attribute("beta", SchemaProps::stored() | SchemaProps::indexed()).unwrap();
    builder.new_attribute("gamma", SchemaProps::indexed()).unwrap();
    builder.build()
}

#[test]
fn serialize_deserialize() -> Result<(), Error> {
    let mut builder = SchemaBuilder::new();
    builder.new_attribute("alphabet", SchemaProps::stored())?;
    builder.new_attribute("beta", SchemaProps::stored() | SchemaProps::indexed())?;
    builder.new_attribute("gamma", SchemaProps::indexed())?;
    let schema = builder.build();

    let mut buffer = Vec::new();

    schema.write_to(&mut buffer)?;
    let schema2 = Schema::read_from(buffer.as_slice())?;

    assert_eq!(schema, schema2);

    Ok(())
}

#[test]
fn props_combine_by_or() {
    let stored = SchemaProps::stored();
    let indexed = SchemaProps::indexed();
    assert!(stored.is_stored() && !stored.is_indexed());
    assert!(!indexed.is_stored() && indexed.is_indexed());
    let both = stored | indexed;
    assert!(both.is_stored() && both.is_indexed());
    assert_eq!(stored | stored, stored);
    assert_eq!(both, SchemaProps { stored: true, indexed: true });
}

#[test]
fn attribute_identifiers() {
    assert_eq!(SchemaAttr::new(7).as_u32(), 7);
    assert_eq!(SchemaAttr::max().as_u32(), u32::MAX);
    assert_eq!(SchemaAttr::max().as_u32(), 4_294_967_295);
    assert!(SchemaAttr::new(3) < SchemaAttr::new(4));
    assert!(SchemaAttr::new(4) < SchemaAttr::max());
}

#[test]
fn attributes_are_numbered_in_declaration_order() {
    let mut builder = SchemaBuilder::new();
    assert_eq!(builder.new_attribute("id", SchemaProps::stored()), Ok(SchemaAttr::new(0)));
    assert_eq!(
        builder.new_attribute("title", SchemaProps::stored() | SchemaProps::indexed()),
        Ok(SchemaAttr::new(1))
    );
    let schema = builder.build();
    assert_eq!(schema.len(), 2);
    assert_eq!(schema.attribute("id"), Some(SchemaAttr::new(0)));
    assert_eq!(schema.attribute("title"), Some(SchemaAttr::new(1)));
    assert_eq!(schema.attribute("image"), None);
    assert_eq!(schema.attribute_name(SchemaAttr::new(0)), "id");
    assert_eq!(schema.attribute_name(SchemaAttr::new(1)), "title");
    assert!(schema.props(SchemaAttr::new(1)).is_indexed());
    assert!(schema.props(SchemaAttr::new(1)).is_stored());
    assert!(!schema.props(SchemaAttr::new(0)).is_indexed());
}

#[test]
fn duplicate_name_is_rejected() {
    let mut builder = SchemaBuilder::new();
    assert_eq!(builder.new_attribute("title", SchemaProps::stored()), Ok(SchemaAttr::new(0)));
    assert_eq!(builder.new_attribute("title", SchemaProps::indexed()), Err(Error::DuplicateAttribute));
    // The refused declaration leaves the builder as it was.
    assert_eq!(builder.new_attribute("body", SchemaProps::indexed()), Ok(SchemaAttr::new(1)));
    let schema = builder.build();
    assert_eq!(schema.len(), 2);
    assert_eq!(schema.props(SchemaAttr::new(0)), SchemaProps::stored());
}

#[test]
fn empty_schema() {
    let schema = SchemaBuilder::new().build();
    assert_eq!(schema.len(), 0);
    assert_eq!(schema.attribute("anything"), None);
    let mut buffer = Vec::new();
    schema.write_to(&mut buffer).unwrap();
    assert_eq!(buffer, vec![0u8; 8]);
    assert_eq!(Schema::read_from(&buffer), Ok(schema));
}

#[test]
fn record_layout_is_exact() {
    let mut builder = SchemaBuilder::new();
    builder.new_attribute("id", SchemaProps::stored()).unwrap();
    builder.new_attribute("né", SchemaProps::indexed()).unwrap();
    let schema = builder.build();
    let mut buffer = vec![0xffu8];
    schema.write_to(&mut buffer).unwrap();
    let expected: Vec<u8> = vec![
        0xff, // what the buffer held before
        2, 0, 0, 0, 0, 0, 0, 0, // two entries
        2, 0, 0, 0, 0, 0, 0, 0, b'i', b'd', 1, 0, // "id", stored
        3, 0, 0, 0, 0, 0, 0, 0, b'n', 0xc3, 0xa9, 0, 1, // "né", indexed
    ];
    assert_eq!(buffer, expected);
}

#[test]
fn record_is_the_bincode_encoding_of_the_ordered_map() {
    let schema = three_attributes();
    let mut buffer = Vec::new();
    schema.write_to(&mut buffer).unwrap();

    let mut map: LinkedHashMap<String, (bool, bool)> = LinkedHashMap::new();
    map.insert("alphabet".to_string(), (true, false));
    map.insert("beta".to_string(), (true, true));
    map.insert("gamma".to_string(), (false, true));
    assert_eq!(buffer, bincode::serialize(&map).unwrap());
}

#[test]
fn equal_declarations_give_equal_bytes() {
    let mut first = Vec::new();
    three_attributes().write_to(&mut first).unwrap();
    let mut second = Vec::new();
    three_attributes().clone().write_to(&mut second).unwrap();
    assert_eq!(first, second);
}

#[test]
fn read_back_keeps_names_identifiers_and_props() {
    let schema = three_attributes();
    let mut buffer = Vec::new();
    schema.write_to(&mut buffer).unwrap();
    let read = Schema::read_from(&buffer).unwrap();
    assert_eq!(read.len(), 3);
    assert_eq!(read.attribute("alphabet"), Some(SchemaAttr::new(0)));
    assert_eq!(read.attribute("beta"), Some(SchemaAttr::new(1)));
    assert_eq!(read.attribute("gamma"), Some(SchemaAttr::new(2)));
    assert_eq!(read.attribute_name(SchemaAttr::new(2)), "gamma");
    assert_eq!(read.props(SchemaAttr::new(0)), SchemaProps::stored());
    assert_eq!(read.props(SchemaAttr::new(1)), SchemaProps::stored() | SchemaProps::indexed());
    assert_eq!(read.props(SchemaAttr::new(2)), SchemaProps::indexed());
}

#[test]
fn bytes_after_the_record_are_ignored() {
    let schema = three_attributes();
    let mut buffer = Vec::new();
    schema.write_to(&mut buffer).unwrap();
    buffer.extend_from_slice(&[9, 9, 9]);
    assert_eq!(Schema::read_from(&buffer), Ok(schema));
}

#[test]
fn truncated_record_is_a_decode_error() {
    let schema = three_attributes();
    let mut buffer = Vec::new();
    schema.write_to(&mut buffer).unwrap();
    for len in 0..buffer.len() {
        assert_eq!(Schema::read_from(&buffer[..len]), Err(Error::Decode), "prefix of {} bytes", len);
    }
}

#[test]
fn announced_count_beyond_the_input_is_a_decode_error() {
    let mut bytes = vec![0xffu8; 8];
    bytes.extend_from_slice(&[0u8; 32]);
    assert_eq!(Schema::read_from(&bytes), Err(Error::Decode));
    // One entry announced, and exactly ten bytes for it: the smallest record with an entry.
    let smallest: Vec<u8> = vec![1, 0, 0, 0, 0, 0, 0, 0, 0, 0, 0, 0, 0, 0, 0, 0, 1, 1];
    let read = Schema::read_from(&smallest).unwrap();
    assert_eq!(read.len(), 1);
    assert_eq!(read.attribute(""), Some(SchemaAttr::new(0)));
    // The same with one byte less.
    assert_eq!(Schema::read_from(&smallest[..17]), Err(Error::Decode));
}

#[test]
fn invalid_flag_or_name_is_a_decode_error() {
    let bad_flag: Vec<u8> = vec![1, 0, 0, 0, 0, 0, 0, 0, 1, 0, 0, 0, 0, 0, 0, 0, b'a', 2, 0];
    assert_eq!(Schema::read_from(&bad_flag), Err(Error::Decode));
    let bad_name: Vec<u8> = vec![1, 0, 0, 0, 0, 0, 0, 0, 1, 0, 0, 0, 0, 0, 0, 0, 0xff, 1, 0];
    assert_eq!(Schema::read_from(&bad_name), Err(Error::Decode));
}

#[test]
fn repeated_name_in_a_record_counts_last() {
    // "a" stored, "b" stored, "a" indexed: the map keeps "b", then "a" with its last flags.
    let bytes: Vec<u8> = vec![
        3, 0, 0, 0, 0, 0, 0, 0, //
        1, 0, 0, 0, 0, 0, 0, 0, b'a', 1, 0, //
        1, 0, 0, 0, 0, 0, 0, 0, b'b', 1, 0, //
        1, 0, 0, 0, 0, 0, 0, 0, b'a', 0, 1,
    ];
    let read = Schema::read_from(&bytes).unwrap();
    assert_eq!(read.len(), 2);
    assert_eq!(read.attribute("b"), Some(SchemaAttr::new(0)));
    assert_eq!(read.attribute("a"), Some(SchemaAttr::new(1)));
    assert_eq!(read.props(SchemaAttr::new(1)), SchemaProps::indexed());
}

#[test]
fn clones_are_equal() {
    let schema = three_attributes();
    let copy = schema.clone();
    assert_eq!(schema, copy);
    assert_eq!(copy.attribute("beta"), Some(SchemaAttr::new(1)));
}

#[test]
fn identifier_in_decimal() {
    assert_eq!(SchemaAttr::new(0).to_string(), "0");
    assert_eq!(SchemaAttr::new(7).to_string(), "7");
    assert_eq!(SchemaAttr::new(10).to_string(), "10");
    assert_eq!(SchemaAttr::new(4096).to_string(), "4096");
    assert_eq!(SchemaAttr::max().to_string(), "4294967295");
}
