//! Attribute schema: names, dense attribute identifiers and their flags.

use crate::database::attribute_map::{
    attribute_map_contains, attribute_map_insert, attribute_map_into_entries, attribute_map_len,
    attribute_map_new, distinct_names, entries_of, has_name, inserted_all, lemma_inserted_all,
    lemma_with_entry_distinct, Entry,
};
use crate::database::schema_record::{
    announced_count, begins_with_record, decode_attribute_map, encode_attribute_map, holds_record,
    lemma_parsed_record, lemma_record_count, parsed_record, record_bytes,
};
use crate::error::Error;
use linked_hash_map::LinkedHashMap;
use std::collections::HashMap;
use std::sync::Arc;
use vstd::bytes::*;
use vstd::prelude::*;
use vstd::slice::*;
use vstd::string::*;

verus! {

/// Flags of one attribute: whether its value is kept verbatim and whether it
/// is tokenized into the inverted index.
#[derive(Debug, Copy, Clone, PartialEq, Eq, Structural)]
pub struct SchemaProps {
    pub stored: bool,
    pub indexed: bool,
}

impl SchemaProps {
    /// The attribute value is retrievable.
    pub fn stored() -> (props: SchemaProps)
        ensures
            props == (SchemaProps { stored: true, indexed: false }),
    {
        SchemaProps { stored: true, indexed: false }
    }

    /// The attribute value is searchable.
    pub fn indexed() -> (props: SchemaProps)
        ensures
            props == (SchemaProps { stored: false, indexed: true }),
    {
        SchemaProps { stored: false, indexed: true }
    }

    pub open spec fn spec_is_stored(&self) -> bool {
        self.stored
    }

    pub open spec fn spec_is_indexed(&self) -> bool {
        self.indexed
    }

    #[verifier::when_used_as_spec(spec_is_stored)]
    pub fn is_stored(&self) -> (stored: bool)
        ensures
            stored == self.stored,
    {
        self.stored
    }

    #[verifier::when_used_as_spec(spec_is_indexed)]
    pub fn is_indexed(&self) -> (indexed: bool)
        ensures
            indexed == self.indexed,
    {
        self.indexed
    }
}

impl core::ops::BitOr for SchemaProps {
    type Output = SchemaProps;

    fn bitor(self, other: SchemaProps) -> (merged: SchemaProps) {
        SchemaProps {
            stored: self.stored || other.stored,
            indexed: self.indexed || other.indexed,
        }
    }
}

impl vstd::std_specs::ops::BitOrSpecImpl for SchemaProps {
    open spec fn obeys_bitor_spec() -> bool {
        true
    }

    open spec fn bitor_req(self, other: SchemaProps) -> bool {
        true
    }

    open spec fn bitor_spec(self, other: SchemaProps) -> SchemaProps {
        SchemaProps {
            stored: self.stored || other.stored,
            indexed: self.indexed || other.indexed,
        }
    }
}

/// Identifier of an attribute: its position in declaration order.
#[derive(Debug, Copy, Clone, PartialOrd, Ord, PartialEq, Eq, Structural)]
pub struct SchemaAttr(pub u32);

impl SchemaAttr {
    pub open spec fn spec_as_u32(&self) -> u32 {
        self.0
    }

    pub fn new(value: u32) -> (attr: SchemaAttr)
        ensures
            attr.0 == value,
    {
        SchemaAttr(value)
    }

    /// The reserved identifier that stands for "no attribute" and bounds scans from above.
    pub fn max() -> (attr: SchemaAttr)
        ensures
            attr.0 == u32::MAX,
    {
        SchemaAttr(u32::MAX)
    }

    #[verifier::when_used_as_spec(spec_as_u32)]
    pub fn as_u32(&self) -> (value: u32)
        ensures
            value == self.0,
    {
        self.0
    }

    /// The identifier in decimal digits.
    pub fn to_string(&self) -> (text: String)
        ensures
            text@ == decimal(self.0 as nat),
    {
        decimal_string(self.0)
    }
}

/// The character of a decimal digit.
pub open spec fn digit(value: nat) -> char {
    if value == 0 {
        '0'
    } else if value == 1 {
        '1'
    } else if value == 2 {
        '2'
    } else if value == 3 {
        '3'
    } else if value == 4 {
        '4'
    } else if value == 5 {
        '5'
    } else if value == 6 {
        '6'
    } else if value == 7 {
        '7'
    } else if value == 8 {
        '8'
    } else {
        '9'
    }
}

/// A number in decimal digits, without leading zeros.
pub open spec fn decimal(value: nat) -> Seq<char>
    decreases value,
{
    if value < 10 {
        seq![digit(value)]
    } else {
        decimal(value / 10).push(digit(value % 10))
    }
}

fn digit_text(value: u32) -> (text: &'static str)
    requires
        value < 10,
    ensures
        text@ == seq![digit(value as nat)],
{
    proof {
        reveal_strlit("0");
        reveal_strlit("1");
        reveal_strlit("2");
        reveal_strlit("3");
        reveal_strlit("4");
        reveal_strlit("5");
        reveal_strlit("6");
        reveal_strlit("7");
        reveal_strlit("8");
        reveal_strlit("9");
    }
    let text = if value == 0 {
        "0"
    } else if value == 1 {
        "1"
    } else if value == 2 {
        "2"
    } else if value == 3 {
        "3"
    } else if value == 4 {
        "4"
    } else if value == 5 {
        "5"
    } else if value == 6 {
        "6"
    } else if value == 7 {
        "7"
    } else if value == 8 {
        "8"
    } else {
        "9"
    };
    assert(text@ =~= seq![digit(value as nat)]);
    text
}

fn decimal_string(value: u32) -> (text: String)
    ensures
        text@ == decimal(value as nat),
    decreases value,
{
    if value < 10 {
        digit_text(value).to_owned()
    } else {
        let mut text = decimal_string(value / 10);
        text.append(digit_text(value % 10));
        assert(text@ =~= decimal((value / 10) as nat).push(digit((value % 10) as nat)));
        text
    }
}

/// One declaration of a schema: the attribute's name and its flags.
pub type Declaration = (Seq<char>, SchemaProps);

/// The declaration that a map entry stands for.
pub open spec fn declaration_of(entry: Entry) -> Declaration {
    (entry.0, SchemaProps { stored: entry.1.0, indexed: entry.1.1 })
}

/// The map entry that stands for a declaration.
pub open spec fn entry_of(declaration: Declaration) -> Entry {
    (declaration.0, (declaration.1.stored, declaration.1.indexed))
}

/// The declarations that map entries stand for, in their order.
pub open spec fn declarations_of(entries: Seq<Entry>) -> Seq<Declaration> {
    Seq::new(entries.len(), |i: int| declaration_of(entries[i]))
}

/// The map entries that stand for declarations, in their order.
pub open spec fn entries_for(declarations: Seq<Declaration>) -> Seq<Entry> {
    Seq::new(declarations.len(), |i: int| entry_of(declarations[i]))
}

/// Some declaration carries `name`.
pub open spec fn declares(declarations: Seq<Declaration>, name: Seq<char>) -> bool {
    exists|i: int| 0 <= i < declarations.len() && (#[trigger] declarations[i]).0 == name
}

/// The identifier of the attribute of that name: the position of its declaration.
pub open spec fn attribute_of(declarations: Seq<Declaration>, name: Seq<char>) -> Option<
    SchemaAttr,
> {
    if declares(declarations, name) {
        Some(
            SchemaAttr(
                (choose|i: int| 0 <= i < declarations.len() && (#[trigger] declarations[i]).0
                    == name) as u32,
            ),
        )
    } else {
        None
    }
}

/// Among valid declarations a name stands at one place only.
pub proof fn lemma_attribute_of(declarations: Seq<Declaration>, at: int)
    requires
        valid_declarations(declarations),
        0 <= at < declarations.len(),
    ensures
        attribute_of(declarations, declarations[at].0) == Some(SchemaAttr(at as u32)),
{
    let name = declarations[at].0;
    let found = choose|i: int| 0 <= i < declarations.len() && (#[trigger] declarations[i]).0 == name;
    if found < at {
        assert(declarations[found].0 != declarations[at].0);
    } else if at < found {
        assert(declarations[at].0 != declarations[found].0);
    }
}

/// What holds of the declarations of every schema: no name occurs twice, and
/// each position is an attribute identifier below the reserved maximum.
pub open spec fn valid_declarations(declarations: Seq<Declaration>) -> bool {
    &&& declarations.len() <= u32::MAX
    &&& forall|i: int, j: int|
        0 <= i < j < declarations.len() ==> (#[trigger] declarations[i]).0 != (
        #[trigger] declarations[j]).0
}

/// The record of a schema with these declarations.
pub open spec fn schema_record(declarations: Seq<Declaration>) -> Seq<u8> {
    record_bytes(entries_for(declarations))
}

/// `bytes` starts with the record of a schema: with a record whose entries,
/// taken in order, leave no more attributes than there are identifiers.
pub open spec fn readable_schema(bytes: Seq<u8>) -> bool {
    holds_record(bytes) && inserted_all(parsed_record(bytes)).len() <= u32::MAX
}

/// The declarations of the schema whose record `bytes` starts with.
pub open spec fn read_schema(bytes: Seq<u8>) -> Seq<Declaration> {
    declarations_of(inserted_all(parsed_record(bytes)))
}

/// Collects declarations, in order, for a schema.
pub struct SchemaBuilder {
    attrs: LinkedHashMap<String, (bool, bool)>,
}

impl View for SchemaBuilder {
    type V = Seq<Declaration>;

    closed spec fn view(&self) -> Seq<Declaration> {
        declarations_of(entries_of(self.attrs))
    }
}

impl SchemaBuilder {
    #[verifier::type_invariant]
    spec fn well_formed(self) -> bool {
        &&& distinct_names(entries_of(self.attrs))
        &&& entries_of(self.attrs).len() <= u32::MAX
    }

    /// A builder without declarations.
    pub fn new() -> (builder: SchemaBuilder)
        ensures
            builder@ == Seq::<Declaration>::empty(),
    {
        let attrs = attribute_map_new();
        assert(declarations_of(entries_of(attrs)) =~= Seq::<Declaration>::empty());
        SchemaBuilder { attrs }
    }

    /// Declares an attribute and returns its identifier, the number of
    /// declarations made before. A name that is declared already is refused,
    /// and so is a declaration for which no identifier is left; the builder
    /// is then unchanged.
    pub fn new_attribute(&mut self, name: &str, props: SchemaProps) -> (declared: Result<
        SchemaAttr,
        Error,
    >)
        ensures
            valid_declarations(old(self)@),
            valid_declarations(final(self)@),
            match declared {
                Ok(attr) => {
                    &&& !declares(old(self)@, name@)
                    &&& old(self)@.len() < u32::MAX
                    &&& attr.0 == old(self)@.len()
                    &&& final(self)@ == old(self)@.push((name@, props))
                },
                Err(error) => {
                    &&& final(self)@ == old(self)@
                    &&& declares(old(self)@, name@) ==> error == Error::DuplicateAttribute
                    &&& !declares(old(self)@, name@) ==> error == Error::TooManyAttributes
                        && old(self)@.len() == u32::MAX
                },
            },
    {
        proof {
            use_type_invariant(&*self);
            lemma_declarations(entries_of(self.attrs));
            lemma_declares(entries_of(self.attrs), name@);
        }
        if attribute_map_contains(&self.attrs, name) {
            return Err(Error::DuplicateAttribute);
        }
        let len = attribute_map_len(&self.attrs);
        if len >= u32::MAX as usize {
            return Err(Error::TooManyAttributes);
        }
        let ghost before = entries_of(self.attrs);
        let flags = (props.stored, props.indexed);
        // The map leaves the builder while it grows, so that the builder is
        // whole at every point where the insertion could stop.
        let mut attrs = attribute_map_new();
        core::mem::swap(&mut self.attrs, &mut attrs);
        let _ = attribute_map_insert(&mut attrs, name.to_owned(), flags);
        proof {
            lemma_with_entry_distinct(before, name@, flags);
        }
        core::mem::swap(&mut self.attrs, &mut attrs);
        proof {
            lemma_declarations(entries_of(self.attrs));
            assert(declarations_of(before.push((name@, flags))) =~= declarations_of(before).push(
                (name@, props),
            ));
        }
        Ok(SchemaAttr(len as u32))
    }

    /// The schema of the declarations made, each with its position as identifier.
    pub fn build(self) -> (schema: Schema)
        ensures
            schema@ == self@,
            valid_declarations(schema@),
    {
        proof {
            use_type_invariant(&self);
            lemma_declarations(entries_of(self.attrs));
        }
        let ghost declared = entries_of(self.attrs);
        let entries = attribute_map_into_entries(self.attrs);
        let mut attrs: HashMap<String, SchemaAttr> = HashMap::new();
        let mut props: Vec<(String, SchemaProps)> = Vec::new();
        let mut i: usize = 0;
        while i < entries.len()
            invariant
                i <= entries.len() == declared.len() <= u32::MAX,
                props.len() == i,
                forall|k: int|
                    0 <= k < entries.len() ==> (#[trigger] entries[k]).0@ == declared[k].0
                        && entries[k].1 == declared[k].1,
                forall|k: int|
                    0 <= k < i ==> (#[trigger] props[k]).0@ == declared[k].0 && props[k].1
                        == declaration_of(declared[k]).1,
            decreases entries.len() - i,
        {
            let flags = entries[i].1;
            let _ = attrs.insert(entries[i].0.clone(), SchemaAttr(i as u32));
            props.push((entries[i].0.clone(), SchemaProps { stored: flags.0, indexed: flags.1 }));
            i += 1;
        }
        let inner = Arc::new(InnerSchema { attrs, props });
        assert(inner.declarations() =~= declarations_of(declared));
        Schema { inner }
    }
}

/// The attributes of a database: their names in declaration order, each with
/// its flags. The position of a name is its identifier. A schema never changes;
/// its clones share one value.
#[derive(Debug, PartialEq, Eq)]
pub struct Schema {
    inner: Arc<InnerSchema>,
}

/// `Arc::clone`: one more handle on the same value.
#[verifier::external_body]
fn share(inner: &Arc<InnerSchema>) -> (shared: Arc<InnerSchema>)
    ensures
        shared == inner,
{
    Arc::clone(inner)
}

impl Clone for Schema {
    fn clone(&self) -> (copy: Schema)
        ensures
            copy@ == self@,
    {
        proof {
            use_type_invariant(self);
        }
        Schema { inner: share(&self.inner) }
    }
}

#[derive(Debug, Clone, PartialEq, Eq)]
struct InnerSchema {
    /// Where each name stands in `props`; only ever consulted as a first guess.
    attrs: HashMap<String, SchemaAttr>,
    props: Vec<(String, SchemaProps)>,
}

impl InnerSchema {
    spec fn declarations(self) -> Seq<Declaration> {
        Seq::new(self.props@.len(), |i: int| (self.props@[i].0@, self.props@[i].1))
    }
}

impl View for Schema {
    type V = Seq<Declaration>;

    closed spec fn view(&self) -> Seq<Declaration> {
        self.inner.declarations()
    }
}

impl Schema {
    #[verifier::type_invariant]
    spec fn well_formed(self) -> bool {
        valid_declarations(self@)
    }

    /// Reads a schema from bytes that start with its record. Bytes after the
    /// record are ignored. Where the record repeats a name, the last of its
    /// entries counts and takes the place of a new declaration.
    pub fn read_from(reader: &[u8]) -> (read: Result<Schema, Error>)
        ensures
            read is Ok == readable_schema(reader@),
            match read {
                Ok(schema) => schema@ == read_schema(reader@) && valid_declarations(schema@),
                Err(error) => error == Error::Decode,
            },
    {
        if reader.len() < 8 {
            proof {
                lemma_no_record(reader@);
            }
            return Err(Error::Decode);
        }
        let count = u64_from_le_bytes(slice_subrange(reader, 0, 8));
        let room = reader.len() - 8;
        if count > (room / 10) as u64 {
            proof {
                lemma_no_record(reader@);
            }
            return Err(Error::Decode);
        }
        match decode_attribute_map(reader) {
            Err(_) => Err(Error::Decode),
            Ok(attrs) => {
                proof {
                    let raw = choose|raw: Seq<Entry>| #[trigger]
                        begins_with_record(reader@, raw) && entries_of(attrs) == inserted_all(raw);
                    lemma_parsed_record(reader@, raw);
                    lemma_inserted_all(raw);
                }
                if attribute_map_len(&attrs) > u32::MAX as usize {
                    return Err(Error::Decode);
                }
                let builder = SchemaBuilder { attrs };
                Ok(builder.build())
            },
        }
    }

    /// Appends the record of the schema to `writer`. The record lists the
    /// attributes by identifier, so equal schemas give equal bytes.
    pub fn write_to(&self, writer: &mut Vec<u8>) -> (written: Result<(), Error>)
        ensures
            written is Ok,
            final(writer)@ == old(writer)@ + schema_record(self@),
    {
        proof {
            use_type_invariant(self);
        }
        let mut attrs = attribute_map_new();
        let mut i: usize = 0;
        while i < self.inner.props.len()
            invariant
                i <= self.inner.props.len(),
                valid_declarations(self@),
                entries_of(attrs) == entries_for(self@).take(i as int),
            decreases self.inner.props.len() - i,
        {
            let name = self.inner.props[i].0.clone();
            let flags = (self.inner.props[i].1.stored, self.inner.props[i].1.indexed);
            proof {
                let all = entries_for(self@);
                let before = all.take(i as int);
                assert(distinct_names(before)) by {
                    assert forall|a: int, b: int| 0 <= a < b < before.len() implies (
                    #[trigger] before[a]).0 != (#[trigger] before[b]).0 by {
                        assert(self@[a].0 != self@[b].0);
                    }
                }
                if has_name(before, name@) {
                    let p = choose|p: int| 0 <= p < before.len() && (#[trigger] before[p]).0 == name@;
                    assert(self@[p].0 != self@[i as int].0);
                }
                lemma_with_entry_distinct(before, name@, flags);
                assert(before.push((name@, flags)) =~= all.take(i + 1));
            }
            let _ = attribute_map_insert(&mut attrs, name, flags);
            i += 1;
        }
        assert(entries_for(self@).take(i as int) =~= entries_for(self@));
        match encode_attribute_map(writer, &attrs) {
            Ok(()) => Ok(()),
            Err(_) => Err(Error::Encode),
        }
    }

    /// The flags of an attribute of this schema.
    pub fn props(&self, attr: SchemaAttr) -> (props: SchemaProps)
        requires
            attr.0 < self@.len(),
        ensures
            props == self@[attr.0 as int].1,
    {
        self.inner.props[attr.0 as usize].1
    }

    /// The identifier of the attribute of that name, if the schema has one.
    pub fn attribute(&self, name: &str) -> (found: Option<SchemaAttr>)
        ensures
            found == attribute_of(self@, name@),
            match found {
                Some(attr) => attr.0 < self@.len() && self@[attr.0 as int].0 == name@,
                None => !declares(self@, name@),
            },
    {
        proof {
            use_type_invariant(self);
        }
        let wanted = name.to_owned();
        match self.inner.attrs.get(name) {
            Some(attr) => {
                let at = attr.0 as usize;
                if at < self.inner.props.len() && self.inner.props[at].0 == wanted {
                    proof {
                        lemma_attribute_of(self@, at as int);
                    }
                    return Some(*attr);
                }
            },
            None => {},
        }
        let mut i: usize = 0;
        while i < self.inner.props.len()
            invariant
                i <= self.inner.props.len() <= u32::MAX,
                valid_declarations(self@),
                wanted@ == name@,
                forall|k: int| 0 <= k < i ==> (#[trigger] self@[k]).0 != name@,
            decreases self.inner.props.len() - i,
        {
            if self.inner.props[i].0 == wanted {
                proof {
                    lemma_attribute_of(self@, i as int);
                }
                return Some(SchemaAttr(i as u32));
            }
            i += 1;
        }
        None
    }

    /// The name of an attribute of this schema.
    pub fn attribute_name(&self, attr: SchemaAttr) -> (name: &str)
        requires
            attr.0 < self@.len(),
        ensures
            name@ == self@[attr.0 as int].0,
    {
        self.inner.props[attr.0 as usize].0.as_str()
    }

    /// The number of attributes.
    pub fn len(&self) -> (len: u32)
        ensures
            len == self@.len(),
            valid_declarations(self@),
    {
        proof {
            use_type_invariant(self);
        }
        self.inner.props.len() as u32
    }
}

/// A schema that is written and read back is the schema that was written,
/// with the same names, identifiers and flags, whatever follows its record:
/// bytes that start with the record of valid declarations are readable, and
/// what is read from them are those declarations.
pub proof fn lemma_schema_round_trip(declarations: Seq<Declaration>, rest: Seq<u8>)
    requires
        valid_declarations(declarations),
        (schema_record(declarations) + rest).len() <= usize::MAX,
    ensures
        readable_schema(schema_record(declarations) + rest),
        read_schema(schema_record(declarations) + rest) == declarations,
{
    let entries = entries_for(declarations);
    let bytes = schema_record(declarations) + rest;
    assert(record_bytes(entries).is_prefix_of(bytes)) by {
        assert(bytes.subrange(0, record_bytes(entries).len() as int) =~= record_bytes(entries));
    }
    assert(distinct_names(entries)) by {
        assert forall|i: int, j: int| 0 <= i < j < entries.len() implies (#[trigger] entries[i]).0
            != (#[trigger] entries[j]).0 by {
            assert(declarations[i].0 != declarations[j].0);
        }
    }
    lemma_parsed_record(bytes, entries);
    lemma_inserted_all(entries);
    assert(declarations_of(entries) =~= declarations);
}

/// Declarations and the entries that stand for them carry the same names at
/// the same places.
proof fn lemma_declarations(entries: Seq<Entry>)
    ensures
        declarations_of(entries).len() == entries.len(),
        entries_for(declarations_of(entries)) == entries,
        distinct_names(entries) && entries.len() <= u32::MAX ==> valid_declarations(
            declarations_of(entries),
        ),
{
    assert(entries_for(declarations_of(entries)) =~= entries);
    if distinct_names(entries) {
        let declarations = declarations_of(entries);
        assert forall|i: int, j: int| 0 <= i < j < declarations.len() implies (
        #[trigger] declarations[i]).0 != (#[trigger] declarations[j]).0 by {
            assert(entries[i].0 != entries[j].0);
        }
    }
}

/// A name is declared exactly where an entry carries it.
proof fn lemma_declares(entries: Seq<Entry>, name: Seq<char>)
    ensures
        declares(declarations_of(entries), name) == has_name(entries, name),
{
    let declarations = declarations_of(entries);
    if has_name(entries, name) {
        let p = choose|p: int| 0 <= p < entries.len() && (#[trigger] entries[p]).0 == name;
        assert(declarations[p].0 == name);
    }
    if declares(declarations, name) {
        let p = choose|p: int| 0 <= p < declarations.len() && (#[trigger] declarations[p]).0 == name;
        assert(entries[p].0 == name);
    }
}

/// Input that is shorter than the entries it announces starts with no record.
proof fn lemma_no_record(bytes: Seq<u8>)
    requires
        bytes.len() <= u64::MAX,
        bytes.len() < 8 || 8 + 10 * announced_count(bytes) > bytes.len(),
    ensures
        !holds_record(bytes),
{
    if holds_record(bytes) {
        lemma_record_count(bytes, parsed_record(bytes));
    }
}

} // verus!
