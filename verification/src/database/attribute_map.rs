//! The insertion-ordered map from attribute names to flags that backs the
//! schema builder and the schema record.
//!
//! The map itself is `linked_hash_map::LinkedHashMap`. Its contents are
//! modelled as a sequence of entries, oldest insertion first, and each
//! operation used by the schema is given a contract over that sequence.

use linked_hash_map::LinkedHashMap;
use vstd::prelude::*;

verus! {

/// `linked_hash_map::LinkedHashMap`, taken as it is: nothing is known of a
/// map but what the functions below say of its entries.
#[verifier::external_type_specification]
#[verifier::external_body]
#[verifier::reject_recursive_types(K)]
#[verifier::reject_recursive_types(V)]
#[verifier::reject_recursive_types(S)]
pub struct ExLinkedHashMap<K, V, S>(LinkedHashMap<K, V, S>);

/// One declaration as the map holds it: a name and its (stored, indexed) flags.
pub type Entry = (Seq<char>, (bool, bool));

/// The entries of an attribute map, oldest insertion first.
pub uninterp spec fn entries_of(map: LinkedHashMap<String, (bool, bool)>) -> Seq<(Seq<char>, (bool, bool))>;

/// Some entry carries `name`.
pub open spec fn has_name(entries: Seq<Entry>, name: Seq<char>) -> bool {
    exists|i: int| 0 <= i < entries.len() && (#[trigger] entries[i]).0 == name
}

/// No two entries carry the same name.
pub open spec fn distinct_names(entries: Seq<Entry>) -> bool {
    forall|i: int, j: int|
        0 <= i < j < entries.len() ==> (#[trigger] entries[i]).0 != (#[trigger] entries[j]).0
}

/// The entries that do not carry `name`, in their order.
pub open spec fn without_name(entries: Seq<Entry>, name: Seq<char>) -> Seq<Entry>
    decreases entries.len(),
{
    if entries.len() == 0 {
        entries
    } else if entries.last().0 == name {
        without_name(entries.drop_last(), name)
    } else {
        without_name(entries.drop_last(), name).push(entries.last())
    }
}

/// The entries after `name` is inserted with `flags`: an entry of that name
/// leaves its place, and the new entry stands last.
pub open spec fn with_entry(entries: Seq<Entry>, name: Seq<char>, flags: (bool, bool)) -> Seq<Entry> {
    without_name(entries, name).push((name, flags))
}

/// The entries of a map into which `raw` was inserted one by one, first to last.
pub open spec fn inserted_all(raw: Seq<Entry>) -> Seq<Entry>
    decreases raw.len(),
{
    if raw.len() == 0 {
        Seq::empty()
    } else {
        with_entry(inserted_all(raw.drop_last()), raw.last().0, raw.last().1)
    }
}

/// `LinkedHashMap::new`: the new map holds no entry.
#[verifier::external_body]
pub(crate) fn attribute_map_new() -> (map: LinkedHashMap<String, (bool, bool)>)
    ensures
        entries_of(map) == Seq::<Entry>::empty(),
{
    LinkedHashMap::new()
}

/// `LinkedHashMap::len`: the number of entries.
#[verifier::external_body]
pub(crate) fn attribute_map_len(map: &LinkedHashMap<String, (bool, bool)>) -> (len: usize)
    ensures
        len == entries_of(*map).len(),
{
    map.len()
}

/// `LinkedHashMap::contains_key`: whether an entry carries the name.
#[verifier::external_body]
pub(crate) fn attribute_map_contains(map: &LinkedHashMap<String, (bool, bool)>, name: &str) -> (found: bool)
    ensures
        found == has_name(entries_of(*map), name@),
{
    map.contains_key(name)
}

/// `LinkedHashMap::insert`: the entry becomes the newest one. Where the name
/// was present its old entry is dropped and its flags are returned.
#[verifier::external_body]
pub(crate) fn attribute_map_insert(
    map: &mut LinkedHashMap<String, (bool, bool)>,
    name: String,
    flags: (bool, bool),
) -> (previous: Option<(bool, bool)>)
    ensures
        entries_of(*final(map)) == with_entry(entries_of(*old(map)), name@, flags),
        match previous {
            Some(old_flags) => entries_of(*old(map)).contains((name@, old_flags)),
            None => !has_name(entries_of(*old(map)), name@),
        },
{
    map.insert(name, flags)
}

/// `LinkedHashMap::into_iter`: the entries are handed out in insertion order.
#[verifier::external_body]
pub(crate) fn attribute_map_into_entries(map: LinkedHashMap<String, (bool, bool)>) -> (entries: Vec<(String, (bool, bool))>)
    ensures
        entries.len() == entries_of(map).len(),
        forall|i: int|
            0 <= i < entries.len() ==> (#[trigger] entries[i]).0@ == entries_of(map)[i].0
                && entries[i].1 == entries_of(map)[i].1,
{
    map.into_iter().collect()
}

/// Every entry that survives `without_name` is an entry of the input, none
/// carries `name`, and their order is kept.
pub proof fn lemma_without_name(entries: Seq<Entry>, name: Seq<char>)
    ensures
        !has_name(without_name(entries, name), name),
        without_name(entries, name).len() <= entries.len(),
        forall|k: int|
            0 <= k < without_name(entries, name).len() ==> entries.contains(
                #[trigger] without_name(entries, name)[k],
            ),
        distinct_names(entries) ==> distinct_names(without_name(entries, name)),
        !has_name(entries, name) ==> without_name(entries, name) == entries,
    decreases entries.len(),
{
    if entries.len() > 0 {
        let init = entries.drop_last();
        let last = entries.last();
        lemma_without_name(init, name);
        let kept = without_name(init, name);
        assert forall|k: int| 0 <= k < kept.len() implies entries.contains(#[trigger] kept[k]) by {
            let i = choose|i: int| 0 <= i < init.len() && init[i] == kept[k];
            assert(entries[i] == kept[k]);
        }
        assert(entries[entries.len() - 1] == last);
        if distinct_names(entries) {
            assert forall|i: int, j: int| 0 <= i < j < init.len() implies (#[trigger] init[i]).0 != (
            #[trigger] init[j]).0 by {
                assert(entries[i].0 != entries[j].0);
            }
            if last.0 != name {
                let out = kept.push(last);
                assert forall|i: int, j: int| 0 <= i < j < out.len() implies (#[trigger] out[i]).0 != (
                #[trigger] out[j]).0 by {
                    if j == out.len() - 1 {
                        let p = choose|p: int| 0 <= p < init.len() && init[p] == kept[i];
                        assert(entries[p].0 != entries[entries.len() - 1].0);
                    } else {
                        assert(kept[i].0 != kept[j].0);
                    }
                }
            }
        }
        if !has_name(entries, name) {
            assert(last.0 != name);
            if has_name(init, name) {
                let p = choose|p: int| 0 <= p < init.len() && (#[trigger] init[p]).0 == name;
                assert(entries[p].0 == name);
            }
            assert(kept.push(last) =~= entries);
        }
        if last.0 != name {
            let out = kept.push(last);
            if has_name(out, name) {
                let p = choose|p: int| 0 <= p < out.len() && (#[trigger] out[p]).0 == name;
                if p < kept.len() {
                    assert(kept[p].0 == name);
                }
            }
        }
    }
}

/// Inserting into entries with distinct names leaves the names distinct.
pub proof fn lemma_with_entry_distinct(entries: Seq<Entry>, name: Seq<char>, flags: (bool, bool))
    requires
        distinct_names(entries),
    ensures
        distinct_names(with_entry(entries, name, flags)),
        with_entry(entries, name, flags).len() <= entries.len() + 1,
        !has_name(entries, name) ==> with_entry(entries, name, flags) == entries.push((name, flags)),
{
    lemma_without_name(entries, name);
    let kept = without_name(entries, name);
    let out = kept.push((name, flags));
    assert forall|i: int, j: int| 0 <= i < j < out.len() implies (#[trigger] out[i]).0 != (
    #[trigger] out[j]).0 by {
        if j == out.len() - 1 {
            assert(kept[i].0 != name);
        } else {
            assert(kept[i].0 != kept[j].0);
        }
    }
}

/// Whatever is inserted one by one, the names of the result are distinct;
/// entries whose names are distinct already come out as they went in.
pub proof fn lemma_inserted_all(raw: Seq<Entry>)
    ensures
        distinct_names(inserted_all(raw)),
        inserted_all(raw).len() <= raw.len(),
        distinct_names(raw) ==> inserted_all(raw) == raw,
    decreases raw.len(),
{
    if raw.len() > 0 {
        let init = raw.drop_last();
        let last = raw.last();
        lemma_inserted_all(init);
        lemma_with_entry_distinct(inserted_all(init), last.0, last.1);
        if distinct_names(raw) {
            assert forall|i: int, j: int| 0 <= i < j < init.len() implies (#[trigger] init[i]).0 != (
            #[trigger] init[j]).0 by {
                assert(raw[i].0 != raw[j].0);
            }
            if has_name(init, last.0) {
                let p = choose|p: int| 0 <= p < init.len() && (#[trigger] init[p]).0 == last.0;
                assert(raw[p].0 == raw[raw.len() - 1].0);
            }
            assert(init.push(last) =~= raw);
        }
    }
}

} // verus!
