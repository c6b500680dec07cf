//! The ordered key space and its point-in-time images.
//!
//! A key space holds pairs of byte strings in strictly increasing key order.
//! A snapshot is the key space as it was when the snapshot was taken: it owns
//! its entries, so nothing that is written later reaches it.

use crate::database::lexicographic::{
    lemma_precedes_strict, lemma_precedes_total, lemma_precedes_transitive, lex_less, precedes,
    same_bytes,
};
use vstd::prelude::*;
use vstd::slice::*;

verus! {

/// A key and the value stored under it.
pub type Pair = (Seq<u8>, Seq<u8>);

/// The pairs that a vector of byte vectors stands for.
pub open spec fn pairs_of(entries: Seq<(Vec<u8>, Vec<u8>)>) -> Seq<Pair> {
    Seq::new(entries.len(), |i: int| (entries[i].0@, entries[i].1@))
}

/// Each key comes strictly before the keys behind it.
pub open spec fn increasing(pairs: Seq<Pair>) -> bool {
    forall|i: int, j: int|
        0 <= i < j < pairs.len() ==> precedes((#[trigger] pairs[i]).0, (#[trigger] pairs[j]).0)
}

/// Some pair carries `key`.
pub open spec fn holds_key(pairs: Seq<Pair>, key: Seq<u8>) -> bool {
    exists|i: int| 0 <= i < pairs.len() && (#[trigger] pairs[i]).0 == key
}

/// The value stored under `key`, if there is one.
pub open spec fn lookup(pairs: Seq<Pair>, key: Seq<u8>) -> Option<Seq<u8>> {
    if holds_key(pairs, key) {
        Some(pairs[choose|i: int| 0 <= i < pairs.len() && (#[trigger] pairs[i]).0 == key].1)
    } else {
        None
    }
}

/// The pairs as a map from keys to values.
pub open spec fn as_map(pairs: Seq<Pair>) -> Map<Seq<u8>, Seq<u8>> {
    Map::new(|key: Seq<u8>| holds_key(pairs, key), |key: Seq<u8>| lookup(pairs, key).unwrap())
}

/// Among increasing pairs a key occurs once, so the pair that carries it
/// gives the value that `lookup` finds.
pub proof fn lemma_lookup_at(pairs: Seq<Pair>, i: int)
    requires
        increasing(pairs),
        0 <= i < pairs.len(),
    ensures
        lookup(pairs, pairs[i].0) == Some(pairs[i].1),
{
    let j = choose|j: int| 0 <= j < pairs.len() && (#[trigger] pairs[j]).0 == pairs[i].0;
    lemma_precedes_strict(pairs[i].0, pairs[j].0);
    if j < i {
        assert(precedes(pairs[j].0, pairs[i].0));
    } else if i < j {
        assert(precedes(pairs[i].0, pairs[j].0));
    }
}

/// Pairs of which each precedes its successor are increasing.
proof fn lemma_increasing_by_steps(pairs: Seq<Pair>, upto: int)
    requires
        0 <= upto <= pairs.len(),
        forall|k: int| 0 < k < upto ==> precedes(#[trigger] pairs[k - 1].0, pairs[k].0),
    ensures
        increasing(pairs.take(upto)),
    decreases upto,
{
    if upto > 0 {
        lemma_increasing_by_steps(pairs, upto - 1);
        let shorter = pairs.take(upto - 1);
        let longer = pairs.take(upto);
        assert forall|i: int, j: int| 0 <= i < j < longer.len() implies precedes(
            (#[trigger] longer[i]).0,
            (#[trigger] longer[j]).0,
        ) by {
            if j < upto - 1 {
                assert(precedes(shorter[i].0, shorter[j].0));
            } else if i == upto - 2 {
                assert(precedes(pairs[j - 1].0, pairs[j].0));
            } else {
                assert(precedes(shorter[i].0, shorter[upto - 2].0));
                assert(precedes(pairs[j - 1].0, pairs[j].0));
                lemma_precedes_transitive(longer[i].0, pairs[upto - 2].0, longer[j].0);
            }
        }
    }
}

/// A copy of the entries.
pub fn copy_entries(entries: &Vec<(Vec<u8>, Vec<u8>)>) -> (copy: Vec<(Vec<u8>, Vec<u8>)>)
    ensures
        pairs_of(copy@) == pairs_of(entries@),
{
    let mut copy: Vec<(Vec<u8>, Vec<u8>)> = Vec::new();
    let mut i: usize = 0;
    while i < entries.len()
        invariant
            i <= entries.len(),
            copy.len() == i,
            forall|k: int| 0 <= k < i ==> (#[trigger] copy[k]).0@ == entries[k].0@ && copy[k].1@
                == entries[k].1@,
        decreases entries.len() - i,
    {
        copy.push((slice_to_vec(entries[i].0.as_slice()), slice_to_vec(entries[i].1.as_slice())));
        i += 1;
    }
    assert(pairs_of(copy@) =~= pairs_of(entries@));
    copy
}

/// Increasing pairs with `pair` put in at `at`, where every key before `at`
/// precedes the new key and no key from `at` on does: the result is
/// increasing, and maps the new key to the new value and every other key as before.
proof fn lemma_put(pairs: Seq<Pair>, at: int, pair: Pair, after: Seq<Pair>)
    requires
        increasing(pairs),
        0 <= at <= pairs.len(),
        forall|i: int| 0 <= i < at ==> precedes((#[trigger] pairs[i]).0, pair.0),
        forall|i: int| at <= i < pairs.len() ==> !precedes((#[trigger] pairs[i]).0, pair.0),
        if at < pairs.len() && pairs[at].0 == pair.0 {
            after == pairs.update(at, pair)
        } else {
            after == pairs.insert(at, pair)
        },
    ensures
        increasing(after),
        as_map(after) == as_map(pairs).insert(pair.0, pair.1),
{
    let replaced = at < pairs.len() && pairs[at].0 == pair.0;
    let shift: int = if replaced {
        1
    } else {
        0
    };
    // Where each pair of the result comes from.
    assert forall|j: int| 0 <= j < after.len() implies #[trigger] after[j] == (if j < at {
        pairs[j]
    } else if j == at {
        pair
    } else {
        pairs[j - 1 + shift]
    }) by {}
    assert forall|i: int| at + shift <= i < pairs.len() implies precedes(
        pair.0,
        (#[trigger] pairs[i]).0,
    ) by {
        lemma_precedes_total(pair.0, pairs[i].0);
        if pairs[i].0 == pair.0 {
            if i > at {
                assert(precedes(pairs[at].0, pairs[i].0));
            }
        }
    }
    assert forall|i: int, j: int| 0 <= i < j < after.len() implies precedes(
        (#[trigger] after[i]).0,
        (#[trigger] after[j]).0,
    ) by {
        if j < at {
            assert(precedes(pairs[i].0, pairs[j].0));
        } else if j == at {
            assert(precedes(pairs[i].0, pair.0));
        } else if i < at {
            assert(precedes(pairs[i].0, pairs[j - 1 + shift].0));
        } else if i == at {
            assert(precedes(pair.0, pairs[j - 1 + shift].0));
        } else {
            assert(precedes(pairs[i - 1 + shift].0, pairs[j - 1 + shift].0));
        }
    }
    let before_map = as_map(pairs).insert(pair.0, pair.1);
    let after_map = as_map(after);
    assert forall|key: Seq<u8>| #[trigger] after_map.contains_key(key) == before_map.contains_key(
        key,
    ) by {
        if holds_key(after, key) {
            let j = choose|j: int| 0 <= j < after.len() && (#[trigger] after[j]).0 == key;
            if j < at {
                assert(pairs[j].0 == key);
            } else if j > at {
                assert(pairs[j - 1 + shift].0 == key);
            }
        }
        if key == pair.0 {
            assert(after[at].0 == key);
        } else if holds_key(pairs, key) {
            let i = choose|i: int| 0 <= i < pairs.len() && (#[trigger] pairs[i]).0 == key;
            if i < at {
                assert(after[i].0 == key);
            } else {
                assert(after[i + 1 - shift].0 == key);
            }
        }
    }
    assert forall|key: Seq<u8>| #[trigger] after_map.contains_key(key) implies after_map[key]
        == before_map[key] by {
        let j = choose|j: int| 0 <= j < after.len() && (#[trigger] after[j]).0 == key;
        lemma_lookup_at(after, j);
        if j < at {
            lemma_lookup_at(pairs, j);
            lemma_precedes_strict(pairs[j].0, pair.0);
        } else if j > at {
            lemma_lookup_at(pairs, j - 1 + shift);
            lemma_precedes_strict(pair.0, pairs[j - 1 + shift].0);
        }
    }
    assert(after_map =~= before_map);
}

/// Two increasing sequences of pairs that map the same keys to the same
/// values are the same sequence: the order of the keys leaves no choice.
pub proof fn lemma_increasing_pairs_unique(a: Seq<Pair>, b: Seq<Pair>)
    requires
        increasing(a),
        increasing(b),
        as_map(a) == as_map(b),
    ensures
        a == b,
    decreases a.len(),
{
    if a.len() == 0 {
        if b.len() > 0 {
            assert(holds_key(b, b[0].0));
            assert(as_map(b).contains_key(b[0].0));
            assert(as_map(a).contains_key(b[0].0));
            assert(false);
        }
        assert(a =~= b);
    } else {
        // The last key of `a` is the greatest key of the map, and so is the last key of `b`.
        let last = a.last();
        assert(holds_key(a, last.0)) by {
            assert(a[a.len() - 1].0 == last.0);
        }
        assert(as_map(b).contains_key(last.0));
        let p = choose|p: int| 0 <= p < b.len() && (#[trigger] b[p]).0 == last.0;
        if p < b.len() - 1 {
            let beyond = b.last();
            assert(precedes(b[p].0, b[b.len() - 1].0));
            assert(holds_key(b, beyond.0)) by {
                assert(b[b.len() - 1].0 == beyond.0);
            }
            assert(as_map(a).contains_key(beyond.0));
            let q = choose|q: int| 0 <= q < a.len() && (#[trigger] a[q]).0 == beyond.0;
            lemma_precedes_strict(last.0, beyond.0);
            if q < a.len() - 1 {
                assert(precedes(a[q].0, a[a.len() - 1].0));
            }
            assert(false);
        }
        lemma_lookup_at(a, a.len() - 1);
        lemma_lookup_at(b, b.len() - 1);
        assert(as_map(a)[last.0] == last.1);
        assert(as_map(b)[last.0] == b.last().1);
        assert(b.last() == last);
        let init_a = a.drop_last();
        let init_b = b.drop_last();
        lemma_without_last(a);
        lemma_without_last(b);
        assert(as_map(init_a) =~= as_map(init_b));
        lemma_increasing_pairs_unique(init_a, init_b);
        assert(a =~= init_a.push(last));
        assert(b =~= init_b.push(last));
    }
}

/// Increasing pairs without their last pair are increasing, and map every
/// key but the last as before.
proof fn lemma_without_last(pairs: Seq<Pair>)
    requires
        increasing(pairs),
        pairs.len() > 0,
    ensures
        increasing(pairs.drop_last()),
        as_map(pairs.drop_last()) == as_map(pairs).remove(pairs.last().0),
{
    let init = pairs.drop_last();
    let last = pairs.last();
    assert forall|i: int, j: int| 0 <= i < j < init.len() implies precedes(
        (#[trigger] init[i]).0,
        (#[trigger] init[j]).0,
    ) by {
        assert(precedes(pairs[i].0, pairs[j].0));
    }
    let left = as_map(init);
    let right = as_map(pairs).remove(last.0);
    assert forall|key: Seq<u8>| #[trigger] left.contains_key(key) == right.contains_key(key) by {
        if holds_key(init, key) {
            let i = choose|i: int| 0 <= i < init.len() && (#[trigger] init[i]).0 == key;
            assert(pairs[i].0 == key);
            assert(precedes(pairs[i].0, pairs[pairs.len() - 1].0));
            lemma_precedes_strict(key, last.0);
        }
        if key != last.0 && holds_key(pairs, key) {
            let i = choose|i: int| 0 <= i < pairs.len() && (#[trigger] pairs[i]).0 == key;
            assert(init[i].0 == key);
        }
    }
    assert forall|key: Seq<u8>| #[trigger] left.contains_key(key) implies left[key] == right[key] by {
        let i = choose|i: int| 0 <= i < init.len() && (#[trigger] init[i]).0 == key;
        lemma_lookup_at(init, i);
        lemma_lookup_at(pairs, i);
    }
    assert(left =~= right);
}

/// The first pairs of increasing pairs are increasing, and one pair more
/// adds its key with its value to their map.
pub proof fn lemma_map_of_start(pairs: Seq<Pair>, count: int)
    requires
        increasing(pairs),
        0 <= count < pairs.len(),
    ensures
        increasing(pairs.take(count)),
        increasing(pairs.take(count + 1)),
        as_map(pairs.take(count + 1)) == as_map(pairs.take(count)).insert(
            pairs[count].0,
            pairs[count].1,
        ),
{
    let longer = pairs.take(count + 1);
    assert forall|i: int, j: int| 0 <= i < j < longer.len() implies precedes(
        (#[trigger] longer[i]).0,
        (#[trigger] longer[j]).0,
    ) by {
        assert(precedes(pairs[i].0, pairs[j].0));
    }
    lemma_without_last(longer);
    assert(longer.drop_last() =~= pairs.take(count));
    lemma_lookup_at(longer, count);
    assert(holds_key(longer, pairs[count].0)) by {
        assert(longer[count].0 == pairs[count].0);
    }
    assert(as_map(longer) =~= as_map(longer).remove(pairs[count].0).insert(
        pairs[count].0,
        pairs[count].1,
    ));
}

/// What `lookup` finds is what the map of the pairs holds.
pub proof fn lemma_lookup_is_map(pairs: Seq<Pair>, key: Seq<u8>)
    ensures
        lookup(pairs, key) == (if as_map(pairs).contains_key(key) {
            Some(as_map(pairs)[key])
        } else {
            None
        }),
{
}

/// An ordered map from byte keys to byte values.
#[derive(Debug, PartialEq, Eq)]
pub struct KeySpace {
    entries: Vec<(Vec<u8>, Vec<u8>)>,
}

impl View for KeySpace {
    type V = Seq<Pair>;

    closed spec fn view(&self) -> Seq<Pair> {
        pairs_of(self.entries@)
    }
}

impl Clone for KeySpace {
    fn clone(&self) -> (copy: KeySpace)
        ensures
            copy@ == self@,
    {
        proof {
            use_type_invariant(self);
        }
        KeySpace { entries: copy_entries(&self.entries) }
    }
}

impl KeySpace {
    /// What holds of every key space: its keys are strictly increasing.
    #[verifier::type_invariant]
    pub open spec fn ordered(self) -> bool {
        increasing(self@)
    }

    /// A key space without entries.
    pub fn new() -> (space: KeySpace)
        ensures
            space@ == Seq::<Pair>::empty(),
            as_map(space@) == Map::<Seq<u8>, Seq<u8>>::empty(),
    {
        let entries: Vec<(Vec<u8>, Vec<u8>)> = Vec::new();
        assert(pairs_of(entries@) =~= Seq::<Pair>::empty());
        assert(as_map(Seq::<Pair>::empty()) =~= Map::<Seq<u8>, Seq<u8>>::empty());
        KeySpace { entries }
    }

    /// The key space of these entries. They must stand in strictly increasing
    /// key order, as an ordered scan of a store hands them out; entries in
    /// any other order are refused.
    pub fn from_entries(entries: Vec<(Vec<u8>, Vec<u8>)>) -> (space: Option<KeySpace>)
        ensures
            space is Some == increasing(pairs_of(entries@)),
            space matches Some(s) ==> s@ == pairs_of(entries@),
    {
        let ghost pairs = pairs_of(entries@);
        let mut i: usize = 1;
        while i < entries.len()
            invariant
                1 <= i,
                pairs == pairs_of(entries@),
                forall|k: int| 0 < k < i && k < pairs.len() ==> precedes(
                    #[trigger] pairs[k - 1].0,
                    pairs[k].0,
                ),
            decreases entries.len() - i,
        {
            if !lex_less(entries[i - 1].0.as_slice(), entries[i].0.as_slice()) {
                assert(!precedes(pairs[i - 1].0, pairs[i as int].0));
                return None;
            }
            i += 1;
        }
        proof {
            lemma_increasing_by_steps(pairs, pairs.len() as int);
            assert(pairs.take(pairs.len() as int) =~= pairs);
        }
        Some(KeySpace { entries })
    }

    /// The number of entries.
    pub fn len(&self) -> (len: usize)
        ensures
            len == self@.len(),
    {
        self.entries.len()
    }

    /// The entries, in key order.
    pub fn entries(&self) -> (entries: &Vec<(Vec<u8>, Vec<u8>)>)
        ensures
            pairs_of(entries@) == self@,
            increasing(self@),
    {
        proof {
            use_type_invariant(self);
        }
        &self.entries
    }

    /// The position of the first entry whose key does not come before `key`.
    /// A scan from `key` on starts there.
    pub fn lower_bound(&self, key: &[u8]) -> (at: usize)
        ensures
            at <= self@.len(),
            increasing(self@),
            forall|i: int| 0 <= i < at ==> precedes((#[trigger] self@[i]).0, key@),
            forall|i: int| at <= i < self@.len() ==> !precedes((#[trigger] self@[i]).0, key@),
    {
        proof {
            use_type_invariant(self);
        }
        let mut low: usize = 0;
        let mut high: usize = self.entries.len();
        while low < high
            invariant
                low <= high <= self.entries.len(),
                increasing(self@),
                forall|i: int| 0 <= i < low ==> precedes((#[trigger] self@[i]).0, key@),
                forall|i: int| high <= i < self@.len() ==> !precedes((#[trigger] self@[i]).0, key@),
            decreases high - low,
        {
            let middle = low + (high - low) / 2;
            if lex_less(self.entries[middle].0.as_slice(), key) {
                assert forall|i: int| 0 <= i < middle + 1 implies precedes(
                    (#[trigger] self@[i]).0,
                    key@,
                ) by {
                    if i < middle {
                        assert(precedes(self@[i].0, self@[middle as int].0));
                        lemma_precedes_transitive(self@[i].0, self@[middle as int].0, key@);
                    }
                }
                low = middle + 1;
            } else {
                assert forall|i: int| middle <= i < self@.len() implies !precedes(
                    (#[trigger] self@[i]).0,
                    key@,
                ) by {
                    if i > middle && precedes(self@[i].0, key@) {
                        assert(precedes(self@[middle as int].0, self@[i].0));
                        lemma_precedes_transitive(self@[middle as int].0, self@[i].0, key@);
                    }
                }
                high = middle;
            }
        }
        low
    }

    /// The value stored under `key`, if the key space holds the key.
    pub fn get(&self, key: &[u8]) -> (value: Option<&Vec<u8>>)
        ensures
            match value {
                Some(bytes) => lookup(self@, key@) == Some(bytes@),
                None => lookup(self@, key@) is None,
            },
    {
        let at = self.lower_bound(key);
        if at < self.entries.len() && same_bytes(self.entries[at].0.as_slice(), key) {
            proof {
                lemma_lookup_at(self@, at as int);
            }
            Some(&self.entries[at].1)
        } else {
            proof {
                if holds_key(self@, key@) {
                    let i = choose|i: int| 0 <= i < self@.len() && (#[trigger] self@[i]).0 == key@;
                    lemma_precedes_strict(key@, key@);
                    if i > at {
                        assert(precedes(self@[at as int].0, self@[i].0));
                    }
                }
            }
            None
        }
    }

    /// Stores `value` under `key`: a value that was stored under the key is
    /// replaced, and every other key keeps its value.
    pub fn put(&mut self, key: Vec<u8>, value: Vec<u8>)
        ensures
            as_map(final(self)@) == as_map(old(self)@).insert(key@, value@),
            increasing(final(self)@),
    {
        let at = self.lower_bound(key.as_slice());
        let ghost before = self@;
        let ghost pair = (key@, value@);
        // The entries leave the key space while they change, so that the key
        // space is whole at every point where the change could stop.
        let mut entries: Vec<(Vec<u8>, Vec<u8>)> = Vec::new();
        assert(pairs_of(entries@) =~= Seq::<Pair>::empty());
        core::mem::swap(&mut self.entries, &mut entries);
        if at < entries.len() && same_bytes(entries[at].0.as_slice(), key.as_slice()) {
            entries.set(at, (key, value));
            assert(pairs_of(entries@) =~= before.update(at as int, pair));
        } else {
            entries.insert(at, (key, value));
            assert(pairs_of(entries@) =~= before.insert(at as int, pair));
        }
        proof {
            lemma_put(before, at as int, pair, pairs_of(entries@));
        }
        core::mem::swap(&mut self.entries, &mut entries);
    }
}

/// The entries of the key space at one point in time.
#[derive(Debug, PartialEq, Eq)]
pub struct Snapshot {
    space: KeySpace,
}

impl View for Snapshot {
    type V = Seq<Pair>;

    closed spec fn view(&self) -> Seq<Pair> {
        self.space@
    }
}

impl Clone for Snapshot {
    fn clone(&self) -> (copy: Snapshot)
        ensures
            copy@ == self@,
    {
        Snapshot { space: self.space.clone() }
    }
}

impl Snapshot {
    /// The snapshot of a key space as it is now.
    pub fn of(space: &KeySpace) -> (snapshot: Snapshot)
        ensures
            snapshot@ == space@,
    {
        Snapshot { space: space.clone() }
    }

    /// The snapshot of these entries. They must stand in strictly increasing
    /// key order, as an ordered scan of a store hands them out; entries in
    /// any other order are refused.
    pub fn from_entries(entries: Vec<(Vec<u8>, Vec<u8>)>) -> (snapshot: Option<Snapshot>)
        ensures
            snapshot is Some == increasing(pairs_of(entries@)),
            snapshot matches Some(s) ==> s@ == pairs_of(entries@),
    {
        match KeySpace::from_entries(entries) {
            Some(space) => Some(Snapshot { space }),
            None => None,
        }
    }

    /// The number of entries.
    pub fn len(&self) -> (len: usize)
        ensures
            len == self@.len(),
    {
        self.space.len()
    }

    /// The entries, in key order.
    pub fn entries(&self) -> (entries: &Vec<(Vec<u8>, Vec<u8>)>)
        ensures
            pairs_of(entries@) == self@,
            increasing(self@),
    {
        self.space.entries()
    }

    /// The position of the first entry whose key does not come before `key`.
    /// A scan from `key` on starts there.
    pub fn lower_bound(&self, key: &[u8]) -> (at: usize)
        ensures
            at <= self@.len(),
            increasing(self@),
            forall|i: int| 0 <= i < at ==> precedes((#[trigger] self@[i]).0, key@),
            forall|i: int| at <= i < self@.len() ==> !precedes((#[trigger] self@[i]).0, key@),
    {
        self.space.lower_bound(key)
    }

    /// The value stored under `key`, if the snapshot holds the key.
    pub fn get(&self, key: &[u8]) -> (value: Option<&Vec<u8>>)
        ensures
            match value {
                Some(bytes) => lookup(self@, key@) == Some(bytes@),
                None => lookup(self@, key@) is None,
            },
    {
        self.space.get(key)
    }
}

} // verus!
