//! A table of accumulators by key.

use vstd::prelude::*;
use vstd::utf8::encode_utf8;
use vstd::string::StringSliceAdditionalSpecFns;
use rustc_hash::{FxBuildHasher, FxHashMap};
use crate::accumulator::Accumulator;
use crate::record::{Tally, can_combine, combine_tallies, observe};

verus! {

/// `rustc_hash::FxBuildHasher`, the hasher builder of an `FxHashMap`; nothing
/// is said of what it holds.
#[verifier::external_type_specification]
#[verifier::external_body]
pub struct ExFxBuildHasher(FxBuildHasher);

/// Accumulators by the bytes of their keys.
pub type Held = Map<Seq<u8>, Accumulator>;

/// What a hash map holds: its accumulators, by the bytes of their keys.
pub uninterp spec fn held(map: FxHashMap<String, Accumulator>) -> Map<Seq<u8>, Accumulator>;

/// `FxHashMap::default`: a new map holds nothing.
#[verifier::external_body]
fn map_new() -> (made: FxHashMap<String, Accumulator>)
    ensures
        held(made) == Held::empty(),
{
    FxHashMap::default()
}

/// `HashMap::get` on an `FxHashMap`: the accumulator held under the key
/// whose bytes are those of `key`, where there is one.
#[verifier::external_body]
fn map_get<'a>(map: &'a FxHashMap<String, Accumulator>, key: &str) -> (found: Option<
    &'a Accumulator,
>)
    ensures
        found is Some <==> held(*map).contains_key(key.spec_bytes()),
        found is Some ==> *found.unwrap() == held(*map)[key.spec_bytes()],
{
    map.get(key)
}

/// `HashMap::insert` on an `FxHashMap`: afterwards the map holds `acc` under
/// the key's bytes, in place of what it held there, and everything else as
/// before.
#[verifier::external_body]
fn map_insert(map: &mut FxHashMap<String, Accumulator>, key: String, acc: Accumulator)
    ensures
        held(*final(map)) == held(*old(map)).insert(encode_utf8(key@), acc),
{
    map.insert(key, acc);
}

/// `HashMap::len` on an `FxHashMap`: the number of keys held.
#[verifier::external_body]
fn map_len(map: &FxHashMap<String, Accumulator>) -> (n: usize)
    ensures
        n == held(*map).dom().len(),
{
    map.len()
}

/// The bytes of a pair's key.
pub open spec fn key_bytes(pair: (String, Accumulator)) -> Seq<u8> {
    encode_utf8(pair.0@)
}

/// `pairs` lists what `map` holds: every pair is held by the map, no key
/// comes twice, and every key held comes.
pub open spec fn lists_held(pairs: Seq<(String, Accumulator)>, map: Held) -> bool {
    &&& forall|i: int|
        0 <= i < pairs.len() ==> map.contains_key(key_bytes(#[trigger] pairs[i])) && map[key_bytes(
            pairs[i],
        )] == pairs[i].1
    &&& forall|i: int, j: int|
        0 <= i < j < pairs.len() ==> key_bytes(#[trigger] pairs[i]) != key_bytes(
            #[trigger] pairs[j],
        )
    &&& forall|k: Seq<u8>| #[trigger]
        map.contains_key(k) ==> exists|i: int|
            0 <= i < pairs.len() && key_bytes(#[trigger] pairs[i]) == k
}

/// `pairs` lists a tally: every pair is an entry of it and valid, no key
/// comes twice, and every key of the tally comes.
pub open spec fn lists(pairs: Seq<(String, Accumulator)>, t: Tally) -> bool {
    &&& forall|i: int|
        0 <= i < pairs.len() ==> t.contains_key(key_bytes(#[trigger] pairs[i])) && t[key_bytes(
            pairs[i],
        )] == pairs[i].1@ && pairs[i].1.valid()
    &&& forall|i: int, j: int|
        0 <= i < j < pairs.len() ==> key_bytes(#[trigger] pairs[i]) != key_bytes(
            #[trigger] pairs[j],
        )
    &&& forall|k: Seq<u8>| #[trigger]
        t.contains_key(k) ==> exists|i: int|
            0 <= i < pairs.len() && key_bytes(#[trigger] pairs[i]) == k
}

/// `HashMap::iter` on an `FxHashMap`, each pair copied out: the pairs list
/// what the map holds, each key once. The order is left open.
#[verifier::external_body]
fn map_pairs(map: &FxHashMap<String, Accumulator>) -> (pairs: Vec<(String, Accumulator)>)
    ensures
        lists_held(pairs@, held(*map)),
{
    map.iter().map(|(k, v)| (k.clone(), *v)).collect()
}

/// Accumulators by key.
pub struct Table {
    map: FxHashMap<String, Accumulator>,
}

impl View for Table {
    type V = Tally;

    closed spec fn view(&self) -> Tally {
        held(self.map).map_values(|a: Accumulator| a@)
    }
}

impl Table {
    /// The table has finitely many keys, and every accumulator held is
    /// valid.
    pub closed spec fn wf(&self) -> bool {
        &&& held(self.map).dom().finite()
        &&& forall|k: Seq<u8>| #[trigger]
            held(self.map).contains_key(k) ==> held(self.map)[k].valid()
    }

    /// A well-formed table has finitely many keys and valid entries.
    pub proof fn lemma_wf_entries(&self)
        requires
            self.wf(),
        ensures
            self@.dom().finite(),
            forall|k: Seq<u8>| #[trigger] self@.contains_key(k) ==> self@[k].valid(),
    {
        assert(self@.dom() =~= held(self.map).dom());
        assert forall|k: Seq<u8>| #[trigger] self@.contains_key(k) implies self@[k].valid() by {
            assert(held(self.map).contains_key(k));
            assert(self@[k] == held(self.map)[k]@);
        }
    }

    /// An empty table.
    pub fn new() -> (t: Table)
        ensures
            t@ == Tally::empty(),
            t.wf(),
    {
        let t = Table { map: map_new() };
        assert(t@ =~= Tally::empty());
        t
    }

    /// The number of keys.
    pub fn len(&self) -> (n: usize)
        requires
            self.wf(),
        ensures
            self@.dom().finite(),
            n == self@.dom().len(),
    {
        let n = map_len(&self.map);
        assert(self@.dom() =~= held(self.map).dom());
        n
    }

    /// The accumulator of `key`, where the table has one.
    pub fn get(&self, key: &str) -> (found: Option<Accumulator>)
        requires
            self.wf(),
        ensures
            found is Some <==> self@.contains_key(key.spec_bytes()),
            found is Some ==> found.unwrap()@ == self@[key.spec_bytes()] && found.unwrap().valid(),
    {
        match map_get(&self.map, key) {
            Some(a) => Some(*a),
            None => None,
        }
    }

    /// The entries in no particular order, each key once.
    pub fn entries(&self) -> (pairs: Vec<(String, Accumulator)>)
        requires
            self.wf(),
        ensures
            lists(pairs@, self@),
    {
        map_pairs(&self.map)
    }

    /// Takes in everything that `other` holds: a key of both tables has its
    /// two accumulators merged, a key of `other` alone is added with its
    /// accumulator.
    pub fn absorb(&mut self, other: &Table)
        requires
            old(self).wf(),
            other.wf(),
            can_combine(old(self)@, other@),
        ensures
            final(self).wf(),
            final(self)@ == combine_tallies(old(self)@, other@),
    {
        let pairs = map_pairs(&other.map);
        let ghost mut seen: Set<Seq<u8>> = Set::empty();
        let mut j: usize = 0;
        assert(self@ =~= combine_tallies(old(self)@, other@.restrict(seen)));
        while j < pairs.len()
            invariant
                0 <= j <= pairs@.len(),
                self.wf(),
                other.wf(),
                can_combine(old(self)@, other@),
                lists_held(pairs@, held(other.map)),
                forall|i: int| 0 <= i < j ==> seen.contains(key_bytes(#[trigger] pairs@[i])),
                forall|i: int|
                    j <= i < pairs@.len() ==> !seen.contains(key_bytes(#[trigger] pairs@[i])),
                self@ == combine_tallies(old(self)@, other@.restrict(seen)),
            decreases pairs@.len() - j,
        {
            let key: &str = pairs[j].0.as_str();
            let acc: Accumulator = pairs[j].1;
            let ghost before = self@;
            let ghost held_before = held(self.map);
            let ghost seen_before = seen;
            let ghost kb = key_bytes(pairs@[j as int]);
            assert(key.spec_bytes() == kb);
            assert(before.dom() =~= held_before.dom());
            assert(!seen.contains(kb));
            assert(other@.contains_key(kb) && other@[kb] == acc@);
            let merged: Accumulator = match map_get(&self.map, key) {
                Some(a) => {
                    let mut a: Accumulator = *a;
                    assert(key.spec_bytes() == kb);
                    assert(held(self.map).contains_key(kb));
                    assert(before.contains_key(kb));
                    assert(!other@.restrict(seen).contains_key(kb));
                    assert(old(self)@.contains_key(kb));
                    assert(before[kb] == held(self.map)[kb]@);
                    assert(before[kb] == old(self)@[kb]);
                    a.merge(&acc);
                    a
                },
                None => acc,
            };
            map_insert(&mut self.map, key.to_owned(), merged);
            proof {
                seen = seen.insert(kb);
                let target = combine_tallies(old(self)@, other@.restrict(seen));
                assert(held(self.map) == held_before.insert(kb, merged));
                assert forall|k: Seq<u8>| self@.contains_key(k) <==> target.contains_key(k) by {
                    assert(self@.contains_key(k) <==> held(self.map).contains_key(k));
                    assert(before.contains_key(k) <==> held_before.contains_key(k));
                    assert(other@.restrict(seen).contains_key(k) <==> (k == kb
                        || other@.restrict(seen_before).contains_key(k)));
                }
                assert forall|k: Seq<u8>| self@.contains_key(k) implies self@[k] == target[k] by {
                    assert(self@[k] == held(self.map)[k]@);
                    if k != kb {
                        assert(held_before.contains_key(k));
                        assert(before[k] == held_before[k]@);
                        assert(other@.restrict(seen).contains_key(k) <==> other@.restrict(
                            seen_before,
                        ).contains_key(k));
                    }
                }
                assert(self@ =~= target);
            }
            j += 1;
        }
        proof {
            assert(other@.restrict(seen) =~= other@);
        }
    }

    /// Takes in one record: a new key gets an accumulator that has seen
    /// `value` alone, a known key has its accumulator updated.
    pub fn record(&mut self, key: &str, value: i64)
        requires
            old(self).wf(),
            old(self)@.contains_key(key.spec_bytes()) ==> old(self)@[key.spec_bytes()].count
                < u64::MAX,
        ensures
            final(self)@ == observe(old(self)@, key.spec_bytes(), value as int),
            final(self).wf(),
    {
        let acc: Accumulator = match map_get(&self.map, key) {
            Some(a) => {
                let mut a: Accumulator = *a;
                a.update(value);
                a
            },
            None => Accumulator::new(value),
        };
        map_insert(&mut self.map, key.to_owned(), acc);
        assert(final(self)@ =~= observe(old(self)@, key.spec_bytes(), value as int));
    }
}

} // verus!
