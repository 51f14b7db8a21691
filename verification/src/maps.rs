//! A dictionary with an index.
//!
//! A [`KeyedMap`] keeps its entries in the order of their insertion, as a
//! dictionary of a document does, and finds a key without walking them: an
//! index built on hashing tells where the entry under a key stands. It is
//! for dictionaries too large to walk for every lookup.

use crate::tree::{
    inserted, lemma_inserted, lemma_position_of_is, position_of, unique_keys, Entry,
};
use crate::values::{entries_of, Keyed, Value};
use indexmap::IndexMap;
use vstd::prelude::*;

verus! {

/// The type `IndexMap` of the crate `indexmap`. Nothing inside it is seen by
/// the verifier: what it holds is known only through [`positions`].
#[verifier::external_type_specification]
#[verifier::external_body]
#[verifier::reject_recursive_types(K)]
#[verifier::reject_recursive_types(V)]
#[verifier::reject_recursive_types(S)]
pub struct ExIndexMap<K, V, S>(IndexMap<K, V, S>);

/// What an index holds: the number stored under the text of each key. Keys
/// are strings, which `indexmap` hashes and compares by their text.
pub uninterp spec fn positions(index: IndexMap<&str, usize>) -> Map<Seq<char>, usize>;

/// `IndexMap::new` of the crate `indexmap`. The claim: a new index holds
/// nothing.
#[verifier::external_body]
fn index_new<'a>() -> (r: IndexMap<&'a str, usize>)
    ensures
        positions(r) == (Map::<Seq<char>, usize>::empty()),
{
    IndexMap::new()
}

/// `IndexMap::get` of the crate `indexmap`. The claim: it gives the number
/// stored under a key with the same text as `key`, and nothing where no such
/// key is in the index.
#[verifier::external_body]
fn index_get(index: &IndexMap<&str, usize>, key: &str) -> (r: Option<usize>)
    ensures
        r == if positions(*index).contains_key(key@) {
            Some(positions(*index)[key@])
        } else {
            None
        },
{
    index.get(key).copied()
}

/// `IndexMap::insert` of the crate `indexmap`. The claim: afterwards `at` is
/// stored under the text of `key`, in place of what was stored under it
/// before, and what is stored under every other key is what it was.
#[verifier::external_body]
fn index_insert<'a>(index: &mut IndexMap<&'a str, usize>, key: &'a str, at: usize)
    ensures
        positions(*final(index)) == positions(*old(index)).insert(key@, at),
{
    index.insert(key, at);
}

/// Whether `positions` is the index of `entries`: it tells of every entry
/// where it stands, and holds no other key.
pub open spec fn indexes(positions: Map<Seq<char>, usize>, entries: Seq<Entry>) -> bool {
    &&& forall|i: int|
        0 <= i < entries.len() ==> positions.contains_key((#[trigger] entries[i]).key)
            && positions[entries[i].key] == i
    &&& forall|key: Seq<char>| #[trigger]
        positions.contains_key(key) ==> positions[key] < entries.len()
            && entries[positions[key] as int].key == key
}

/// Entries that have an index have no key twice, and the index tells the
/// position of every key.
pub proof fn lemma_indexes(positions: Map<Seq<char>, usize>, entries: Seq<Entry>, key: Seq<char>)
    requires
        indexes(positions, entries),
    ensures
        unique_keys(entries),
        positions.contains_key(key) ==> position_of(entries, key) == positions[key],
        !positions.contains_key(key) ==> position_of(entries, key) == entries.len(),
{
    assert forall|i: int, j: int|
        0 <= i < entries.len() && 0 <= j < entries.len() && i != j implies (#[trigger] entries[i]).key
        != (#[trigger] entries[j]).key by {
        assert(positions[entries[i].key] == i);
        assert(positions[entries[j].key] == j);
    }
    if positions.contains_key(key) {
        let at = positions[key] as int;
        assert forall|j: int| 0 <= j < at implies (#[trigger] entries[j]).key != key by {
            assert(positions[entries[j].key] == j);
        }
        lemma_position_of_is(entries, key, at);
    } else {
        assert forall|j: int| 0 <= j < entries.len() implies (#[trigger] entries[j]).key != key by {
            assert(positions.contains_key(entries[j].key));
        }
        lemma_position_of_is(entries, key, entries.len() as int);
    }
}

/// Keyed entries in the order of their insertion, with an index to find
/// them by key.
#[derive(Debug)]
pub struct KeyedMap<'a> {
    entries: Vec<Keyed<'a>>,
    index: IndexMap<&'a str, usize>,
}

impl<'a> View for KeyedMap<'a> {
    type V = Seq<Entry>;

    closed spec fn view(&self) -> Seq<Entry> {
        entries_of(self.entries@)
    }
}

impl<'a> KeyedMap<'a> {
    /// The invariant of the map: the index tells of every entry where it
    /// stands, and of nothing else. Every map that this module hands out
    /// meets it.
    pub closed spec fn wf(self) -> bool {
        indexes(positions(self.index), entries_of(self.entries@))
    }

    /// In a map that meets its invariant no two entries have the same key.
    pub proof fn lemma_unique(self)
        requires
            self.wf(),
        ensures
            unique_keys(self@),
    {
        lemma_indexes(positions(self.index), self@, Seq::empty());
    }

    /// A map without entries.
    pub fn new() -> (r: Self)
        ensures
            r.wf(),
            r@ == Seq::<Entry>::empty(),
    {
        let r = KeyedMap { entries: Vec::new(), index: index_new() };
        assert(r@ =~= Seq::<Entry>::empty());
        r
    }

    /// Number of entries.
    pub fn len(&self) -> (n: usize)
        ensures
            n == self@.len(),
    {
        self.entries.len()
    }

    /// The entries, in the order of their insertion.
    pub fn as_slice(&self) -> (r: &[Keyed<'a>])
        ensures
            entries_of(r@) == self@,
    {
        self.entries.as_slice()
    }

    /// The value under `key`.
    pub fn get(&self, key: &str) -> (r: Option<&Value<'a>>)
        requires
            self.wf(),
        ensures
            match r {
                Some(value) => position_of(self@, key@) < self@.len() && value@
                    == self@[position_of(self@, key@)].value,
                None => position_of(self@, key@) == self@.len(),
            },
    {
        proof {
            lemma_indexes(positions(self.index), self@, key@);
        }
        match index_get(&self.index, key) {
            Some(at) => Some(&self.entries[at].value),
            None => None,
        }
    }

    /// The value under `key`, to change it in place.
    pub fn get_mut(&mut self, key: &str) -> (r: Option<&mut Value<'a>>)
        requires
            old(self).wf(),
        ensures
            final(self).wf(),
            match r {
                Some(value) => {
                    let at = position_of(old(self)@, key@);
                    &&& at < old(self)@.len()
                    &&& value@ == old(self)@[at].value
                    &&& final(self)@ == old(self)@.update(
                        at,
                        Entry { value: final(value)@, ..old(self)@[at] },
                    )
                },
                None => position_of(old(self)@, key@) == old(self)@.len() && final(self)@ == old(
                    self,
                )@,
            },
    {
        proof {
            lemma_indexes(positions(self.index), self@, key@);
        }
        match index_get(&self.index, key) {
            Some(at) => {
                let ghost before = self.entries@;
                let ghost after = final(self).entries@;
                let keyed = &mut self.entries[at];
                let ghost keyed1 = *final(keyed);
                proof {
                    assert(entries_of(after) =~= entries_of(before).update(at as int, keyed1@));
                }
                Some(&mut keyed.value)
            },
            None => None,
        }
    }

    /// Puts `keyed` under its key: in the place of the entry that is under
    /// the key already, or at the end where there is none. The other entries
    /// stay where they are.
    pub fn insert(&mut self, keyed: Keyed<'a>)
        requires
            old(self).wf(),
        ensures
            final(self).wf(),
            final(self)@ == inserted(old(self)@, keyed@),
    {
        proof {
            lemma_indexes(positions(self.index), self@, keyed@.key);
            lemma_inserted(self@, keyed@);
        }
        let key = keyed.key.as_str();
        match index_get(&self.index, key) {
            Some(at) => {
                self.entries[at] = keyed;
                assert(self@ =~= inserted(old(self)@, keyed@));
            },
            None => {
                let at = self.entries.len();
                index_insert(&mut self.index, key, at);
                self.entries.push(keyed);
                assert(self@ =~= inserted(old(self)@, keyed@));
            },
        }
    }
}

} // verus!
