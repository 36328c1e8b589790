//! Text keys in the order in which they were first seen, each with its slot.
//!
//! The keys stand in a vector; a hash table from `rustc_hash` finds the slot
//! of a key. The table is the only part that is not verified here: each call
//! into it goes through one of the functions below whose contract is taken
//! on trust.

use rustc_hash::FxBuildHasher;
use rustc_hash::FxHashMap;
use vstd::prelude::*;

verus! {

/// `rustc_hash::FxBuildHasher`, which makes the hashers of an `FxHashMap`.
/// Nothing is said of it; it only has to be known as a type.
#[verifier::external_type_specification]
#[verifier::external_body]
pub struct ExFxBuildHasher(FxBuildHasher);

/// What a table from keys to slots holds: each key, as its characters, with
/// the slot stored under it.
pub uninterp spec fn slot_entries(table: FxHashMap<String, usize>) -> Map<Seq<char>, usize>;

/// `FxHashMap::default`: a table that holds nothing.
#[verifier::external_body]
fn table_new() -> (table: FxHashMap<String, usize>)
    ensures
        slot_entries(table) == (Map::<Seq<char>, usize>::empty()),
{
    FxHashMap::default()
}

/// `HashMap::get` on an `FxHashMap`: the slot stored under `key`, or `None`
/// where the table holds no such key.
#[verifier::external_body]
fn table_get(table: &FxHashMap<String, usize>, key: &str) -> (slot: Option<usize>)
    ensures
        slot == (if slot_entries(*table).contains_key(key@) {
            Some(slot_entries(*table)[key@])
        } else {
            None
        }),
{
    table.get(key).copied()
}

/// `HashMap::insert` on an `FxHashMap`: afterwards `slot` is stored under
/// `key`, and every other key is as before.
#[verifier::external_body]
fn table_insert(table: &mut FxHashMap<String, usize>, key: String, slot: usize)
    ensures
        slot_entries(*final(table)) == slot_entries(*old(table)).insert(key@, slot),
{
    table.insert(key, slot);
}

/// The distinct items of a sequence, each at the place of its first
/// occurrence.
pub open spec fn first_seen<T>(items: Seq<T>) -> Seq<T>
    decreases items.len(),
{
    if items.len() == 0 {
        Seq::empty()
    } else {
        let before = first_seen(items.drop_last());
        if before.contains(items.last()) {
            before
        } else {
            before.push(items.last())
        }
    }
}

/// The distinct items of a sequence are its items, and none of them stands
/// twice.
pub proof fn lemma_first_seen<T>(items: Seq<T>)
    ensures
        first_seen(items).no_duplicates(),
        forall|item: T| first_seen(items).contains(item) <==> items.contains(item),
    decreases items.len(),
{
    if items.len() > 0 {
        let head = items.drop_last();
        let before = first_seen(head);
        lemma_first_seen(head);
        assert forall|item: T| first_seen(items).contains(item) <==> items.contains(item) by {
            if items.contains(item) {
                let i = choose|i: int| 0 <= i < items.len() && items[i] == item;
                if i < head.len() {
                    assert(head[i] == item);
                    assert(head.contains(item));
                    assert(before.contains(item));
                    let j = choose|j: int| 0 <= j < before.len() && before[j] == item;
                    assert(first_seen(items)[j] == item);
                } else if !before.contains(item) {
                    assert(first_seen(items)[before.len() as int] == item);
                }
            }
            if first_seen(items).contains(item) {
                let j = choose|j: int| 0 <= j < first_seen(items).len() && first_seen(items)[j] == item;
                if j < before.len() {
                    assert(before[j] == item);
                    assert(before.contains(item));
                    assert(head.contains(item));
                    let i = choose|i: int| 0 <= i < head.len() && head[i] == item;
                    assert(items[i] == item);
                } else {
                    assert(items[items.len() - 1] == item);
                }
            }
        }
    }
}

/// Distinct text keys in the order in which they were first added. The place
/// of a key in that order is its slot.
#[derive(Debug)]
pub struct KeyIndex {
    table: FxHashMap<String, usize>,
    keys: Vec<String>,
}

impl KeyIndex {
    /// The table holds exactly the keys of the vector, each with its place.
    #[verifier::type_invariant]
    spec fn table_matches_keys(self) -> bool {
        &&& forall|i: int|
            0 <= i < self.keys@.len() ==> {
                &&& #[trigger] slot_entries(self.table).contains_key(self.keys@[i]@)
                &&& slot_entries(self.table)[self.keys@[i]@] == i
            }
        &&& forall|key: Seq<char>| #[trigger]
            slot_entries(self.table).contains_key(key) ==> {
                &&& 0 <= slot_entries(self.table)[key] < self.keys@.len()
                &&& self.keys@[slot_entries(self.table)[key] as int]@ == key
            }
    }

    /// The keys, by slot.
    pub closed spec fn view(&self) -> Seq<Seq<char>> {
        Seq::new(self.keys@.len(), |i: int| self.keys@[i]@)
    }

    /// An index without keys.
    pub fn new() -> (index: Self)
        ensures
            index@ == Seq::<Seq<char>>::empty(),
    {
        KeyIndex { table: table_new(), keys: Vec::new() }
    }

    /// The number of keys.
    pub fn len(&self) -> (len: usize)
        ensures
            len == self@.len(),
    {
        self.keys.len()
    }

    /// The key in slot `slot`.
    pub fn key(&self, slot: usize) -> (key: &str)
        requires
            slot < self@.len(),
        ensures
            key@ == self@[slot as int],
    {
        self.keys[slot].as_str()
    }

    /// The slot of `key`, if the index holds it. No key stands in two slots.
    pub fn find(&self, key: &str) -> (slot: Option<usize>)
        ensures
            self@.no_duplicates(),
            match slot {
                Some(slot) => slot < self@.len() && self@[slot as int] == key@,
                None => !self@.contains(key@),
            },
    {
        proof {
            use_type_invariant(self);
            assert forall|i: int, j: int|
                0 <= i < self@.len() && 0 <= j < self@.len() && i != j implies self@[i]
                != self@[j] by {
                assert(slot_entries(self.table).contains_key(self.keys@[i]@));
                assert(slot_entries(self.table).contains_key(self.keys@[j]@));
            }
        }
        let slot = table_get(&self.table, key);
        proof {
            if slot is None && self@.contains(key@) {
                let i = choose|i: int| 0 <= i < self@.len() && self@[i] == key@;
                assert(slot_entries(self.table).contains_key(self.keys@[i]@));
            }
        }
        slot
    }

    /// The slot of `key`, which is added behind the other keys if the index
    /// does not hold it yet.
    pub fn intern(&mut self, key: &str) -> (slot: usize)
        ensures
            final(self)@ == first_seen(old(self)@.push(key@)),
            final(self)@ == (if old(self)@.contains(key@) {
                old(self)@
            } else {
                old(self)@.push(key@)
            }),
            final(self)@.no_duplicates(),
            slot < final(self)@.len(),
            final(self)@[slot as int] == key@,
    {
        let found = self.find(key);
        proof {
            lemma_first_seen_of_distinct(old(self)@);
            assert(old(self)@.push(key@).drop_last() =~= old(self)@);
        }
        match found {
            Some(slot) => slot,
            None => {
                let mut taken = KeyIndex::new();
                std::mem::swap(self, &mut taken);
                proof {
                    use_type_invariant(&taken);
                }
                let KeyIndex { mut table, mut keys } = taken;
                let ghost before = slot_entries(table);
                let ghost held = keys@;
                let slot: usize = keys.len();
                table_insert(&mut table, key.to_owned(), slot);
                keys.push(key.to_owned());
                proof {
                    assert forall|i: int| 0 <= i < keys@.len() implies {
                        &&& #[trigger] slot_entries(table).contains_key(keys@[i]@)
                        &&& slot_entries(table)[keys@[i]@] == i
                    } by {
                        if i < held.len() {
                            assert(before.contains_key(held[i]@));
                            assert(old(self)@[i] == held[i]@);
                        }
                    }
                }
                *self = KeyIndex { table, keys };
                proof {
                    assert(self@ =~= old(self)@.push(key@));
                }
                slot
            },
        }
    }
}

/// A sequence in which nothing stands twice is the sequence of its own
/// distinct items.
pub proof fn lemma_first_seen_of_distinct<T>(items: Seq<T>)
    requires
        items.no_duplicates(),
    ensures
        first_seen(items) == items,
    decreases items.len(),
{
    if items.len() > 0 {
        let head = items.drop_last();
        lemma_first_seen_of_distinct(head);
        if head.contains(items.last()) {
            let i = choose|i: int| 0 <= i < head.len() && head[i] == items.last();
            assert(items[i] == items[items.len() - 1]);
        }
        assert(head.push(items.last()) =~= items);
    }
}

} // verus!
