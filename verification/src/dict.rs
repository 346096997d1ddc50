//! An associative table with open addressing and a bounded probe window.
//!
//! Every key has a home position, its digest reduced modulo the capacity, and
//! lives in one of the `probe_window` slots that start there. The storage is
//! `probe_window - 1` slots longer than the capacity, so a window never wraps
//! around. When a window is full the table doubles its capacity, widens the
//! window and places every entry again.
//!
//! Nothing is known of what an arbitrary `Hash` impl feeds to a hasher, so the
//! table keeps the digest of each key next to it: an entry is identified by
//! its digest together with its key. The operations that take the digest as
//! an argument, [`Dict::get_hashed`] and [`Dict::put_hashed`], are specified
//! exactly; [`Dict::get`] and [`Dict::put`] hash the key and hand over to them.
//!
//! The table keeps its shape for keys of any type. What it holds is stated
//! for keys on which `==` decides equality ([`eq_decides`]). Where hashing a
//! key twice can give one digest only ([`steady`]), [`Dict::get`] and
//! [`Dict::put`] are stated by key as well ([`Dict::by_key`]).

use std::collections::hash_map::DefaultHasher;
use std::fmt::Debug;
use crate::hashing::feed;
use crate::runs::{hashed_by, lemma_hashing_kept, lemma_keys_unique};
use std::hash::{Hash, Hasher};
use vstd::std_specs::hash::DefaultHasherAdditionalSpecFns;
use vstd::prelude::*;

verus! {

/// Number of home positions of a new table.
pub const INITIAL_CARDINALITY: usize = 64;

/// Number of slots probed from a home position in a new table.
pub const INITIAL_SEARCH_CLOSEST_SLOTS: usize = 6;

/// `==` on `K` decides equality: what `PartialEq::eq` returns for two keys
/// is whether they are the same key.
pub open spec fn eq_decides<K: PartialEq>() -> bool {
    forall|a: K, b: K, r: bool|
        #[trigger] call_ensures(<K as PartialEq>::eq, (&a, &b), r) ==> r == (a == b)
}

/// Keys whose `==` vstd knows to be equality are keys on which `==` decides
/// equality.
pub proof fn lemma_concrete_eq_decides<K: PartialEq>()
    requires
        vstd::laws_eq::obeys_concrete_eq::<K>(),
    ensures
        eq_decides::<K>(),
{
    reveal(vstd::laws_eq::obeys_concrete_eq);
}

/// `char`'s `PartialEq::eq` of std returns whether the two characters are the
/// same: `==` on `char` is equality of the code points.
pub assume_specification[ <char as PartialEq>::eq ](a: &char, b: &char) -> (r: bool)
    ensures
        r == (*a == *b),
;

/// One cell of the storage.
pub enum Slot<K, V> {
    Empty,
    Occupied { digest: u64, key: K, value: V },
}

impl<K, V> Slot<K, V> {
    /// The slot holds the entry identified by `digest` and `key`.
    pub open spec fn holds(self, digest: u64, key: K) -> bool {
        match self {
            Slot::Empty => false,
            Slot::Occupied { digest: d, key: k, value: _ } => d == digest && k == key,
        }
    }

    pub open spec fn is_occupied(self) -> bool {
        self is Occupied
    }
}

/// The home position of a digest in a table of `capacity` home positions.
pub open spec fn home(digest: u64, capacity: nat) -> int {
    digest as int % capacity as int
}

/// Every occupied slot lies in the window of its digest's home position, and
/// no slot between that home position and the slot itself is empty.
pub open spec fn placed<K, V>(slots: Seq<Slot<K, V>>, capacity: nat, window: nat) -> bool {
    forall|i: int|
        0 <= i < slots.len() && (#[trigger] slots[i]).is_occupied() ==> {
            let h: int = home(slots[i]->digest, capacity);
            &&& h <= i < h + window
            &&& forall|j: int| h <= j < i ==> (#[trigger] slots[j]).is_occupied()
        }
}

/// No two occupied slots hold the same digest and key.
pub open spec fn distinct<K, V>(slots: Seq<Slot<K, V>>) -> bool {
    forall|i: int, j: int|
        0 <= i < slots.len() && 0 <= j < slots.len() && i != j && (#[trigger] slots[i]).is_occupied()
            && (#[trigger] slots[j]).is_occupied() ==> !(slots[i]->digest == slots[j]->digest
            && slots[i]->key == slots[j]->key)
}

/// Number of occupied slots among the first `upto` slots.
pub open spec fn occupied_upto<K, V>(slots: Seq<Slot<K, V>>, upto: int) -> nat
    decreases upto,
{
    if upto <= 0 {
        0
    } else {
        occupied_upto(slots, upto - 1) + if slots[upto - 1].is_occupied() {
            1nat
        } else {
            0nat
        }
    }
}

/// Some slot holds the entry identified by `digest` and `key`.
pub open spec fn present<K, V>(slots: Seq<Slot<K, V>>, digest: u64, key: K) -> bool {
    exists|i: int| 0 <= i < slots.len() && (#[trigger] slots[i]).holds(digest, key)
}

/// A slot that holds the entry identified by `digest` and `key`.
pub open spec fn index_of<K, V>(slots: Seq<Slot<K, V>>, digest: u64, key: K) -> int {
    choose|i: int| 0 <= i < slots.len() && (#[trigger] slots[i]).holds(digest, key)
}

/// The mapping that a storage represents, from digest and key to value.
pub open spec fn contents<K, V>(slots: Seq<Slot<K, V>>) -> Map<(u64, K), V> {
    Map::new(
        |p: (u64, K)| present(slots, p.0, p.1),
        |p: (u64, K)| slots[index_of(slots, p.0, p.1)]->value,
    )
}

/// The capacity after one growth step.
pub open spec fn doubled(capacity: nat) -> nat {
    capacity * 2
}

/// The probe window after one growth step.
pub open spec fn widened(window: nat) -> nat {
    window * 8 / 5
}

/// Capacity and probe window after `steps` growth steps.
pub open spec fn grown(capacity: nat, window: nat, steps: nat) -> (nat, nat)
    decreases steps,
{
    if steps == 0 {
        (capacity, window)
    } else {
        grown(capacity * 2, widened(window), (steps - 1) as nat)
    }
}

/// By how much a probe window falls short of being wider than `load` entries.
pub open spec fn shortfall(window: nat, load: nat) -> nat {
    if window > load {
        0
    } else {
        (load + 1 - window) as nat
    }
}

/// The length of the storage once the table has grown until its probe
/// window is wider than `load` entries: no table that holds at most `load`
/// entries grows beyond it.
pub open spec fn settled_len(capacity: nat, window: nat, load: nat) -> nat
    decreases shortfall(window, load),
    via settled_len_terminates
{
    if window > load || window < 2 {
        (capacity + window - 1) as nat
    } else {
        settled_len(capacity * 2, widened(window), load)
    }
}

/// Growth steps add up.
pub proof fn lemma_grown_compose(capacity: nat, window: nat, a: nat, b: nat)
    ensures
        ({
            let mid = grown(capacity, window, a);
            grown(mid.0, mid.1, b) == grown(capacity, window, a + b)
        }),
    decreases a,
{
    if a > 0 {
        lemma_grown_compose(capacity * 2, widened(window), (a - 1) as nat, b);
    }
}

/// Growing never narrows the probe window nor lowers the capacity.
pub proof fn lemma_grown_widens(capacity: nat, window: nat, steps: nat)
    ensures
        grown(capacity, window, steps).0 >= capacity,
        grown(capacity, window, steps).1 >= window,
    decreases steps,
{
    if steps > 0 {
        lemma_grown_widens(capacity * 2, widened(window), (steps - 1) as nat);
    }
}

/// A table never shrinks on the way to its settled length.
pub proof fn lemma_settled_len_lower_bound(capacity: nat, window: nat, load: nat)
    requires
        window >= 1,
    ensures
        settled_len(capacity, window, load) >= capacity + window - 1,
    decreases shortfall(window, load),
{
    if !(window > load || window < 2) {
        assert(widened(window) > window);
        lemma_settled_len_lower_bound(capacity * 2, widened(window), load);
    }
}

/// A table that has room for `more` entries has room for fewer.
pub proof fn lemma_settled_len_monotone(capacity: nat, window: nat, fewer: nat, more: nat)
    requires
        window >= 1,
        fewer <= more,
    ensures
        settled_len(capacity, window, fewer) <= settled_len(capacity, window, more),
    decreases shortfall(window, more),
{
    if !(window > more || window < 2) {
        assert(widened(window) > window);
        if window > fewer {
            lemma_settled_len_lower_bound(capacity * 2, widened(window), more);
        } else {
            lemma_settled_len_monotone(capacity * 2, widened(window), fewer, more);
        }
    }
}

/// `pos` is the first slot in the window of `digest` that is empty or holds
/// the entry, and no slot before it in the window is empty.
pub open spec fn first_fit<K, V>(
    slots: Seq<Slot<K, V>>,
    capacity: nat,
    window: nat,
    digest: u64,
    key: K,
    pos: int,
) -> bool {
    &&& home(digest, capacity) <= pos < home(digest, capacity) + window
    &&& 0 <= pos < slots.len()
    &&& (slots[pos] is Empty || slots[pos].holds(digest, key))
    &&& forall|j: int|
        home(digest, capacity) <= j < pos ==> (#[trigger] slots[j]).is_occupied() && !slots[j].holds(
            digest,
            key,
        )
}

/// The storage that placing the entries of the first `upto` slots of
/// `from`, in the order of the slots, makes of an empty table of `capacity`
/// home positions and a probe window of `window`; nothing if one of the
/// entries finds its window full.
pub open spec fn replayed<K, V>(
    from: Seq<Slot<K, V>>,
    upto: int,
    capacity: nat,
    window: nat,
) -> Option<Seq<Slot<K, V>>>
    decreases upto,
{
    if upto <= 0 {
        Some(Seq::new((capacity + window - 1) as nat, |i: int| Slot::Empty))
    } else {
        match replayed(from, upto - 1, capacity, window) {
            None => None,
            Some(slots) => match from[upto - 1] {
                Slot::Empty => Some(slots),
                Slot::Occupied { digest, key, value } => if exists|pos: int|
                    first_fit(slots, capacity, window, digest, key, pos) {
                    Some(
                        slots.update(
                            choose|pos: int| first_fit(slots, capacity, window, digest, key, pos),
                            from[upto - 1],
                        ),
                    )
                } else {
                    None
                },
            },
        }
    }
}

#[via_fn]
proof fn settled_len_terminates(capacity: nat, window: nat, load: nat) {
    assert(window >= 2 ==> widened(window) > window);
}

pub struct Dict<K, V> {
    capacity: usize,
    probe_window: usize,
    storage: Vec<Slot<K, V>>,
}

impl<K, V> Dict<K, V> {
    /// The storage, slot by slot.
    pub closed spec fn slots(&self) -> Seq<Slot<K, V>> {
        self.storage@
    }

    /// Number of home positions.
    pub closed spec fn cap(&self) -> nat {
        self.capacity as nat
    }

    /// Number of slots probed from a home position.
    pub closed spec fn window(&self) -> nat {
        self.probe_window as nat
    }

    /// Number of entries.
    pub open spec fn len(&self) -> nat {
        occupied_upto(self.slots(), self.slots().len() as int)
    }

    /// The shape of the table, which holds whatever `==` does on the keys:
    /// the storage is `probe_window - 1` slots longer than the capacity, and
    /// every entry lies in the window of its digest with no empty slot
    /// before it.
    pub open spec fn shaped(&self) -> bool {
        &&& self.cap() >= 1
        &&& self.window() >= 2
        &&& self.slots().len() == self.cap() + self.window() - 1
        &&& placed(self.slots(), self.cap(), self.window())
    }

    /// The invariant of the table: its shape, and no entry twice.
    pub open spec fn wf(&self) -> bool {
        &&& self.shaped()
        &&& distinct(self.slots())
    }

    /// While the table holds at most `load` entries its storage does not
    /// outgrow `usize`, however the keys collide.
    pub open spec fn room_for(&self, load: nat) -> bool {
        settled_len(self.cap(), self.window(), load) <= usize::MAX
    }

    /// The window of `digest` has a slot for the entry: the table takes it
    /// without growing.
    pub open spec fn admits(&self, digest: u64, key: K) -> bool {
        exists|pos: int| first_fit(self.slots(), self.cap(), self.window(), digest, key, pos)
    }

    /// The value stored for `digest` and `key`, if there is one.
    pub open spec fn stored(&self, digest: u64, key: K) -> Option<V> {
        if self@.dom().contains((digest, key)) {
            Some(self@[(digest, key)])
        } else {
            None
        }
    }

    /// `after` is what a put can make of `before`, whatever `==` does on the
    /// keys: a table of the same shape, with at most one entry more, that has
    /// grown by some number of steps and can still grow as far as `before`
    /// could.
    pub open spec fn regrown(before: Self, after: Self) -> bool {
        &&& after.shaped()
        &&& after.len() <= before.len() + 1
        &&& exists|steps: nat|
            #[trigger] grown(before.cap(), before.window(), steps) == (after.cap(), after.window())
        &&& forall|load: nat|
            load >= before.len() ==> #[trigger] settled_len(after.cap(), after.window(), load)
                == settled_len(before.cap(), before.window(), load)
    }

    /// The storage after one growth step, if every entry finds a slot again:
    /// the entries placed, in the order of the old storage, into an empty
    /// table of twice the capacity and the widened probe window.
    pub open spec fn rebuilt(&self) -> Option<Seq<Slot<K, V>>> {
        replayed(
            self.slots(),
            self.slots().len() as int,
            doubled(self.cap()),
            widened(self.window()),
        )
    }

    /// A put for `digest` and `key` makes the table grow by exactly one
    /// step: the window of the digest has no slot for the entry, every entry
    /// finds a slot again after one step, and so does the new one.
    pub open spec fn grows_once(&self, digest: u64, key: K) -> bool {
        &&& !self.admits(digest, key)
        &&& self.rebuilt() is Some
        &&& exists|pos: int|
            #[trigger] first_fit(
                self.rebuilt()->0,
                doubled(self.cap()),
                widened(self.window()),
                digest,
                key,
                pos,
            )
    }

    /// `after` is the table that a put of `value` for `digest` and `key`
    /// makes of `before`.
    pub open spec fn put_outcome(before: Self, after: Self, digest: u64, key: K, value: V) -> bool {
        &&& after.wf()
        &&& after@ == before@.insert((digest, key), value)
        &&& after.len() == before.len() + if before@.dom().contains((digest, key)) {
            0nat
        } else {
            1nat
        }
        &&& after.cap() >= before.cap()
        &&& after.window() >= before.window()
        &&& exists|steps: nat|
            #[trigger] grown(before.cap(), before.window(), steps) == (after.cap(), after.window())
                && (steps == 0 <==> before.admits(digest, key)) && (steps == 1
                <==> before.grows_once(digest, key))
        &&& forall|pos: int|
            #[trigger] first_fit(before.slots(), before.cap(), before.window(), digest, key, pos)
                ==> after.slots() == before.slots().update(
                pos,
                Slot::Occupied { digest, key, value },
            )
        &&& forall|pos: int|
            before.grows_once(digest, key) && #[trigger] first_fit(
                before.rebuilt()->0,
                doubled(before.cap()),
                widened(before.window()),
                digest,
                key,
                pos,
            ) ==> after.slots() == before.rebuilt()->0.update(
                pos,
                Slot::Occupied { digest, key, value },
            )
        &&& forall|load: nat|
            load >= before.len() ==> #[trigger] settled_len(after.cap(), after.window(), load)
                == settled_len(before.cap(), before.window(), load)
    }
}

impl<K: Clone, V: Clone> Dict<K, V> {
    /// `found` is a lookup's answer for `digest` and `key`: a clone of the
    /// stored value, or nothing where nothing is stored.
    pub open spec fn answers(&self, digest: u64, key: K, found: Option<V>) -> bool {
        match (self.stored(digest, key), found) {
            (Some(kept), Some(v)) => cloned(kept, v),
            (None, None) => true,
            _ => false,
        }
    }

    /// `dump` lists every slot with its index: nothing for an empty slot, a
    /// clone of the key and of the value for an occupied one.
    pub open spec fn dumped(&self, dump: Seq<(usize, Option<(K, V)>)>) -> bool {
        &&& dump.len() == self.slots().len()
        &&& forall|i: int|
            0 <= i < dump.len() ==> (#[trigger] dump[i]).0 == i && match (self.slots()[i], dump[i].1) {
                (Slot::Empty, None) => true,
                (Slot::Occupied { digest: _, key, value }, Some(pair)) => cloned(key, pair.0)
                    && cloned(value, pair.1),
                _ => false,
            }
    }
}

impl<K, V> View for Dict<K, V> {
    type V = Map<(u64, K), V>;

    open spec fn view(&self) -> Map<(u64, K), V> {
        contents(self.slots())
    }
}

/// A home position is one of the first `capacity` slots.
pub proof fn lemma_home_in_range(digest: u64, capacity: nat)
    requires
        capacity >= 1,
    ensures
        0 <= home(digest, capacity) < capacity,
{
    vstd::arithmetic::div_mod::lemma_mod_bound(digest as int, capacity as int);
}

/// Under `distinct`, the slot that holds an entry is the one `index_of` names.
pub proof fn lemma_index_unique<K, V>(slots: Seq<Slot<K, V>>, i: int)
    requires
        distinct(slots),
        0 <= i < slots.len(),
        slots[i].is_occupied(),
    ensures
        present(slots, slots[i]->digest, slots[i]->key),
        index_of(slots, slots[i]->digest, slots[i]->key) == i,
{
    assert(slots[i].holds(slots[i]->digest, slots[i]->key));
    let j: int = index_of(slots, slots[i]->digest, slots[i]->key);
    assert(slots[j].holds(slots[i]->digest, slots[i]->key));
    assert(slots[j].is_occupied());
}

/// The digest of `key`: what a fresh `DefaultHasher` returns once the key
/// has been fed to it, divided by 31.
pub fn digest_of<K: Hash>(key: &K) -> (digest: u64)
    ensures
        exists|state: &mut DefaultHasher|
            (*state)@ == Seq::<Seq<u8>>::empty() && #[trigger] call_ensures(
                feed::<K>,
                (key, state),
                (),
            ) && digest == DefaultHasher::spec_finish(final(state)@) / 31,
        digest <= u64::MAX / 31,
{
    let mut hasher = DefaultHasher::new();
    feed(key, &mut hasher);
    hasher.finish() / 31
}

/// Hashing is steady on `K`: for one key `digest_of` can return one digest
/// only.
pub open spec fn steady<K: Hash>() -> bool {
    forall|key: K, a: u64, b: u64|
        #[trigger] call_ensures(digest_of::<K>, (&key,), a) && #[trigger] call_ensures(
            digest_of::<K>,
            (&key,),
            b,
        ) ==> a == b
}

/// A digest that `digest_of` can return for `key`; where hashing is steady,
/// the digest of `key`.
pub open spec fn digest_spec<K: Hash>(key: K) -> u64 {
    choose|digest: u64| call_ensures(digest_of::<K>, (&key,), digest)
}

impl<K: Hash, V> Dict<K, V> {
    /// Every entry stands under the digest of its key.
    pub open spec fn keyed(&self) -> bool {
        forall|i: int|
            0 <= i < self.slots().len() && (#[trigger] self.slots()[i]).is_occupied()
                ==> self.slots()[i]->digest == digest_spec(self.slots()[i]->key)
    }

    /// No two occupied slots hold the same key.
    pub open spec fn distinct_keys(&self) -> bool {
        forall|i: int, j: int|
            0 <= i < self.slots().len() && 0 <= j < self.slots().len() && i != j && (
            #[trigger] self.slots()[i]).is_occupied() && (#[trigger] self.slots()[j]).is_occupied()
                ==> self.slots()[i]->key != self.slots()[j]->key
    }

    /// The mapping from key to value that the table holds under the digests
    /// of the keys.
    pub open spec fn by_key(&self) -> Map<K, V> {
        Map::new(
            |key: K| self@.dom().contains((digest_spec(key), key)),
            |key: K| self@[(digest_spec(key), key)],
        )
    }
}

impl<K: Clone + Hash, V: Clone> Dict<K, V> {
    /// `found` is a lookup's answer for `key`: a clone of the value that the
    /// table holds for the key, or nothing where it holds none.
    pub open spec fn answers_key(&self, key: K, found: Option<V>) -> bool {
        match found {
            Some(v) => self.by_key().dom().contains(key) && cloned(self.by_key()[key], v),
            None => !self.by_key().dom().contains(key),
        }
    }
}

impl<K: Clone + Eq + Hash + Debug, V: Clone + Debug> Dict<K, V> {
    /// An empty table of 64 home positions with a probe window of 6.
    pub fn new() -> (table: Self)
        ensures
            table.wf(),
            table.cap() == INITIAL_CARDINALITY,
            table.window() == INITIAL_SEARCH_CLOSEST_SLOTS,
            table@ == Map::<(u64, K), V>::empty(),
            table.len() == 0,
            forall|i: int| 0 <= i < table.slots().len() ==> table.slots()[i] is Empty,
            table.keyed(),
            table.distinct_keys(),
            table.by_key() == Map::<K, V>::empty(),
    {
        let total_slots: usize = INITIAL_CARDINALITY + (INITIAL_SEARCH_CLOSEST_SLOTS - 1);
        let storage = Self::vacant(total_slots);
        let table = Dict {
            capacity: INITIAL_CARDINALITY,
            probe_window: INITIAL_SEARCH_CLOSEST_SLOTS,
            storage,
        };
        proof {
            lemma_vacant_holds_nothing(table.slots(), table.slots().len() as int);
            assert(table@ =~= Map::<(u64, K), V>::empty());
            assert(table.by_key() =~= Map::<K, V>::empty());
        }
        table
    }

    /// A storage of `total` empty slots.
    fn vacant(total: usize) -> (storage: Vec<Slot<K, V>>)
        ensures
            storage@.len() == total,
            forall|i: int| 0 <= i < total ==> storage@[i] is Empty,
    {
        let mut storage: Vec<Slot<K, V>> = Vec::with_capacity(total);
        let mut i: usize = 0;
        while i < total
            invariant
                i <= total,
                storage@.len() == i,
                forall|j: int| 0 <= j < i ==> storage@[j] is Empty,
            decreases total - i,
        {
            storage.push(Slot::Empty);
            i += 1;
        }
        storage
    }

    /// Number of home positions.
    pub fn capacity(&self) -> (n: usize)
        ensures
            n == self.cap(),
    {
        self.capacity
    }

    /// Number of slots probed from a home position.
    pub fn probe_window(&self) -> (n: usize)
        ensures
            n == self.window(),
    {
        self.probe_window
    }

    /// The home position of `digest`.
    fn get_slot(&self, digest: u64) -> (idx: usize)
        requires
            self.cap() >= 1,
        ensures
            idx == home(digest, self.cap()),
            idx < self.cap(),
    {
        (digest % (self.capacity as u64)) as usize
    }

    /// Looks up the entry identified by `digest` and `key`: probes the window
    /// of the digest's home position up to the first empty slot.
    pub fn get_hashed(&self, digest: u64, key: &K) -> (found: Option<V>)
        requires
            self.shaped(),
        ensures
            eq_decides::<K>() && self.wf() ==> self.answers(digest, *key, found),
    {
        let idx: usize = self.get_slot(digest);
        let total: usize = self.storage.len();
        let mut i: usize = 0;
        while i < self.probe_window
            invariant
                self.shaped(),
                total == self.slots().len(),
                self.capacity == self.cap(),
                idx == home(digest, self.cap()),
                idx < self.cap(),
                i <= self.probe_window,
                self.probe_window == self.window(),
                self.storage@ == self.slots(),
                eq_decides::<K>() ==> forall|j: int|
                    idx <= j < idx + i ==> !(#[trigger] self.slots()[j]).holds(digest, *key),
            decreases self.probe_window - i,
        {
            match &self.storage[idx + i] {
                Slot::Empty => {
                    proof {
                        if eq_decides::<K>() {
                            lemma_absent_before_gap(
                                self.slots(),
                                self.cap(),
                                self.window(),
                                digest,
                                *key,
                                idx + i,
                            );
                        }
                    }
                    return None;
                },
                Slot::Occupied { digest: d, key: k, value: v } => {
                    if *d == digest && *key == *k {
                        proof {
                            if eq_decides::<K>() && self.wf() {
                                lemma_index_unique(self.slots(), idx + i);
                            }
                        }
                        return Some(v.clone());
                    }
                },
            }
            i += 1;
        }
        proof {
            if eq_decides::<K>() {
                lemma_absent_past_window(self.slots(), self.cap(), self.window(), digest, *key);
            }
        }
        None
    }
}

/// A storage of empty slots holds nothing.
pub proof fn lemma_vacant_holds_nothing<K, V>(slots: Seq<Slot<K, V>>, upto: int)
    requires
        0 <= upto <= slots.len(),
        forall|i: int| 0 <= i < slots.len() ==> slots[i] is Empty,
    ensures
        occupied_upto(slots, upto) == 0,
        forall|d: u64, k: K| !present(slots, d, k),
    decreases upto,
{
    if upto > 0 {
        lemma_vacant_holds_nothing(slots, upto - 1);
    }
}

/// An entry is absent when the probe from its home position meets an empty
/// slot before it meets the entry.
pub proof fn lemma_absent_before_gap<K, V>(
    slots: Seq<Slot<K, V>>,
    capacity: nat,
    window: nat,
    digest: u64,
    key: K,
    gap: int,
)
    requires
        placed(slots, capacity, window),
        home(digest, capacity) <= gap < slots.len(),
        slots[gap] is Empty,
        forall|j: int| home(digest, capacity) <= j < gap ==> !(#[trigger] slots[j]).holds(digest, key),
    ensures
        !present(slots, digest, key),
{
    if present(slots, digest, key) {
        let i: int = index_of(slots, digest, key);
        assert(slots[i].is_occupied());
        assert(slots[i]->digest == digest);
        if i > gap {
            assert(slots[gap].is_occupied());
        }
    }
}

/// An entry is absent when no slot of its window holds it.
pub proof fn lemma_absent_past_window<K, V>(
    slots: Seq<Slot<K, V>>,
    capacity: nat,
    window: nat,
    digest: u64,
    key: K,
)
    requires
        placed(slots, capacity, window),
        forall|j: int|
            home(digest, capacity) <= j < home(digest, capacity) + window && j < slots.len() ==> !(
            #[trigger] slots[j]).holds(digest, key),
    ensures
        !present(slots, digest, key),
{
    if present(slots, digest, key) {
        let i: int = index_of(slots, digest, key);
        assert(slots[i].is_occupied());
        assert(slots[i]->digest == digest);
    }
}

/// Counting is monotone, and a run of occupied slots counts in full.
pub proof fn lemma_occupied_run<K, V>(slots: Seq<Slot<K, V>>, from: int, to: int)
    requires
        0 <= from <= to <= slots.len(),
        forall|j: int| from <= j < to ==> (#[trigger] slots[j]).is_occupied(),
    ensures
        occupied_upto(slots, to) == occupied_upto(slots, from) + (to - from),
        occupied_upto(slots, slots.len() as int) >= to - from,
    decreases slots.len() - from, to - from,
{
    if from < to {
        lemma_occupied_run(slots, from, to - 1);
        assert(slots[to - 1].is_occupied());
    }
    lemma_occupied_monotone(slots, to, slots.len() as int);
}

/// A longer prefix holds at least as many entries.
pub proof fn lemma_occupied_monotone<K, V>(slots: Seq<Slot<K, V>>, shorter: int, longer: int)
    requires
        0 <= shorter <= longer <= slots.len(),
    ensures
        occupied_upto(slots, shorter) <= occupied_upto(slots, longer),
    decreases longer - shorter,
{
    if shorter < longer {
        lemma_occupied_monotone(slots, shorter, longer - 1);
    }
}

/// Filling one slot changes the count by one if the slot was empty.
pub proof fn lemma_occupied_update<K, V>(
    slots: Seq<Slot<K, V>>,
    pos: int,
    entry: Slot<K, V>,
    upto: int,
)
    requires
        0 <= pos < slots.len(),
        0 <= upto <= slots.len(),
        entry.is_occupied(),
    ensures
        occupied_upto(slots.update(pos, entry), upto) == occupied_upto(slots, upto) + if pos < upto
            && !slots[pos].is_occupied() {
            1nat
        } else {
            0nat
        },
    decreases upto,
{
    if upto > 0 {
        lemma_occupied_update(slots, pos, entry, upto - 1);
    }
}

/// Writing an entry into a slot of its window that no empty slot precedes
/// keeps the shape, and adds one to the count if the slot was empty.
pub proof fn lemma_fill_keeps_shape<K, V>(
    slots: Seq<Slot<K, V>>,
    capacity: nat,
    window: nat,
    pos: int,
    entry: Slot<K, V>,
)
    requires
        capacity >= 1,
        placed(slots, capacity, window),
        entry.is_occupied(),
        home(entry->digest, capacity) <= pos < home(entry->digest, capacity) + window,
        0 <= pos < slots.len(),
        forall|j: int| home(entry->digest, capacity) <= j < pos ==> (#[trigger] slots[j]).is_occupied(),
    ensures
        placed(slots.update(pos, entry), capacity, window),
        occupied_upto(slots.update(pos, entry), slots.len() as int) == occupied_upto(
            slots,
            slots.len() as int,
        ) + if slots[pos].is_occupied() {
            0nat
        } else {
            1nat
        },
{
    let after = slots.update(pos, entry);
    assert(after.len() == slots.len());
    lemma_home_in_range(entry->digest, capacity);
    assert forall|i: int| 0 <= i < after.len() && (#[trigger] after[i]).is_occupied() implies {
        let h: int = home(after[i]->digest, capacity);
        &&& h <= i < h + window
        &&& forall|j: int| h <= j < i ==> (#[trigger] after[j]).is_occupied()
    } by {
        if i != pos {
            assert(slots[i].is_occupied());
            let h: int = home(slots[i]->digest, capacity);
            lemma_home_in_range(slots[i]->digest, capacity);
            assert forall|j: int| h <= j < i implies (#[trigger] after[j]).is_occupied() by {
                if j != pos {
                    assert(slots[j].is_occupied());
                }
            }
        } else {
            let h: int = home(entry->digest, capacity);
            assert forall|j: int| h <= j < i implies (#[trigger] after[j]).is_occupied() by {
                assert(slots[j].is_occupied());
            }
        }
    }
    lemma_occupied_update(slots, pos, entry, slots.len() as int);
}

/// Writing an entry into its first fit keeps the invariant and changes the
/// contents by exactly that entry.
pub proof fn lemma_place<K, V>(
    slots: Seq<Slot<K, V>>,
    capacity: nat,
    window: nat,
    digest: u64,
    key: K,
    value: V,
    pos: int,
)
    requires
        capacity >= 1,
        placed(slots, capacity, window),
        distinct(slots),
        first_fit(slots, capacity, window, digest, key, pos),
    ensures
        ({
            let after = slots.update(pos, Slot::Occupied { digest, key, value });
            &&& placed(after, capacity, window)
            &&& distinct(after)
            &&& contents(after) == contents(slots).insert((digest, key), value)
            &&& present(slots, digest, key) == slots[pos].is_occupied()
            &&& occupied_upto(after, after.len() as int) == occupied_upto(slots, slots.len() as int)
                + if present(slots, digest, key) {
                0nat
            } else {
                1nat
            }
        }),
{
    let entry = Slot::Occupied { digest, key, value };
    let after = slots.update(pos, entry);
    assert(after.len() == slots.len());
    lemma_home_in_range(digest, capacity);
    if slots[pos] is Empty {
        lemma_absent_before_gap(slots, capacity, window, digest, key, pos);
    } else {
        assert(slots[pos].holds(digest, key));
    }
    lemma_fill_keeps_shape(slots, capacity, window, pos, entry);
    assert forall|i: int, j: int|
        0 <= i < after.len() && 0 <= j < after.len() && i != j && (#[trigger] after[i]).is_occupied()
            && (#[trigger] after[j]).is_occupied() implies !(after[i]->digest == after[j]->digest
        && after[i]->key == after[j]->key) by {
        if i != pos && j != pos {
            assert(slots[i].is_occupied() && slots[j].is_occupied());
        } else {
            let other: int = if i == pos {
                j
            } else {
                i
            };
            assert(slots[other].is_occupied());
            if slots[other].holds(digest, key) {
                if slots[pos] is Empty {
                    assert(present(slots, digest, key));
                } else {
                    assert(slots[pos].is_occupied());
                }
            }
        }
    }
    let before_map = contents(slots).insert((digest, key), value);
    let after_map = contents(after);
    assert forall|p: (u64, K)| after_map.dom().contains(p) <==> before_map.dom().contains(p) by {
        if present(after, p.0, p.1) {
            let i: int = index_of(after, p.0, p.1);
            if i != pos {
                assert(slots[i].holds(p.0, p.1));
            }
        }
        if present(slots, p.0, p.1) {
            let i: int = index_of(slots, p.0, p.1);
            if i != pos {
                assert(after[i].holds(p.0, p.1));
            } else {
                assert(after[pos].holds(p.0, p.1));
            }
        }
        if p == (digest, key) {
            assert(after[pos].holds(p.0, p.1));
        }
    }
    assert forall|p: (u64, K)| after_map.dom().contains(p) implies after_map[p] == before_map[p] by {
        let i: int = index_of(after, p.0, p.1);
        assert(after[i].holds(p.0, p.1));
        if p == (digest, key) {
            lemma_index_unique(after, pos);
        } else {
            assert(i != pos);
            assert(slots[i].holds(p.0, p.1));
            lemma_index_unique(slots, i);
        }
    }
    assert(after_map =~= before_map);
}

/// The contents of the first `upto + 1` slots are those of the first `upto`
/// slots and the entry of the slot at `upto`, if it holds one.
pub proof fn lemma_contents_extend<K, V>(slots: Seq<Slot<K, V>>, upto: int)
    requires
        distinct(slots),
        0 <= upto < slots.len(),
    ensures
        contents(slots.take(upto + 1)) == match slots[upto] {
            Slot::Empty => contents(slots.take(upto)),
            Slot::Occupied { digest, key, value } => contents(slots.take(upto)).insert(
                (digest, key),
                value,
            ),
        },
        slots[upto].is_occupied() ==> !present(
            slots.take(upto),
            slots[upto]->digest,
            slots[upto]->key,
        ),
{
    let shorter = slots.take(upto);
    let longer = slots.take(upto + 1);
    assert(distinct(longer));
    assert(distinct(shorter));
    let expected = match slots[upto] {
        Slot::Empty => contents(shorter),
        Slot::Occupied { digest, key, value } => contents(shorter).insert((digest, key), value),
    };
    if slots[upto].is_occupied() && present(shorter, slots[upto]->digest, slots[upto]->key) {
        let i: int = index_of(shorter, slots[upto]->digest, slots[upto]->key);
        assert(slots[i].is_occupied());
    }
    assert forall|p: (u64, K)| contents(longer).dom().contains(p) <==> expected.dom().contains(
        p,
    ) by {
        if present(longer, p.0, p.1) {
            let i: int = index_of(longer, p.0, p.1);
            if i < upto {
                assert(shorter[i].holds(p.0, p.1));
            }
        }
        if present(shorter, p.0, p.1) {
            let i: int = index_of(shorter, p.0, p.1);
            assert(longer[i].holds(p.0, p.1));
        }
        if slots[upto].holds(p.0, p.1) {
            assert(longer[upto].holds(p.0, p.1));
        }
    }
    assert forall|p: (u64, K)| contents(longer).dom().contains(p) implies contents(longer)[p]
        == expected[p] by {
        let i: int = index_of(longer, p.0, p.1);
        assert(longer[i].holds(p.0, p.1));
        if i < upto {
            assert(shorter[i].holds(p.0, p.1));
            lemma_index_unique(shorter, i);
            assert(!slots[upto].holds(p.0, p.1)) by {
                if slots[upto].holds(p.0, p.1) {
                    assert(slots[i].is_occupied() && slots[upto].is_occupied());
                }
            }
        }
    }
    assert(contents(longer) =~= expected);
}

impl<K: Clone + Eq + Hash + Debug, V: Clone + Debug> Dict<K, V> {
    /// Looks up `key` under the digest that `digest_of` gives it. The table
    /// stays as it is.
    pub fn get(&mut self, key: &K) -> (found: Option<V>)
        requires
            old(self).shaped(),
        ensures
            *final(self) == *old(self),
            eq_decides::<K>() && old(self).wf() ==> exists|digest: u64|
                call_ensures(digest_of::<K>, (key,), digest) && #[trigger] old(self).answers(
                    digest,
                    *key,
                    found,
                ),
            steady::<K>() && eq_decides::<K>() && old(self).wf() ==> old(self).answers_key(
                *key,
                found,
            ),
    {
        let digest: u64 = digest_of(key);
        let found = self.get_hashed(digest, key);
        proof {
            assert(call_ensures(digest_of::<K>, (key,), digest));
            if steady::<K>() && eq_decides::<K>() && self.wf() {
                assert(digest == digest_spec(*key));
                assert(self.answers(digest, *key, found));
            }
        }
        found
    }

    /// Stores `value` for `key` under the digest that `digest_of` gives it.
    pub fn put(&mut self, key: K, value: V)
        requires
            old(self).shaped(),
            old(self).room_for(old(self).len()),
        ensures
            Self::regrown(*old(self), *final(self)),
            eq_decides::<K>() && old(self).wf() ==> exists|digest: u64|
                call_ensures(digest_of::<K>, (&key,), digest) && #[trigger] Self::put_outcome(
                    *old(self),
                    *final(self),
                    digest,
                    key,
                    value,
                ),
            steady::<K>() && eq_decides::<K>() && old(self).wf() ==> {
                &&& Self::put_outcome(*old(self), *final(self), digest_spec(key), key, value)
                &&& final(self).by_key() == old(self).by_key().insert(key, value)
                &&& old(self).keyed() ==> final(self).keyed() && final(self).distinct_keys()
            },
    {
        let digest: u64 = digest_of(&key);
        let ghost stored_key = key;
        let ghost stored_value = value;
        self.put_hashed(digest, key, value);
        proof {
            assert(call_ensures(digest_of::<K>, (&stored_key,), digest));
            if steady::<K>() && eq_decides::<K>() && old(self).wf() {
                assert(digest == digest_spec(stored_key));
                assert(self.by_key() =~= old(self).by_key().insert(stored_key, stored_value));
                if old(self).keyed() {
                    let hash = |k: K| digest_spec(k);
                    assert(hashed_by(*old(self), hash));
                    lemma_hashing_kept(*old(self), *self, hash, stored_key, stored_value);
                    lemma_keys_unique(*self, hash);
                }
            }
        }
    }

    /// Every slot with its index, for inspection. The table stays as it is.
    pub fn diagnosis(&mut self) -> (dump: Vec<(usize, Option<(K, V)>)>)
        ensures
            *final(self) == *old(self),
            old(self).dumped(dump@),
    {
        let total: usize = self.storage.len();
        let mut dump: Vec<(usize, Option<(K, V)>)> = Vec::with_capacity(total);
        let mut i: usize = 0;
        while i < total
            invariant
                *self == *old(self),
                total == self.storage@.len(),
                self.storage@ == self.slots(),
                i <= total,
                dump@.len() == i,
                forall|j: int|
                    0 <= j < i ==> (#[trigger] dump@[j]).0 == j && match (
                        self.slots()[j],
                        dump@[j].1,
                    ) {
                        (Slot::Empty, None) => true,
                        (Slot::Occupied { digest: _, key, value }, Some(pair)) => cloned(key, pair.0)
                            && cloned(value, pair.1),
                        _ => false,
                    },
            decreases total - i,
        {
            let content: Option<(K, V)> = match &self.storage[i] {
                Slot::Empty => None,
                Slot::Occupied { digest: _, key, value } => Some((key.clone(), value.clone())),
            };
            dump.push((i, content));
            i += 1;
        }
        dump
    }

    /// Writes an entry into the slot at `idx`.
    fn insert(&mut self, idx: usize, digest: u64, key: K, value: V)
        requires
            idx < old(self).slots().len(),
        ensures
            final(self).slots() == old(self).slots().update(
                idx as int,
                Slot::Occupied { digest, key, value },
            ),
            final(self).cap() == old(self).cap(),
            final(self).window() == old(self).window(),
    {
        self.storage.set(idx, Slot::Occupied { digest, key, value });
    }

    /// The probe window after one growth step: eight fifths of `window`.
    fn widen(window: usize) -> (wider: usize)
        requires
            widened(window as nat) <= usize::MAX,
        ensures
            wider == widened(window as nat),
    {
        window / 5 * 8 + window % 5 * 8 / 5
    }

    /// Stores `value` for the entry identified by `digest` and `key`, in
    /// place of the value it had, if any. The entry goes into the first slot
    /// of its window that is empty or holds it already; if there is none, the
    /// table grows until there is.
    pub fn put_hashed(&mut self, digest: u64, key: K, value: V)
        requires
            old(self).shaped(),
            old(self).room_for(old(self).len()),
        ensures
            Self::regrown(*old(self), *final(self)),
            eq_decides::<K>() && old(self).wf() ==> Self::put_outcome(
                *old(self),
                *final(self),
                digest,
                key,
                value,
            ),
        decreases shortfall(old(self).window(), old(self).len()), 1nat,
    {
        let idx: usize = self.get_slot(digest);
        let total: usize = self.storage.len();
        let mut i: usize = 0;
        while i < self.probe_window
            invariant
                *self == *old(self),
                self.shaped(),
                total == self.slots().len(),
                self.capacity == self.cap(),
                self.probe_window == self.window(),
                self.storage@ == self.slots(),
                idx == home(digest, self.cap()),
                idx < self.cap(),
                i <= self.probe_window,
                forall|j: int| idx <= j < idx + i ==> (#[trigger] self.slots()[j]).is_occupied(),
                eq_decides::<K>() ==> forall|j: int|
                    idx <= j < idx + i ==> !(#[trigger] self.slots()[j]).holds(digest, key),
            decreases self.probe_window - i,
        {
            let fits: bool = match &self.storage[idx + i] {
                Slot::Empty => true,
                Slot::Occupied { digest: d, key: k, value: _ } => *d == digest && *k == key,
            };
            if fits {
                proof {
                    let pos: int = idx + i;
                    lemma_fill_keeps_shape(
                        self.slots(),
                        self.cap(),
                        self.window(),
                        pos,
                        Slot::Occupied { digest, key, value },
                    );
                    assert(grown(self.cap(), self.window(), 0) == (self.cap(), self.window()));
                    if eq_decides::<K>() && self.wf() {
                        assert(first_fit(
                            self.slots(),
                            self.cap(),
                            self.window(),
                            digest,
                            key,
                            pos,
                        ));
                        lemma_place(
                            self.slots(),
                            self.cap(),
                            self.window(),
                            digest,
                            key,
                            value,
                            pos,
                        );
                        assert(self.admits(digest, key));
                        assert forall|other: int|
                            first_fit(
                                self.slots(),
                                self.cap(),
                                self.window(),
                                digest,
                                key,
                                other,
                            ) implies other == pos by {
                            if other < pos {
                                assert(self.slots()[other].is_occupied());
                            } else if other > pos {
                                assert(self.slots()[pos].is_occupied());
                            }
                        }
                    }
                }
                self.insert(idx + i, digest, key, value);
                return;
            }
            i += 1;
        }
        proof {
            lemma_occupied_run(self.slots(), idx as int, idx + self.probe_window);
            if eq_decides::<K>() {
                assert forall|pos: int|
                    !first_fit(self.slots(), self.cap(), self.window(), digest, key, pos) by {
                    if first_fit(self.slots(), self.cap(), self.window(), digest, key, pos) {
                        assert(self.slots()[pos].is_occupied());
                    }
                }
            }
        }
        let ghost before = *self;
        self.resize();
        let ghost between = *self;
        proof {
            lemma_settled_len_monotone(
                between.cap(),
                between.window(),
                between.len(),
                before.len(),
            );
        }
        self.put_hashed(digest, key, value);
        proof {
            let first: nat = choose|steps: nat|
                steps >= 1 && #[trigger] grown(before.cap(), before.window(), steps) == (
                    between.cap(),
                    between.window(),
                ) && (eq_decides::<K>() && before.wf() ==> (steps == 1 <==> before.rebuilt() is Some));
            assert(grown(before.cap(), before.window(), 1) == grown(
                before.cap() * 2,
                widened(before.window()),
                0,
            ));
            let guarded: bool = eq_decides::<K>() && before.wf();
            let second: nat = if guarded {
                choose|steps: nat|
                    #[trigger] grown(between.cap(), between.window(), steps) == (
                        self.cap(),
                        self.window(),
                    ) && (steps == 0 <==> between.admits(digest, key)) && (steps == 1
                        <==> between.grows_once(digest, key))
            } else {
                choose|steps: nat|
                    #[trigger] grown(between.cap(), between.window(), steps) == (
                        self.cap(),
                        self.window(),
                    )
            };
            lemma_grown_compose(before.cap(), before.window(), first, second);
            lemma_grown_widens(before.cap(), before.window(), first + second);
            assert(grown(before.cap(), before.window(), first + second) == (
                self.cap(),
                self.window(),
            ));
            if eq_decides::<K>() && before.wf() {
                assert(!before.admits(digest, key));
                assert(Self::put_outcome(between, *self, digest, key, value));
                if first == 1 {
                    assert(between.slots() == before.rebuilt()->0);
                    assert(between.admits(digest, key) == exists|pos: int|
                        first_fit(
                            before.rebuilt()->0,
                            doubled(before.cap()),
                            widened(before.window()),
                            digest,
                            key,
                            pos,
                        ));
                }
                assert(first + second == 1 <==> before.grows_once(digest, key));
            }
            assert forall|load: nat| load >= before.len() implies #[trigger] settled_len(
                self.cap(),
                self.window(),
                load,
            ) == settled_len(before.cap(), before.window(), load) by {
                assert(settled_len(between.cap(), between.window(), load) == settled_len(
                    before.cap(),
                    before.window(),
                    load,
                ));
            }
        }
    }

    /// Doubles the capacity, widens the probe window and places every entry
    /// again, in the order of the old storage.
    fn resize(&mut self)
        requires
            old(self).shaped(),
            old(self).len() >= old(self).window(),
            old(self).room_for(old(self).len()),
        ensures
            final(self).shaped(),
            final(self).len() <= old(self).len(),
            final(self).window() > old(self).window(),
            eq_decides::<K>() && old(self).wf() ==> final(self).wf() && final(self)@ == old(
                self,
            )@ && final(self).len() == old(self).len(),
            exists|steps: nat|
                steps >= 1 && #[trigger] grown(old(self).cap(), old(self).window(), steps) == (
                    final(self).cap(),
                    final(self).window(),
                ) && (eq_decides::<K>() && old(self).wf() ==> (steps == 1 <==> old(self).rebuilt()
                    is Some)),
            eq_decides::<K>() && old(self).wf() && old(self).rebuilt() is Some ==> final(self).slots()
                == old(self).rebuilt()->0,
            forall|load: nat|
                load >= old(self).len() ==> #[trigger] settled_len(
                    final(self).cap(),
                    final(self).window(),
                    load,
                ) == settled_len(old(self).cap(), old(self).window(), load),
        decreases shortfall(old(self).window(), old(self).len()), 0nat,
    {
        let ghost before = *self;
        proof {
            assert(widened(self.window()) > self.window());
            lemma_settled_len_lower_bound(
                self.cap() * 2,
                widened(self.window()),
                self.len(),
            );
        }
        let new_size: usize = self.capacity * 2;
        let new_window: usize = Self::widen(self.probe_window);
        let total_new_size: usize = new_size + (new_window - 1);
        let mut old_data: Vec<Slot<K, V>> = Self::vacant(total_new_size);
        std::mem::swap(&mut self.storage, &mut old_data);
        self.capacity = new_size;
        self.probe_window = new_window;
        proof {
            assert(self.slots() =~= Seq::new(
                (new_size + new_window - 1) as nat,
                |i: int| Slot::<K, V>::Empty,
            ));
            lemma_vacant_holds_nothing(self.slots(), self.slots().len() as int);
            lemma_vacant_holds_nothing(before.slots().take(0), 0);
            assert(self@ =~= contents(before.slots().take(0)));
            assert(grown(before.cap(), before.window(), 1) == grown(
                before.cap() * 2,
                widened(before.window()),
                0,
            ));
        }
        let ghost mut steps: nat = 1;
        let count: usize = old_data.len();
        let mut i: usize = 0;
        while i < count
            invariant
                *old(self) == before,
                before.shaped(),
                before.len() >= before.window(),
                before.room_for(before.len()),
                count == before.slots().len(),
                old_data@.len() == count,
                i <= count,
                forall|j: int| i <= j < count ==> old_data@[j] == before.slots()[j],
                self.shaped(),
                self.len() <= occupied_upto(before.slots(), i as int),
                eq_decides::<K>() && before.wf() ==> self.wf() && self@ == contents(
                    before.slots().take(i as int),
                ) && self.len() == occupied_upto(before.slots(), i as int),
                self.window() > before.window(),
                steps >= 1,
                grown(before.cap(), before.window(), steps) == (self.cap(), self.window()),
                new_size == before.cap() * 2,
                new_window == widened(before.window()),
                eq_decides::<K>() && before.wf() ==> (steps == 1 <==> replayed(
                    before.slots(),
                    i as int,
                    new_size as nat,
                    new_window as nat,
                ) is Some),
                eq_decides::<K>() && before.wf() && steps == 1 ==> replayed(
                    before.slots(),
                    i as int,
                    new_size as nat,
                    new_window as nat,
                ) == Some(self.slots()),
                forall|load: nat|
                    load >= before.len() ==> #[trigger] settled_len(
                        self.cap(),
                        self.window(),
                        load,
                    ) == settled_len(before.cap(), before.window(), load),
            decreases count - i,
        {
            let mut slot: Slot<K, V> = Slot::Empty;
            old_data.set_and_swap(i, &mut slot);
            proof {
                if before.wf() {
                    lemma_contents_extend(before.slots(), i as int);
                }
                lemma_occupied_monotone(before.slots(), i + 1, count as int);
            }
            match slot {
                Slot::Empty => {},
                Slot::Occupied { digest, key, value } => {
                    let ghost earlier = *self;
                    proof {
                        lemma_settled_len_monotone(
                            self.cap(),
                            self.window(),
                            self.len(),
                            before.len(),
                        );
                    }
                    self.put_hashed(digest, key, value);
                    proof {
                        let more: nat = if eq_decides::<K>() && before.wf() {
                            choose|more: nat|
                                #[trigger] grown(earlier.cap(), earlier.window(), more) == (
                                    self.cap(),
                                    self.window(),
                                ) && (more == 0 <==> earlier.admits(digest, key)) && (more == 1
                                    <==> earlier.grows_once(digest, key))
                        } else {
                            choose|more: nat|
                                #[trigger] grown(earlier.cap(), earlier.window(), more) == (
                                    self.cap(),
                                    self.window(),
                                )
                        };
                        lemma_grown_widens(earlier.cap(), earlier.window(), more);
                        if eq_decides::<K>() && before.wf() {
                            let prior = replayed(
                                before.slots(),
                                i as int,
                                new_size as nat,
                                new_window as nat,
                            );
                            let next = replayed(
                                before.slots(),
                                i + 1,
                                new_size as nat,
                                new_window as nat,
                            );
                            assert(before.slots()[i as int] == Slot::Occupied { digest, key, value });
                            if steps == 1 {
                                assert(grown(before.cap(), before.window(), 1) == grown(
                                    before.cap() * 2,
                                    widened(before.window()),
                                    0,
                                ));
                                assert(earlier.cap() == new_size && earlier.window() == new_window);
                                assert(prior == Some(earlier.slots()));
                                if more == 0 {
                                    let pos: int = choose|pos: int|
                                        first_fit(
                                            earlier.slots(),
                                            new_size as nat,
                                            new_window as nat,
                                            digest,
                                            key,
                                            pos,
                                        );
                                    assert(first_fit(
                                        earlier.slots(),
                                        earlier.cap(),
                                        earlier.window(),
                                        digest,
                                        key,
                                        pos,
                                    ));
                                    assert(next == Some(self.slots()));
                                } else {
                                    assert(next is None);
                                }
                            } else {
                                assert(prior is None);
                                assert(next is None);
                            }
                        }
                        lemma_grown_compose(before.cap(), before.window(), steps, more);
                        steps = steps + more;
                        assert forall|load: nat| load >= before.len() implies #[trigger] settled_len(
                            self.cap(),
                            self.window(),
                            load,
                        ) == settled_len(before.cap(), before.window(), load) by {
                            assert(settled_len(earlier.cap(), earlier.window(), load)
                                == settled_len(before.cap(), before.window(), load));
                        }
                    }
                },
            }
            i += 1;
        }
        proof {
            assert(before.slots().take(count as int) =~= before.slots());
        }
    }
}

} // verus!
