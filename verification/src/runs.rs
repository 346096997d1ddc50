//! What holds of a table over a sequence of puts.
//!
//! A run pairs the puts with the tables they make, one after another; each
//! step is related by [`Dict::put_outcome`], which [`Dict::put_hashed`]
//! ensures for keys on which `==` decides equality. The statements below are
//! proved from that alone, so they hold whether or not the table grew on the
//! way. Each is stated over entries, that is digest and key; the last ones
//! restate them by key for puts under the digest of the key, which is what
//! [`Dict::put`] does where hashing is steady.

use crate::dict::{
    digest_spec, first_fit, grown, home, index_of, lemma_home_in_range, lemma_index_unique, occupied_upto, Dict,
    Slot,
};
use vstd::prelude::*;

verus! {

/// `states` are the tables that the puts `ops` make of `states[0]`, one after
/// another: `ops[i]` turns `states[i]` into `states[i + 1]`.
pub open spec fn is_run<K, V>(states: Seq<Dict<K, V>>, ops: Seq<(u64, K, V)>) -> bool {
    &&& states.len() == ops.len() + 1
    &&& forall|i: int|
        #![trigger ops[i]]
        0 <= i < ops.len() ==> Dict::put_outcome(
            states[i],
            states[i + 1],
            ops[i].0,
            ops[i].1,
            ops[i].2,
        )
}

/// Every digest in the table is the one that `hash` gives to the key beside it.
pub open spec fn hashed_by<K, V>(table: Dict<K, V>, hash: spec_fn(K) -> u64) -> bool {
    forall|i: int|
        0 <= i < table.slots().len() && (#[trigger] table.slots()[i]).is_occupied()
            ==> table.slots()[i]->digest == hash(table.slots()[i]->key)
}

/// A lookup finds the value of the last put for its key: after a put of `v`
/// for a key, and any number of further puts none of which writes another
/// value for that key, the value stored for it is `v`.
pub proof fn lemma_round_trip<K, V>(states: Seq<Dict<K, V>>, ops: Seq<(u64, K, V)>, i: int)
    requires
        is_run(states, ops),
        0 <= i < ops.len(),
        forall|j: int|
            #![trigger ops[j]]
            i < j < ops.len() && ops[j].0 == ops[i].0 && ops[j].1 == ops[i].1 ==> ops[j].2
                == ops[i].2,
    ensures
        states.last().stored(ops[i].0, ops[i].1) == Some(ops[i].2),
{
    lemma_round_trip_upto(states, ops, i, ops.len() as int);
}

/// The induction behind `lemma_round_trip`: the value is there after every
/// later put as well.
pub proof fn lemma_round_trip_upto<K, V>(
    states: Seq<Dict<K, V>>,
    ops: Seq<(u64, K, V)>,
    i: int,
    n: int,
)
    requires
        is_run(states, ops),
        0 <= i < n <= ops.len(),
        forall|j: int|
            #![trigger ops[j]]
            i < j < n && ops[j].0 == ops[i].0 && ops[j].1 == ops[i].1 ==> ops[j].2 == ops[i].2,
    ensures
        states[n].stored(ops[i].0, ops[i].1) == Some(ops[i].2),
    decreases n - i,
{
    let last = ops[n - 1];
    assert(Dict::put_outcome(states[n - 1], states[n], last.0, last.1, last.2));
    if n - 1 > i {
        lemma_round_trip_upto(states, ops, i, n - 1);
    }
}

/// What a lookup answers right after a put for the same key is a clone of
/// the value that was put.
pub proof fn lemma_get_after_put<K: Clone, V: Clone>(
    before: Dict<K, V>,
    after: Dict<K, V>,
    digest: u64,
    key: K,
    value: V,
    found: Option<V>,
)
    requires
        Dict::put_outcome(before, after, digest, key, value),
        after.answers(digest, key, found),
    ensures
        found is Some,
        cloned(value, found->0),
{
}

/// What a lookup answers for a key that nothing is stored for is nothing.
pub proof fn lemma_get_of_absent<K: Clone, V: Clone>(
    table: Dict<K, V>,
    digest: u64,
    key: K,
    found: Option<V>,
)
    requires
        table.stored(digest, key) is None,
        table.answers(digest, key, found),
    ensures
        found is None,
{
}

/// A put of the value that a key has already leaves the table as it is:
/// the same slots, the same capacity and the same probe window.
pub proof fn lemma_put_again_changes_nothing<K, V>(
    first: Dict<K, V>,
    second: Dict<K, V>,
    third: Dict<K, V>,
    digest: u64,
    key: K,
    value: V,
)
    requires
        Dict::put_outcome(first, second, digest, key, value),
        Dict::put_outcome(second, third, digest, key, value),
    ensures
        third@ == second@,
        third.slots() == second.slots(),
        third.cap() == second.cap(),
        third.window() == second.window(),
        third.len() == second.len(),
{
    assert(second@.dom().contains((digest, key)));
    lemma_present_fits(second, digest, key);
    let pos: int = index_of(second.slots(), digest, key);
    assert(second.admits(digest, key));
    lemma_index_unique(second.slots(), pos);
    assert(second@[(digest, key)] == value);
    assert(second@[(digest, key)] == second.slots()[pos]->value);
    assert(second.slots().update(pos, Slot::Occupied { digest, key, value }) =~= second.slots());
    assert(grown(second.cap(), second.window(), 0) == (second.cap(), second.window()));
}

/// An entry of a table in order sits at the first fit of its own probe.
pub proof fn lemma_present_fits<K, V>(table: Dict<K, V>, digest: u64, key: K)
    requires
        table.wf(),
        table@.dom().contains((digest, key)),
    ensures
        first_fit(
            table.slots(),
            table.cap(),
            table.window(),
            digest,
            key,
            index_of(table.slots(), digest, key),
        ),
{
    let slots = table.slots();
    let pos: int = index_of(slots, digest, key);
    assert(slots[pos].holds(digest, key));
    assert(slots[pos].is_occupied());
    lemma_home_in_range(digest, table.cap());
    assert forall|j: int| home(digest, table.cap()) <= j < pos implies (#[trigger] slots[j]).is_occupied()
        && !slots[j].holds(digest, key) by {
        assert(slots[j].is_occupied());
    }
}

/// The later of two puts for one key decides its value.
pub proof fn lemma_last_put_wins<K, V>(
    first: Dict<K, V>,
    second: Dict<K, V>,
    third: Dict<K, V>,
    digest: u64,
    key: K,
    earlier: V,
    later: V,
)
    requires
        Dict::put_outcome(first, second, digest, key, earlier),
        Dict::put_outcome(second, third, digest, key, later),
    ensures
        third.stored(digest, key) == Some(later),
        third@ == first@.insert((digest, key), later),
{
    assert(third@ =~= first@.insert((digest, key), later));
}

/// Puts leave every other entry alone, however often the table grows: what
/// is stored for a key that none of the puts names is what was stored for it
/// at the start.
pub proof fn lemma_other_entries_kept<K, V>(
    states: Seq<Dict<K, V>>,
    ops: Seq<(u64, K, V)>,
    digest: u64,
    key: K,
)
    requires
        is_run(states, ops),
        forall|j: int|
            #![trigger ops[j]]
            0 <= j < ops.len() ==> !(ops[j].0 == digest && ops[j].1 == key),
    ensures
        states.last().stored(digest, key) == states[0].stored(digest, key),
{
    lemma_other_entries_kept_upto(states, ops, digest, key, ops.len() as int);
}

/// The induction behind `lemma_other_entries_kept`.
pub proof fn lemma_other_entries_kept_upto<K, V>(
    states: Seq<Dict<K, V>>,
    ops: Seq<(u64, K, V)>,
    digest: u64,
    key: K,
    n: int,
)
    requires
        is_run(states, ops),
        0 <= n <= ops.len(),
        forall|j: int|
            #![trigger ops[j]]
            0 <= j < n ==> !(ops[j].0 == digest && ops[j].1 == key),
    ensures
        states[n].stored(digest, key) == states[0].stored(digest, key),
    decreases n,
{
    if n > 0 {
        let last = ops[n - 1];
        assert(Dict::put_outcome(states[n - 1], states[n], last.0, last.1, last.2));
        lemma_other_entries_kept_upto(states, ops, digest, key, n - 1);
    }
}

/// After any number of puts every key that was put has the value of its last
/// put, and no entry was lost to growth:
/// the table holds no more entries than it has slots, so it has grown
/// wherever the puts named more keys than it had slots.
pub proof fn lemma_growth_loses_nothing<K, V>(states: Seq<Dict<K, V>>, ops: Seq<(u64, K, V)>)
    requires
        is_run(states, ops),
        states[0].wf(),
    ensures
        forall|i: int|
            #![trigger ops[i]]
            0 <= i < ops.len() && (forall|j: int|
                #![trigger ops[j]]
                i < j < ops.len() ==> !(ops[j].0 == ops[i].0 && ops[j].1 == ops[i].1))
                ==> states.last().stored(ops[i].0, ops[i].1) == Some(ops[i].2),
        states.last().wf(),
        states.last().len() <= states.last().cap() + states.last().window() - 1,
        states.last().cap() >= states[0].cap(),
        states.last().window() >= states[0].window(),
{
    assert forall|i: int|
        #![trigger ops[i]]
        0 <= i < ops.len() && (forall|j: int|
            #![trigger ops[j]]
            i < j < ops.len() ==> !(ops[j].0 == ops[i].0 && ops[j].1 == ops[i].1)) implies states.last().stored(
        ops[i].0,
        ops[i].1,
    ) == Some(ops[i].2) by {
        lemma_round_trip(states, ops, i);
    }
    lemma_run_grows(states, ops, ops.len() as int);
    lemma_len_bounded(states.last().slots(), states.last().slots().len() as int);
}

/// Along a run the table stays in order and neither its capacity nor its
/// probe window ever gets smaller.
pub proof fn lemma_run_grows<K, V>(states: Seq<Dict<K, V>>, ops: Seq<(u64, K, V)>, n: int)
    requires
        is_run(states, ops),
        states[0].wf(),
        0 <= n <= ops.len(),
    ensures
        states[n].wf(),
        states[n].cap() >= states[0].cap(),
        states[n].window() >= states[0].window(),
    decreases n,
{
    if n > 0 {
        let last = ops[n - 1];
        assert(Dict::put_outcome(states[n - 1], states[n], last.0, last.1, last.2));
        lemma_run_grows(states, ops, n - 1);
    }
}

/// No more slots are occupied than there are.
pub proof fn lemma_len_bounded<K, V>(slots: Seq<Slot<K, V>>, upto: int)
    requires
        0 <= upto <= slots.len(),
    ensures
        occupied_upto(slots, upto) <= upto,
    decreases upto,
{
    if upto > 0 {
        lemma_len_bounded(slots, upto - 1);
    }
}

/// A key that was never put is absent: a table that held nothing holds
/// nothing for it after any number of puts for other keys.
pub proof fn lemma_miss<K, V>(
    states: Seq<Dict<K, V>>,
    ops: Seq<(u64, K, V)>,
    digest: u64,
    key: K,
)
    requires
        is_run(states, ops),
        states[0]@ == Map::<(u64, K), V>::empty(),
        forall|j: int|
            #![trigger ops[j]]
            0 <= j < ops.len() ==> !(ops[j].0 == digest && ops[j].1 == key),
    ensures
        states.last().stored(digest, key) is None,
{
    lemma_other_entries_kept(states, ops, digest, key);
}

/// Where every digest is a function of its key, no two occupied slots hold
/// the same key.
pub proof fn lemma_keys_unique<K, V>(table: Dict<K, V>, hash: spec_fn(K) -> u64)
    requires
        table.wf(),
        hashed_by(table, hash),
    ensures
        forall|i: int, j: int|
            0 <= i < table.slots().len() && 0 <= j < table.slots().len() && i != j && (
            #[trigger] table.slots()[i]).is_occupied() && (#[trigger] table.slots()[j]).is_occupied()
                ==> table.slots()[i]->key != table.slots()[j]->key,
{
}

/// A put under the digest that `hash` gives to its key keeps every digest in
/// the table the one that `hash` gives to the key beside it.
pub proof fn lemma_hashing_kept<K, V>(
    before: Dict<K, V>,
    after: Dict<K, V>,
    hash: spec_fn(K) -> u64,
    key: K,
    value: V,
)
    requires
        hashed_by(before, hash),
        Dict::put_outcome(before, after, hash(key), key, value),
    ensures
        hashed_by(after, hash),
{
    assert forall|i: int|
        0 <= i < after.slots().len() && (#[trigger] after.slots()[i]).is_occupied() implies after.slots()[i]->digest
        == hash(after.slots()[i]->key) by {
        let d: u64 = after.slots()[i]->digest;
        let k = after.slots()[i]->key;
        assert(after.slots()[i].holds(d, k));
        assert(after@.dom().contains((d, k)));
        if (d, k) != (hash(key), key) {
            assert(before@.dom().contains((d, k)));
            let j: int = index_of(before.slots(), d, k);
            assert(before.slots()[j].holds(d, k));
            assert(before.slots()[j].is_occupied());
        }
    }
}

/// For one key a table in order has at most one value: two slots that hold
/// the same digest and key are one slot, which lies in the window of the
/// digest's home position.
pub proof fn lemma_one_value_per_key<K, V>(table: Dict<K, V>, i: int, j: int)
    requires
        table.wf(),
        0 <= i < table.slots().len(),
        0 <= j < table.slots().len(),
        table.slots()[i].is_occupied(),
        table.slots()[j].is_occupied(),
        table.slots()[i]->digest == table.slots()[j]->digest,
        table.slots()[i]->key == table.slots()[j]->key,
    ensures
        i == j,
        home(table.slots()[i]->digest, table.cap()) <= i < home(
            table.slots()[i]->digest,
            table.cap(),
        ) + table.window(),
        table.stored(table.slots()[i]->digest, table.slots()[i]->key) == Some(
            table.slots()[i]->value,
        ),
{
    lemma_index_unique(table.slots(), i);
}

/// Where every entry stands under the digest of its key, a slot that holds
/// `key` is the only one that does, lies in the window of the key's home
/// position and holds the value that the table has for the key.
pub proof fn lemma_key_in_one_slot<K: std::hash::Hash, V>(table: Dict<K, V>, key: K, i: int)
    requires
        table.wf(),
        table.keyed(),
        0 <= i < table.slots().len(),
        table.slots()[i].is_occupied(),
        table.slots()[i]->key == key,
    ensures
        table.by_key().dom().contains(key),
        table.by_key()[key] == table.slots()[i]->value,
        home(digest_spec(key), table.cap()) <= i < home(digest_spec(key), table.cap())
            + table.window(),
        forall|j: int|
            0 <= j < table.slots().len() && (#[trigger] table.slots()[j]).is_occupied()
                && table.slots()[j]->key == key ==> j == i,
{
    lemma_index_unique(table.slots(), i);
    assert forall|j: int|
        0 <= j < table.slots().len() && (#[trigger] table.slots()[j]).is_occupied()
            && table.slots()[j]->key == key implies j == i by {
        if j != i {
            assert(table.slots()[i].is_occupied());
        }
    }
}

/// Where every entry stands under the digest of its key, a key that the
/// table has no value for is in no slot.
pub proof fn lemma_absent_key_in_no_slot<K: std::hash::Hash, V>(table: Dict<K, V>, key: K)
    requires
        table.keyed(),
        !table.by_key().dom().contains(key),
    ensures
        forall|i: int|
            0 <= i < table.slots().len() && (#[trigger] table.slots()[i]).is_occupied()
                ==> table.slots()[i]->key != key,
{
    assert forall|i: int|
        0 <= i < table.slots().len() && (#[trigger] table.slots()[i]).is_occupied() implies table.slots()[i]->key
        != key by {
        if table.slots()[i]->key == key {
            assert(table.slots()[i].holds(digest_spec(key), key));
        }
    }
}

/// The puts `ops`, each under the digest of its key.
pub open spec fn under_digests<K: std::hash::Hash, V>(ops: Seq<(K, V)>) -> Seq<(u64, K, V)> {
    Seq::new(ops.len(), |i: int| (digest_spec(ops[i].0), ops[i].0, ops[i].1))
}

/// By key: after a put of `v` for a key, and any number of further puts none
/// of which writes another value for that key, the table has `v` for the key.
pub proof fn lemma_round_trip_by_key<K: std::hash::Hash, V>(
    states: Seq<Dict<K, V>>,
    ops: Seq<(K, V)>,
    i: int,
)
    requires
        is_run(states, under_digests(ops)),
        0 <= i < ops.len(),
        forall|j: int| #![trigger ops[j]] i < j < ops.len() && ops[j].0 == ops[i].0 ==> ops[j].1 == ops[i].1,
    ensures
        states.last().by_key().dom().contains(ops[i].0),
        states.last().by_key()[ops[i].0] == ops[i].1,
{
    let with = under_digests(ops);
    assert forall|j: int|
        #![trigger with[j]]
        i < j < with.len() && with[j].0 == with[i].0 && with[j].1 == with[i].1 implies with[j].2
        == with[i].2 by {
        assert(ops[j].0 == ops[i].0);
    }
    lemma_round_trip(states, with, i);
}

/// By key: puts leave the other keys alone, however often the table grows.
pub proof fn lemma_other_keys_kept<K: std::hash::Hash, V>(
    states: Seq<Dict<K, V>>,
    ops: Seq<(K, V)>,
    key: K,
)
    requires
        is_run(states, under_digests(ops)),
        forall|j: int| #![trigger ops[j]] 0 <= j < ops.len() ==> ops[j].0 != key,
    ensures
        states.last().by_key().dom().contains(key) == states[0].by_key().dom().contains(key),
        states[0].by_key().dom().contains(key) ==> states.last().by_key()[key]
            == states[0].by_key()[key],
{
    let with = under_digests(ops);
    assert forall|j: int| #![trigger with[j]] 0 <= j < with.len() implies !(with[j].0
        == digest_spec(key) && with[j].1 == key) by {
        assert(ops[j].0 != key);
    }
    lemma_other_entries_kept(states, with, digest_spec(key), key);
}

/// By key: a key that was never put into a table that held nothing is absent.
pub proof fn lemma_miss_by_key<K: std::hash::Hash, V>(
    states: Seq<Dict<K, V>>,
    ops: Seq<(K, V)>,
    key: K,
)
    requires
        is_run(states, under_digests(ops)),
        states[0]@ == Map::<(u64, K), V>::empty(),
        forall|j: int| #![trigger ops[j]] 0 <= j < ops.len() ==> ops[j].0 != key,
    ensures
        !states.last().by_key().dom().contains(key),
{
    lemma_other_keys_kept(states, ops, key);
}

} // verus!
