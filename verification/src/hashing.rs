//! Feeding JSON values to the standard hasher.
//!
//! The state of a hasher is the sequence of writes made to it so far. The
//! standard library does not say which bytes a number, a boolean or a string
//! writes, only that hashing them feeds the hasher; so each of these steps is
//! named here, as a function of the state before and of the value fed. The
//! functions that make the steps are trusted, not proved: a hasher made by
//! `DefaultHasher::new` starts from fixed keys, so what it holds after a step
//! depends on nothing but what it held before and on the value.

use crate::json::{JsonModel, Number};
use std::collections::hash_map::DefaultHasher;
use vstd::prelude::*;
use vstd::std_specs::hash::DefaultHasherAdditionalSpecFns;

verus! {

/// The state of a hasher after `Hasher::write_u32` has fed it `value`.
pub uninterp spec fn fed_u32(state: Seq<Seq<u8>>, value: u32) -> Seq<Seq<u8>>;

/// The state of a hasher after `Hasher::write_u64` has fed it `value`.
pub uninterp spec fn fed_u64(state: Seq<Seq<u8>>, value: u64) -> Seq<Seq<u8>>;

/// The state of a hasher after a `bool` has been hashed into it.
pub uninterp spec fn fed_bool(state: Seq<Seq<u8>>, value: bool) -> Seq<Seq<u8>>;

/// The state of a hasher after a `u64` has been hashed into it.
pub uninterp spec fn fed_unsigned(state: Seq<Seq<u8>>, value: u64) -> Seq<Seq<u8>>;

/// The state of a hasher after an `i64` has been hashed into it.
pub uninterp spec fn fed_signed(state: Seq<Seq<u8>>, value: i64) -> Seq<Seq<u8>>;

/// The state of a hasher after a string has been hashed into it.
pub uninterp spec fn fed_text(state: Seq<Seq<u8>>, value: Seq<char>) -> Seq<Seq<u8>>;

/// Calls `Hasher::write_u32` on the standard hasher. What it writes depends
/// on the number alone, so the new state is a function of the old state and
/// the number.
#[verifier::external_body]
pub(crate) fn write_u32(state: &mut DefaultHasher, value: u32)
    ensures
        final(state)@ == fed_u32(old(state)@, value),
{
    std::hash::Hasher::write_u32(state, value)
}

/// Calls `Hasher::write_u64` on the standard hasher. What it writes depends
/// on the number alone, so the new state is a function of the old state and
/// the number.
#[verifier::external_body]
pub(crate) fn write_u64(state: &mut DefaultHasher, value: u64)
    ensures
        final(state)@ == fed_u64(old(state)@, value),
{
    std::hash::Hasher::write_u64(state, value)
}

/// Calls `Hash::hash` of `bool` with the standard hasher. What it writes
/// depends on the boolean alone.
#[verifier::external_body]
pub(crate) fn hash_bool(value: bool, state: &mut DefaultHasher)
    ensures
        final(state)@ == fed_bool(old(state)@, value),
{
    std::hash::Hash::hash(&value, state)
}

/// Calls `Hash::hash` of `u64` with the standard hasher. What it writes
/// depends on the number alone.
#[verifier::external_body]
pub(crate) fn hash_unsigned(value: u64, state: &mut DefaultHasher)
    ensures
        final(state)@ == fed_unsigned(old(state)@, value),
{
    std::hash::Hash::hash(&value, state)
}

/// Calls `Hash::hash` of `i64` with the standard hasher. What it writes
/// depends on the number alone.
#[verifier::external_body]
pub(crate) fn hash_signed(value: i64, state: &mut DefaultHasher)
    ensures
        final(state)@ == fed_signed(old(state)@, value),
{
    std::hash::Hash::hash(&value, state)
}

/// Calls `Hash::hash` of `String` with the standard hasher. What it writes
/// depends on the characters alone.
#[verifier::external_body]
pub(crate) fn hash_text(value: &String, state: &mut DefaultHasher)
    ensures
        final(state)@ == fed_text(old(state)@, value@),
{
    std::hash::Hash::hash(value, state)
}

/// The state of a hasher after a number has been hashed into it: a whole
/// number by its value, any other by the bits of the double.
pub open spec fn fed_number(state: Seq<Seq<u8>>, number: Number) -> Seq<Seq<u8>> {
    match number {
        Number::PosInt(n) => fed_unsigned(state, n),
        Number::NegInt(n) => fed_signed(state, n),
        Number::Float(bits) => fed_unsigned(state, bits),
    }
}

/// The state of a hasher after the first `n` of `items` have been hashed
/// into it, one after the other.
pub open spec fn fed_items(state: Seq<Seq<u8>>, items: Seq<JsonModel>, n: nat) -> Seq<Seq<u8>>
    decreases items, n,
{
    if n == 0 || n > items.len() {
        state
    } else {
        fed_value(fed_items(state, items, (n - 1) as nat), items[n - 1])
    }
}

/// The hash of one member of an object: of its key, then its value, hashed
/// into a fresh hasher.
pub open spec fn member_digest(key: Seq<char>, value: JsonModel) -> u64
    decreases value, 1nat,
{
    DefaultHasher::spec_finish(fed_value(fed_text(Seq::empty(), key), value))
}

/// The hashes of the first `n` members of an object, combined by exclusive or.
pub open spec fn members_digest(members: Seq<(Seq<char>, JsonModel)>, n: nat) -> u64
    decreases members, n,
{
    if n == 0 || n > members.len() {
        0
    } else {
        members_digest(members, (n - 1) as nat) ^ member_digest(
            members[n - 1].0,
            members[n - 1].1,
        )
    }
}

/// The state of a hasher after a JSON value has been hashed into it.
pub open spec fn fed_value(state: Seq<Seq<u8>>, value: JsonModel) -> Seq<Seq<u8>>
    decreases value, 0nat,
{
    match value {
        JsonModel::Null => fed_u32(state, 3_221_225_473),
        JsonModel::Bool(b) => fed_bool(state, b),
        JsonModel::Number(n) => fed_number(state, n),
        JsonModel::String(s) => fed_text(state, s),
        JsonModel::Array(items) => fed_items(state, items, items.len()),
        JsonModel::Object(members) => fed_u64(state, members_digest(members, members.len())),
    }
}

/// The hash of a JSON value on its own.
pub open spec fn digest(value: JsonModel) -> u64 {
    DefaultHasher::spec_finish(fed_value(Seq::empty(), value))
}

/// The combined hash of the first members of an object depends on those
/// members alone.
pub proof fn lemma_members_digest_of_prefix(
    a: Seq<(Seq<char>, JsonModel)>,
    b: Seq<(Seq<char>, JsonModel)>,
    n: nat,
)
    requires
        n <= a.len(),
        n <= b.len(),
        forall|i: int| 0 <= i < n ==> a[i] == b[i],
    ensures
        members_digest(a, n) == members_digest(b, n),
    decreases n,
{
    if n > 0 {
        lemma_members_digest_of_prefix(a, b, (n - 1) as nat);
    }
}

/// Taking one member out of an object takes its hash out of the combined hash.
pub proof fn lemma_members_digest_without(members: Seq<(Seq<char>, JsonModel)>, k: int)
    requires
        0 <= k < members.len(),
    ensures
        members_digest(members, members.len()) == members_digest(
            members.remove(k),
            (members.len() - 1) as nat,
        ) ^ member_digest(members[k].0, members[k].1),
    decreases members.len(),
{
    let n = members.len();
    let front = members.drop_last();
    let rest = members.remove(k);
    let last = member_digest(members[n - 1].0, members[n - 1].1);
    lemma_members_digest_of_prefix(members, front, (n - 1) as nat);
    if k == n - 1 {
        assert(rest =~= front);
    } else {
        let taken = member_digest(members[k].0, members[k].1);
        let inner = members_digest(front.remove(k), (n - 2) as nat);
        lemma_members_digest_without(front, k);
        assert(front[k] == members[k]);
        assert(rest =~= front.remove(k).push(members[n - 1]));
        lemma_members_digest_of_prefix(rest, front.remove(k), (n - 2) as nat);
        assert(rest[n - 2] == members[n - 1]);
        assert(members_digest(rest, (n - 1) as nat) == inner ^ last);
        assert(members_digest(members, n) == (inner ^ taken) ^ last);
        assert((inner ^ taken) ^ last == (inner ^ last) ^ taken) by (bit_vector);
    }
}

/// The order of the members of an object does not change its hash.
pub proof fn lemma_order_of_members_does_not_change_the_hash(
    a: Seq<(Seq<char>, JsonModel)>,
    b: Seq<(Seq<char>, JsonModel)>,
    state: Seq<Seq<u8>>,
)
    requires
        a.to_multiset() == b.to_multiset(),
    ensures
        members_digest(a, a.len()) == members_digest(b, b.len()),
        fed_value(state, JsonModel::Object(a)) == fed_value(state, JsonModel::Object(b)),
    decreases a.len(),
{
    a.to_multiset_ensures();
    b.to_multiset_ensures();
    if a.len() > 0 {
        let n = a.len();
        let top = a[n - 1];
        assert(a.contains(top));
        assert(b.to_multiset().count(top) > 0);
        assert(b.contains(top));
        let k = choose|k: int| 0 <= k < b.len() && b[k] == top;
        let front = a.drop_last();
        let rest = b.remove(k);
        assert(front =~= a.remove(n - 1));
        assert(front.to_multiset() =~= rest.to_multiset());
        lemma_order_of_members_does_not_change_the_hash(front, rest, state);
        lemma_members_digest_of_prefix(a, front, (n - 1) as nat);
        lemma_members_digest_without(b, k);
    }
}

} // verus!
