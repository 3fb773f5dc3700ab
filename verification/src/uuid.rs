//! Identifiers as keys: equality, order, and a map keyed by identifier.

use crate::bytes::{be_bytes, be_value, from_be, lemma_be_bytes_len, lemma_be_bytes_of_value};
use crate::bytes::{lemma_be_value_bound, lemma_be_value_of_bytes, lemma_pow256_values};
use crate::bytes::{lemma_uuid_of_view, lemma_view_of_uuid, to_be, uuid_of, Uuid};
use std::collections::HashMap;
use vstd::prelude::*;
use vstd::std_specs::iter::IteratorSpec;

verus! {

// ── Keys ─────────────────────────────────────────────────────────────────────

/// The number that an identifier spells, most significant byte first.
pub open spec fn key(u: Uuid) -> nat {
    be_value(u@)
}

/// Different identifiers have different keys.
pub broadcast proof fn lemma_key_injective(a: Uuid, b: Uuid)
    ensures
        #[trigger] key(a) == #[trigger] key(b) ==> a == b,
{
    lemma_be_bytes_of_value(a@);
    lemma_be_bytes_of_value(b@);
    lemma_uuid_of_view(a);
    lemma_uuid_of_view(b);
}

/// Every key fits a `u128`.
pub broadcast proof fn lemma_key_bound(a: Uuid)
    ensures
        #[trigger] key(a) <= u128::MAX,
{
    lemma_be_value_bound(a@);
    lemma_pow256_values();
}

/// The key of an identifier as a machine integer.
pub fn uuid_key(u: &Uuid) -> (r: u128)
    ensures
        r == key(*u),
{
    from_be(u.as_slice())
}

/// The identifier with a given key.
pub open spec fn uuid_of_key(k: u128) -> Uuid {
    uuid_of(be_bytes(k as nat, 16))
}

/// Every `u128` is the key of an identifier.
pub broadcast proof fn lemma_uuid_of_key(k: u128)
    ensures
        key(#[trigger] uuid_of_key(k)) == k,
{
    lemma_pow256_values();
    lemma_be_value_of_bytes(k as nat, 16);
    lemma_be_bytes_len(k as nat, 16);
    lemma_view_of_uuid(be_bytes(k as nat, 16));
}

fn key_uuid(k: u128) -> (r: Uuid)
    ensures
        r == uuid_of_key(k),
{
    let r = to_be::<16>(k);
    proof {
        lemma_uuid_of_view(r);
    }
    r
}

/// Whether two identifiers are the same.
pub fn uuid_eq(a: &Uuid, b: &Uuid) -> (r: bool)
    ensures
        r == (*a == *b),
{
    broadcast use lemma_key_injective;

    uuid_key(a) == uuid_key(b)
}

/// Whether an optional identifier is a given one.
pub fn is_uuid(a: &Option<Uuid>, b: &Uuid) -> (r: bool)
    ensures
        r == (*a == Some(*b)),
{
    match a {
        Some(x) => uuid_eq(x, b),
        None => false,
    }
}

/// Comparing keys compares identifiers byte by byte from the front.
pub proof fn key_order_is_lexicographic(a: Uuid, b: Uuid, i: int)
    requires
        0 <= i < 16,
        forall|j: int| 0 <= j < i ==> a@[j] == b@[j],
        a@[i] < b@[i],
    ensures
        key(a) < key(b),
{
    lemma_prefix_order(a@, b@, i, 16);
    assert(a@.take(16) =~= a@);
    assert(b@.take(16) =~= b@);
}

proof fn lemma_prefix_order(a: Seq<u8>, b: Seq<u8>, i: int, n: int)
    requires
        0 <= i < n <= a.len(),
        a.len() == b.len(),
        forall|j: int| 0 <= j < i ==> a[j] == b[j],
        a[i] < b[i],
    ensures
        be_value(a.take(n)) < be_value(b.take(n)),
    decreases n,
{
    assert(a.take(n).drop_last() =~= a.take(n - 1));
    assert(b.take(n).drop_last() =~= b.take(n - 1));
    if i == n - 1 {
        assert(a.take(n - 1) =~= b.take(n - 1));
    } else {
        lemma_prefix_order(a, b, i, n - 1);
    }
}

// ── Maps ─────────────────────────────────────────────────────────────────────

/// A hash map keyed by identifier.
pub struct UuidMap<V> {
    entries: HashMap<u128, V>,
}

impl<V: View> View for UuidMap<V> {
    type V = Map<Uuid, V::V>;

    closed spec fn view(&self) -> Map<Uuid, V::V> {
        Map::new(
            |u: Uuid| self.entries@.contains_key(key(u) as u128),
            |u: Uuid| self.entries@[key(u) as u128]@,
        )
    }
}

impl<V: View> UuidMap<V> {
    /// The empty map.
    pub fn new() -> (r: Self)
        ensures
            r@ == Map::<Uuid, V::V>::empty(),
    {
        let r = UuidMap { entries: HashMap::new() };
        assert(r@ =~= Map::<Uuid, V::V>::empty());
        r
    }

    /// The value at `u`.
    pub fn get(&self, u: &Uuid) -> (r: Option<&V>)
        ensures
            match r {
                Some(v) => self@.contains_key(*u) && v@ == self@[*u],
                None => !self@.contains_key(*u),
            },
    {
        broadcast use {lemma_key_bound, vstd::std_specs::hash::group_hash_axioms};

        self.entries.get(&uuid_key(u))
    }

    /// Set the value at `u`.
    pub fn insert(&mut self, u: Uuid, v: V)
        ensures
            final(self)@ == old(self)@.insert(u, v@),
    {
        broadcast use {
            lemma_key_bound,
            lemma_key_injective,
            vstd::std_specs::hash::group_hash_axioms,
        };

        self.entries.insert(uuid_key(&u), v);
        assert(self@ =~= old(self)@.insert(u, v@));
    }

    /// Take out the value at `u`.
    pub fn remove(&mut self, u: &Uuid) -> (r: Option<V>)
        ensures
            final(self)@ == old(self)@.remove(*u),
            match r {
                Some(v) => old(self)@.contains_key(*u) && v@ == old(self)@[*u],
                None => !old(self)@.contains_key(*u),
            },
    {
        broadcast use {
            lemma_key_bound,
            lemma_key_injective,
            vstd::std_specs::hash::group_hash_axioms,
        };

        let r = self.entries.remove(&uuid_key(u));
        assert(self@ =~= old(self)@.remove(*u));
        r
    }

    /// The keys, each once, in no particular order.
    pub fn keys(&self) -> (r: Vec<Uuid>)
        ensures
            r@.no_duplicates(),
            forall|u: Uuid| #[trigger] r@.contains(u) <==> self@.contains_key(u),
    {
        broadcast use {
            lemma_key_bound,
            lemma_key_injective,
            lemma_uuid_of_key,
            vstd::std_specs::hash::group_hash_axioms,
        };

        let mut out: Vec<Uuid> = Vec::new();
        let ghost ks = vstd::std_specs::hash::spec_keys_iter(&self.entries).remaining();
        for k in it: self.entries.keys()
            invariant
                it.seq() == ks,
                out@.len() == it.index(),
                forall|i: int| 0 <= i < out@.len() ==> #[trigger] out@[i] == uuid_of_key(*ks[i]),
        {
            out.push(key_uuid(*k));
        }
        proof {
            assert forall|u: Uuid| self@.contains_key(u) implies #[trigger] out@.contains(u) by {
                let k = key(u) as u128;
                assert(ks.unref().to_set().contains(k));
                let i = choose|i: int| 0 <= i < ks.len() && ks.unref()[i] == k;
                assert(out@[i] == u);
            }
            assert forall|u: Uuid| #[trigger] out@.contains(u) implies self@.contains_key(u) by {
                let i = choose|i: int| 0 <= i < out@.len() && out@[i] == u;
                assert(ks.unref()[i] == *ks[i]);
                assert(ks.unref().to_set().contains(*ks[i]));
            }
        }
        out
    }
}

} // verus!
