//! The wall clock, and identifiers minted from it.

use crate::bytes::{be_bytes, lemma_be_bytes_len, lemma_be_value_of_bytes, lemma_pow256_values};
use crate::bytes::{lemma_view_of_uuid, push_bytes, read_uuid, to_be, u64_be, uuid_of, zero_uuid};
use crate::bytes::Uuid;
use vstd::prelude::*;

verus! {

/// A point in time of the system clock.
#[verifier::external_type_specification]
#[verifier::external_body]
pub struct ExSystemTime(std::time::SystemTime);

/// `SystemTime::now`: the current time. Nothing is claimed of it.
pub assume_specification[ std::time::SystemTime::now ]() -> std::time::SystemTime;

/// The longest time that a `Duration` can hold, in nanoseconds.
pub const MAX_NANOS: u128 = 18_446_744_073_709_551_615_999_999_999;

/// `SystemTime::duration_since` with the epoch: the nanoseconds since then, none
/// for a time before it. Claimed is only that a `Duration` holds the result; how
/// it follows from the opaque `t` is left unsaid.
#[verifier::external_body]
fn nanos_since_epoch(t: std::time::SystemTime) -> (r: Option<u128>)
    ensures
        r matches Some(n) ==> n <= MAX_NANOS,
{
    match t.duration_since(std::time::UNIX_EPOCH) {
        Ok(d) => Some(d.as_nanos()),
        Err(_) => None,
    }
}

/// The reading that the time since the epoch gives: a time before the epoch
/// reads as zero.
pub fn reading_of(since_epoch: Option<u128>) -> (r: u128)
    ensures
        r == match since_epoch {
            Some(n) => n,
            None => 0,
        },
{
    match since_epoch {
        Some(n) => n,
        None => 0,
    }
}

/// A reading of the clock: nanoseconds since the epoch, zero for a time before.
/// Which reading it is depends on the time alone.
fn read_clock() -> (r: u128)
    ensures
        r <= MAX_NANOS,
{
    reading_of(nanos_since_epoch(std::time::SystemTime::now()))
}

/// The whole seconds of a reading.
pub open spec fn whole_secs(nanos: u128) -> int {
    nanos as int / 1_000_000_000
}

/// The whole milliseconds of a reading, modulo 2^64.
pub open spec fn whole_millis(nanos: u128) -> int {
    (nanos as int / 1_000_000) % 0x1_0000_0000_0000_0000
}

/// The whole seconds of a reading.
pub fn secs_of(nanos: u128) -> (r: u64)
    requires
        nanos <= MAX_NANOS,
    ensures
        r == whole_secs(nanos),
{
    (nanos / 1_000_000_000) as u64
}

/// The whole milliseconds of a reading, modulo 2^64.
pub fn millis_of(nanos: u128) -> (r: u64)
    ensures
        r == whole_millis(nanos),
{
    ((nanos / 1_000_000) % 0x1_0000_0000_0000_0000) as u64
}

/// Seconds since the epoch.
pub fn now_secs() -> (r: u64)
    ensures
        exists|nanos: u128| nanos <= MAX_NANOS && r == #[trigger] whole_secs(nanos),
{
    let nanos: u128 = read_clock();
    secs_of(nanos)
}

/// Milliseconds since the epoch.
pub fn now_ms() -> (r: u64)
    ensures
        exists|nanos: u128| nanos <= MAX_NANOS && r == #[trigger] whole_millis(nanos),
{
    let nanos: u128 = read_clock();
    millis_of(nanos)
}

// ── Minting identifiers ──────────────────────────────────────────────────────

/// A fresh identifier: the system's entropy, or, without it, the low eight
/// bytes of the clock and a counter.
pub open spec fn minted(entropy: Option<Uuid>, nanos: u128, counter: u64) -> Uuid {
    match entropy {
        Some(e) => e,
        None => uuid_of(be_bytes(nanos as nat, 8) + be_bytes(counter as nat, 8)),
    }
}

/// Mint an identifier at a reading of the clock.
pub fn mint_uuid(entropy: Option<Uuid>, nanos: u128, counter: u64) -> (r: Uuid)
    ensures
        r == minted(entropy, nanos, counter),
{
    match entropy {
        Some(e) => e,
        None => {
            let mut b: Vec<u8> = Vec::new();
            push_bytes(&mut b, &to_be::<8>(nanos));
            push_bytes(&mut b, &u64_be(counter));
            let ghost both = be_bytes(nanos as nat, 8) + be_bytes(counter as nat, 8);
            proof {
                lemma_be_bytes_len(nanos as nat, 8);
                lemma_be_bytes_len(counter as nat, 8);
                assert(b@ =~= both);
                assert(b@.subrange(0, 16) =~= both);
            }
            let mut pos: usize = 0;
            match read_uuid(b.as_slice(), &mut pos) {
                Some(u) => u,
                None => zero_uuid(),
            }
        },
    }
}

/// Mint an identifier now, from the system's entropy if there is any, else from
/// the clock and the counter, which then moves on.
pub fn gen_uuid(entropy: Option<Uuid>, counter: &mut u64) -> (r: Uuid)
    ensures
        exists|nanos: u128|
            nanos <= MAX_NANOS && r == #[trigger] minted(entropy, nanos, *old(counter)),
        *final(counter) == if entropy is Some {
            *old(counter) as int
        } else {
            (*old(counter) + 1) % 0x1_0000_0000_0000_0000
        },
{
    let nanos: u128 = read_clock();
    let r = mint_uuid(entropy, nanos, *counter);
    if entropy.is_none() {
        *counter = counter.wrapping_add(1);
    }
    r
}

/// Without entropy, identifiers minted at different counts differ, whatever the
/// clock says.
pub proof fn minted_differ(n1: u128, c1: u64, n2: u128, c2: u64)
    requires
        c1 != c2,
    ensures
        minted(None, n1, c1) != minted(None, n2, c2),
{
    let a = be_bytes(n1 as nat, 8) + be_bytes(c1 as nat, 8);
    let b = be_bytes(n2 as nat, 8) + be_bytes(c2 as nat, 8);
    lemma_be_bytes_len(n1 as nat, 8);
    lemma_be_bytes_len(n2 as nat, 8);
    lemma_be_bytes_len(c1 as nat, 8);
    lemma_be_bytes_len(c2 as nat, 8);
    lemma_view_of_uuid(a);
    lemma_view_of_uuid(b);
    if a == b {
        assert(be_bytes(c1 as nat, 8) =~= a.subrange(8, 16));
        assert(be_bytes(c2 as nat, 8) =~= b.subrange(8, 16));
        lemma_pow256_values();
        lemma_be_value_of_bytes(c1 as nat, 8);
        lemma_be_value_of_bytes(c2 as nat, 8);
    }
}

} // verus!
