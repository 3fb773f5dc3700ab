//! Byte-level building blocks: big-endian integers, length-prefixed text, and
//! the cursor that every decoder reads with.

use vstd::prelude::*;
use vstd::utf8::{decode_utf8, encode_utf8, valid_utf8};

verus! {

/// A 16-byte identifier of a user, a device, an app instance or a room.
pub type Uuid = [u8; 16];

/// The all-zero identifier: no room in particular.
pub open spec fn zero_id() -> Uuid {
    [0u8, 0u8, 0u8, 0u8, 0u8, 0u8, 0u8, 0u8, 0u8, 0u8, 0u8, 0u8, 0u8, 0u8, 0u8, 0u8]
}

/// The all-zero identifier.
pub fn zero_uuid() -> (r: Uuid)
    ensures
        r == zero_id(),
{
    [0u8, 0u8, 0u8, 0u8, 0u8, 0u8, 0u8, 0u8, 0u8, 0u8, 0u8, 0u8, 0u8, 0u8, 0u8, 0u8]
}

// ── Big-endian integers ──────────────────────────────────────────────────────

/// 256 to the `n`-th power.
pub open spec fn pow256(n: nat) -> nat
    decreases n,
{
    if n == 0 {
        1
    } else {
        256 * pow256((n - 1) as nat)
    }
}

/// The `len` low-order bytes of `n`, most significant first.
pub open spec fn be_bytes(n: nat, len: nat) -> Seq<u8>
    decreases len,
{
    if len == 0 {
        Seq::empty()
    } else {
        be_bytes(n / 256, (len - 1) as nat).push((n % 256) as u8)
    }
}

/// The number that `s` spells, most significant byte first.
pub open spec fn be_value(s: Seq<u8>) -> nat
    decreases s.len(),
{
    if s.len() == 0 {
        0
    } else {
        be_value(s.drop_last()) * 256 + s.last() as nat
    }
}

/// `be_bytes` gives as many bytes as it was asked for.
pub broadcast proof fn lemma_be_bytes_len(n: nat, len: nat)
    ensures
        #[trigger] be_bytes(n, len).len() == len,
    decreases len,
{
    if len > 0 {
        lemma_be_bytes_len(n / 256, (len - 1) as nat);
    }
}

/// Reading back what `be_bytes` wrote gives the number written.
pub proof fn lemma_be_value_of_bytes(n: nat, len: nat)
    requires
        n < pow256(len),
    ensures
        be_value(be_bytes(n, len)) == n,
    decreases len,
{
    lemma_be_bytes_len(n, len);
    if len > 0 {
        lemma_be_value_of_bytes(n / 256, (len - 1) as nat);
        let s = be_bytes(n, len);
        assert(s.drop_last() =~= be_bytes(n / 256, (len - 1) as nat));
    }
}

/// Writing back what `be_value` read gives the bytes read.
pub proof fn lemma_be_bytes_of_value(s: Seq<u8>)
    ensures
        be_bytes(be_value(s), s.len()) == s,
    decreases s.len(),
{
    if s.len() > 0 {
        lemma_be_bytes_of_value(s.drop_last());
        assert(s.drop_last().push(s.last()) =~= s);
    }
}

/// A number spelled in so many bytes is below that power of 256.
pub proof fn lemma_be_value_bound(s: Seq<u8>)
    ensures
        be_value(s) < pow256(s.len()),
    decreases s.len(),
{
    if s.len() > 0 {
        lemma_be_value_bound(s.drop_last());
    }
}

proof fn lemma_pow256_monotone(m: nat, n: nat)
    requires
        m <= n,
    ensures
        pow256(m) <= pow256(n),
    decreases n,
{
    if m < n {
        lemma_pow256_monotone(m, (n - 1) as nat);
    }
}

/// The powers of 256 that the widths in use need.
pub proof fn lemma_pow256_values()
    ensures
        pow256(1) == 0x100,
        pow256(2) == 0x1_0000,
        pow256(8) == 0x1_0000_0000_0000_0000,
        pow256(16) == 0x1_0000_0000_0000_0000_0000_0000_0000_0000,
{
    reveal_with_fuel(pow256, 17);
}

/// The `N` low-order bytes of `x`, most significant first.
pub fn to_be<const N: usize>(x: u128) -> (r: [u8; N])
    ensures
        r@ == be_bytes(x as nat, N as nat),
{
    let mut out: [u8; N] = [0u8; N];
    let mut v: u128 = x;
    let mut k: usize = N;
    assert(out@.subrange(k as int, N as int) =~= Seq::<u8>::empty());
    assert(be_bytes(v as nat, k as nat) + Seq::<u8>::empty() =~= be_bytes(v as nat, k as nat));
    while k > 0
        invariant
            k <= N,
            out@.len() == N,
            be_bytes(x as nat, N as nat) == be_bytes(v as nat, k as nat) + out@.subrange(
                k as int,
                N as int,
            ),
        decreases k,
    {
        let low: u8 = (v % 256) as u8;
        let ghost before = out@;
        k -= 1;
        out[k] = low;
        proof {
            assert(be_bytes(v as nat, (k + 1) as nat) == be_bytes(v as nat / 256, k as nat).push(
                low,
            ));
            assert(out@.subrange(k as int, N as int) =~= seq![low] + before.subrange(
                k + 1,
                N as int,
            ));
            assert(be_bytes(v as nat / 256, k as nat).push(low) + before.subrange(k + 1, N as int)
                =~= be_bytes(v as nat / 256, k as nat) + out@.subrange(k as int, N as int));
        }
        v = v / 256;
    }
    assert(be_bytes(v as nat, 0) + out@.subrange(0, N as int) =~= out@);
    out
}

/// The number that at most sixteen bytes spell, most significant first.
pub fn from_be(s: &[u8]) -> (r: u128)
    requires
        s@.len() <= 16,
    ensures
        r == be_value(s@),
        r < pow256(s@.len()),
{
    let mut acc: u128 = 0;
    let mut i: usize = 0;
    while i < s.len()
        invariant
            s@.len() <= 16,
            i <= s@.len(),
            acc == be_value(s@.take(i as int)),
        decreases s@.len() - i,
    {
        proof {
            let t = s@.take(i + 1);
            assert(t.drop_last() =~= s@.take(i as int));
            assert(t.last() == s@[i as int]);
            lemma_be_value_bound(t);
            lemma_pow256_monotone((i + 1) as nat, 16);
            lemma_pow256_values();
        }
        acc = acc * 256 + s[i] as u128;
        i += 1;
    }
    proof {
        assert(s@.take(i as int) =~= s@);
        lemma_be_value_bound(s@);
    }
    acc
}

/// The bytes of a `u16`, most significant first.
pub fn u16_be(x: u16) -> (r: [u8; 2])
    ensures
        r@ == be_bytes(x as nat, 2),
{
    to_be::<2>(x as u128)
}

/// The bytes of a `u64`, most significant first.
pub fn u64_be(x: u64) -> (r: [u8; 8])
    ensures
        r@ == be_bytes(x as nat, 8),
{
    to_be::<8>(x as u128)
}

/// The `u16` that two bytes spell, most significant first.
pub fn u16_from_be(b: &[u8; 2]) -> (r: u16)
    ensures
        r == be_value(b@),
{
    proof {
        lemma_pow256_values();
    }
    from_be(b.as_slice()) as u16
}

/// The `u64` that eight bytes spell, most significant first.
pub fn u64_from_be(b: &[u8; 8]) -> (r: u64)
    ensures
        r == be_value(b@),
{
    proof {
        lemma_pow256_values();
    }
    from_be(b.as_slice()) as u64
}

// ── Appending ────────────────────────────────────────────────────────────────

/// Append `extra` to `buf`.
pub fn push_bytes(buf: &mut Vec<u8>, extra: &[u8])
    ensures
        final(buf)@ == old(buf)@ + extra@,
{
    buf.extend_from_slice(extra);
    assert(buf@ =~= old(buf)@ + extra@);
}

/// One length byte (modulo 256), then the UTF-8 bytes of `s`.
pub open spec fn str_bytes(s: Seq<char>) -> Seq<u8> {
    be_bytes(encode_utf8(s).len(), 1) + encode_utf8(s)
}

/// Two length bytes (modulo 65536), then the UTF-8 bytes of `s`.
pub open spec fn text_bytes(s: Seq<char>) -> Seq<u8> {
    be_bytes(encode_utf8(s).len(), 2) + encode_utf8(s)
}

/// A number in one byte.
pub proof fn lemma_be_bytes_1(n: nat)
    ensures
        be_bytes(n, 1) == seq![(n % 256) as u8],
{
    reveal_with_fuel(be_bytes, 2);
    assert(be_bytes(n, 1) =~= seq![(n % 256) as u8]);
}

/// Append a string with a one-byte length prefix.
pub fn push_str(buf: &mut Vec<u8>, s: &str)
    ensures
        final(buf)@ == old(buf)@ + str_bytes(s@),
{
    let b = s.as_bytes();
    push_bytes(buf, &to_be::<1>(b.len() as u128));
    push_bytes(buf, b);
    assert(buf@ =~= old(buf)@ + str_bytes(s@));
}

/// Append a string with a two-byte length prefix.
pub fn push_text(buf: &mut Vec<u8>, text: &str)
    ensures
        final(buf)@ == old(buf)@ + text_bytes(text@),
{
    let b = text.as_bytes();
    push_bytes(buf, &to_be::<2>(b.len() as u128));
    push_bytes(buf, b);
    assert(buf@ =~= old(buf)@ + text_bytes(text@));
}

// ── Reading ──────────────────────────────────────────────────────────────────
//
// A reader maps a buffer and a position to the value that starts there and the
// position after it, or to nothing when the buffer does not hold such a value.

/// The `n` bytes at `p`.
pub open spec fn bytes_at(s: Seq<u8>, p: int, n: int) -> Option<(Seq<u8>, int)> {
    if 0 <= p && p + n <= s.len() {
        Some((s.subrange(p, p + n), p + n))
    } else {
        None
    }
}

/// The identifier that sixteen bytes spell.
#[verifier::opaque]
pub open spec fn uuid_of(s: Seq<u8>) -> Uuid {
    [
        s[0],
        s[1],
        s[2],
        s[3],
        s[4],
        s[5],
        s[6],
        s[7],
        s[8],
        s[9],
        s[10],
        s[11],
        s[12],
        s[13],
        s[14],
        s[15],
    ]
}

/// An identifier is made of its own bytes.
pub broadcast proof fn lemma_uuid_of_view(u: Uuid)
    ensures
        #[trigger] uuid_of(u@) == u,
{
    reveal(uuid_of);
    assert(uuid_of(u@) =~= u);
}

/// The bytes of an identifier are those it was made of.
pub proof fn lemma_view_of_uuid(s: Seq<u8>)
    requires
        s.len() == 16,
    ensures
        uuid_of(s)@ == s,
{
    reveal(uuid_of);
    assert(uuid_of(s)@ =~= s);
}

/// The identifier at `p`.
pub open spec fn uuid_at(s: Seq<u8>, p: int) -> Option<(Uuid, int)> {
    match bytes_at(s, p, 16) {
        Some((b, q)) => Some((uuid_of(b), q)),
        None => None,
    }
}

/// The `n`-byte big-endian integer at `p`.
pub open spec fn int_at(s: Seq<u8>, p: int, n: int) -> Option<(nat, int)> {
    match bytes_at(s, p, n) {
        Some((b, q)) => Some((be_value(b), q)),
        None => None,
    }
}

/// The byte at `p`.
pub open spec fn u8_at(s: Seq<u8>, p: int) -> Option<(u8, int)> {
    if 0 <= p < s.len() {
        Some((s[p], p + 1))
    } else {
        None
    }
}

/// The big-endian `u16` at `p`.
pub open spec fn u16_at(s: Seq<u8>, p: int) -> Option<(u16, int)> {
    match int_at(s, p, 2) {
        Some((n, q)) => Some((n as u16, q)),
        None => None,
    }
}

/// The big-endian `u64` at `p`.
pub open spec fn u64_at(s: Seq<u8>, p: int) -> Option<(u64, int)> {
    match int_at(s, p, 8) {
        Some((n, q)) => Some((n as u64, q)),
        None => None,
    }
}

/// The string at `p` whose length takes `w` bytes.
pub open spec fn prefixed_at(s: Seq<u8>, p: int, w: int) -> Option<(Seq<char>, int)> {
    match int_at(s, p, w) {
        Some((n, q)) => match bytes_at(s, q, n as int) {
            Some((b, e)) => if valid_utf8(b) {
                Some((decode_utf8(b), e))
            } else {
                None
            },
            None => None,
        },
        None => None,
    }
}

/// The string with a one-byte length prefix at `p`.
pub open spec fn str_at(s: Seq<u8>, p: int) -> Option<(Seq<char>, int)> {
    prefixed_at(s, p, 1)
}

/// The string with a two-byte length prefix at `p`.
pub open spec fn text_at(s: Seq<u8>, p: int) -> Option<(Seq<char>, int)> {
    prefixed_at(s, p, 2)
}

/// The result of `std::str::from_utf8`: the text that `b` encodes, or nothing
/// when `b` is not valid UTF-8.
#[verifier::external_body]
fn utf8_text(b: &[u8]) -> (r: Option<&str>)
    ensures
        match r {
            Some(t) => valid_utf8(b@) && t@ == decode_utf8(b@),
            None => !valid_utf8(b@),
        },
{
    match std::str::from_utf8(b) {
        Ok(t) => Some(t),
        Err(_) => None,
    }
}

/// The next `n` bytes, moving the cursor past them; on a short buffer the
/// cursor stays where it was.
pub fn read_slice<'a>(data: &'a [u8], pos: &mut usize, n: usize) -> (r: Option<&'a [u8]>)
    ensures
        match bytes_at(data@, *old(pos) as int, n as int) {
            Some((b, q)) => r matches Some(t) && t@ == b && *final(pos) == q,
            None => r is None && *final(pos) == *old(pos),
        },
{
    if *pos > data.len() || data.len() - *pos < n {
        return None;
    }
    let start: usize = *pos;
    let end: usize = start + n;
    *pos = end;
    Some(&data[start..end])
}

/// The next `N` bytes, moving the cursor past them; on a short buffer the
/// cursor stays where it was.
pub fn read_bytes<const N: usize>(data: &[u8], pos: &mut usize) -> (r: Option<[u8; N]>)
    ensures
        match bytes_at(data@, *old(pos) as int, N as int) {
            Some((b, q)) => r matches Some(a) && a@ == b && *final(pos) == q,
            None => r is None && *final(pos) == *old(pos),
        },
{
    let Some(part) = read_slice(data, pos, N) else {
        return None;
    };
    let mut out: [u8; N] = [0u8; N];
    let mut i: usize = 0;
    while i < N
        invariant
            i <= N,
            part@.len() == N,
            out@.len() == N,
            forall|j: int| 0 <= j < i ==> out@[j] == part@[j],
        decreases N - i,
    {
        out[i] = part[i];
        i += 1;
    }
    assert(out@ =~= part@);
    Some(out)
}

/// The next identifier.
pub fn read_uuid(data: &[u8], pos: &mut usize) -> (r: Option<Uuid>)
    ensures
        match uuid_at(data@, *old(pos) as int) {
            Some((u, q)) => r == Some(u) && *final(pos) == q,
            None => r is None && *final(pos) == *old(pos),
        },
{
    let r = read_bytes::<16>(data, pos);
    proof {
        if let Some(a) = r {
            lemma_uuid_of_view(a);
        }
    }
    r
}

/// The next big-endian `u64`.
pub fn read_u64(data: &[u8], pos: &mut usize) -> (r: Option<u64>)
    ensures
        match u64_at(data@, *old(pos) as int) {
            Some((n, q)) => r == Some(n) && *final(pos) == q,
            None => r is None && *final(pos) == *old(pos),
        },
{
    match read_bytes::<8>(data, pos) {
        Some(b) => Some(u64_from_be(&b)),
        None => None,
    }
}

/// The next big-endian `u16`.
pub fn read_u16(data: &[u8], pos: &mut usize) -> (r: Option<u16>)
    ensures
        match u16_at(data@, *old(pos) as int) {
            Some((n, q)) => r == Some(n) && *final(pos) == q,
            None => r is None && *final(pos) == *old(pos),
        },
        match int_at(data@, *old(pos) as int, 2) {
            Some((n, _)) => r matches Some(x) && x == n,
            None => r is None,
        },
{
    match read_bytes::<2>(data, pos) {
        Some(b) => Some(u16_from_be(&b)),
        None => None,
    }
}

/// The next byte.
pub fn read_u8(data: &[u8], pos: &mut usize) -> (r: Option<u8>)
    ensures
        match u8_at(data@, *old(pos) as int) {
            Some((n, q)) => r == Some(n) && *final(pos) == q,
            None => r is None && *final(pos) == *old(pos),
        },
        match int_at(data@, *old(pos) as int, 1) {
            Some((n, _)) => r matches Some(x) && x == n,
            None => r is None,
        },
{
    match read_bytes::<1>(data, pos) {
        Some(b) => {
            proof {
                reveal_with_fuel(be_value, 2);
            }
            Some(b[0])
        },
        None => None,
    }
}

/// Where a reader of a length-prefixed string leaves the cursor: behind the
/// string, or, when the string is cut short or not UTF-8, behind the prefix.
pub open spec fn prefixed_end(s: Seq<u8>, p: int, w: int) -> int {
    match prefixed_at(s, p, w) {
        Some((_, q)) => q,
        None => if p + w <= s.len() {
            p + w
        } else {
            p
        },
    }
}

/// Read a string with a one-byte length prefix.
pub fn read_str(data: &[u8], pos: &mut usize) -> (r: Option<String>)
    ensures
        match str_at(data@, *old(pos) as int) {
            Some((t, _)) => r matches Some(x) && x@ == t,
            None => r is None,
        },
        *final(pos) == prefixed_end(data@, *old(pos) as int, 1),
{
    let Some(len) = read_u8(data, pos) else {
        return None;
    };
    let start: usize = *pos;
    let Some(raw) = read_slice(data, pos, len as usize) else {
        return None;
    };
    match utf8_text(raw) {
        Some(t) => Some(t.to_owned()),
        None => {
            *pos = start;
            None
        },
    }
}

/// Read a string with a two-byte length prefix.
pub fn read_text(data: &[u8], pos: &mut usize) -> (r: Option<String>)
    ensures
        match text_at(data@, *old(pos) as int) {
            Some((t, _)) => r matches Some(x) && x@ == t,
            None => r is None,
        },
        *final(pos) == prefixed_end(data@, *old(pos) as int, 2),
{
    let Some(len) = read_u16(data, pos) else {
        return None;
    };
    let start: usize = *pos;
    let Some(raw) = read_slice(data, pos, len as usize) else {
        return None;
    };
    match utf8_text(raw) {
        Some(t) => Some(t.to_owned()),
        None => {
            *pos = start;
            None
        },
    }
}

// ── Lists of readable items ──────────────────────────────────────────────────

/// `n` consecutive items from `p` on, each read by `item`.
pub open spec fn many_at<T>(
    item: spec_fn(Seq<u8>, int) -> Option<(T, int)>,
    s: Seq<u8>,
    p: int,
    n: nat,
) -> Option<(Seq<T>, int)>
    decreases n,
{
    if n == 0 {
        Some((Seq::empty(), p))
    } else {
        match many_at(item, s, p, (n - 1) as nat) {
            Some((ts, q)) => match item(s, q) {
                Some((t, e)) => Some((ts.push(t), e)),
                None => None,
            },
            None => None,
        }
    }
}

/// The encodings of `ts`, one after the other.
pub open spec fn many_bytes<T>(enc: spec_fn(T) -> Seq<u8>, ts: Seq<T>) -> Seq<u8>
    decreases ts.len(),
{
    if ts.len() == 0 {
        Seq::empty()
    } else {
        many_bytes(enc, ts.drop_last()) + enc(ts.last())
    }
}

/// A list that fails to read after `k` items fails to read at any greater length.
pub proof fn lemma_many_stops<T>(
    item: spec_fn(Seq<u8>, int) -> Option<(T, int)>,
    s: Seq<u8>,
    p: int,
    k: nat,
    n: nat,
)
    requires
        k <= n,
        many_at(item, s, p, k) is None,
    ensures
        many_at(item, s, p, n) is None,
    decreases n,
{
    if k < n {
        lemma_many_stops(item, s, p, k, (n - 1) as nat);
    }
}

/// One more item adds its encoding at the end.
pub proof fn lemma_many_bytes_push<T>(enc: spec_fn(T) -> Seq<u8>, ts: Seq<T>, t: T)
    ensures
        many_bytes(enc, ts.push(t)) == many_bytes(enc, ts) + enc(t),
{
    assert(ts.push(t).drop_last() =~= ts);
}

/// `item` reads `t` back from its encoding, whatever stands around it.
pub open spec fn reads_back<T>(
    item: spec_fn(Seq<u8>, int) -> Option<(T, int)>,
    enc: spec_fn(T) -> Seq<u8>,
    t: T,
) -> bool {
    forall|pre: Seq<u8>, post: Seq<u8>| #[trigger]
        item(pre + enc(t) + post, pre.len() as int) == Some((t, (pre.len() + enc(t).len()) as int))
}

/// A list is read back when each of its items is.
pub proof fn lemma_many_reads_back<T>(
    item: spec_fn(Seq<u8>, int) -> Option<(T, int)>,
    enc: spec_fn(T) -> Seq<u8>,
    ts: Seq<T>,
    pre: Seq<u8>,
    post: Seq<u8>,
)
    requires
        forall|i: int| 0 <= i < ts.len() ==> reads_back(item, enc, #[trigger] ts[i]),
    ensures
        many_at(item, pre + many_bytes(enc, ts) + post, pre.len() as int, ts.len()) == Some(
            (ts, (pre.len() + many_bytes(enc, ts).len()) as int),
        ),
    decreases ts.len(),
{
    if ts.len() > 0 {
        let front = ts.drop_last();
        let t = ts.last();
        let whole = pre + many_bytes(enc, ts) + post;
        assert(forall|i: int| 0 <= i < front.len() ==> front[i] == ts[i]);
        lemma_many_reads_back(item, enc, front, pre, enc(t) + post);
        assert(pre + many_bytes(enc, front) + (enc(t) + post) =~= whole);
        let pre2 = pre + many_bytes(enc, front);
        assert(pre2 + enc(t) + post =~= whole);
        assert(reads_back(item, enc, ts[ts.len() - 1]));
        assert(item(pre2 + enc(t) + post, pre2.len() as int) == Some(
            (t, (pre2.len() + enc(t).len()) as int),
        ));
        assert(front.push(t) =~= ts);
    } else {
        assert(ts =~= Seq::empty());
    }
}

// ── Reading back single fields ───────────────────────────────────────────────

/// Bytes are read back from where they were written.
pub proof fn lemma_bytes_back(pre: Seq<u8>, b: Seq<u8>, post: Seq<u8>)
    ensures
        bytes_at(pre + b + post, pre.len() as int, b.len() as int) == Some(
            (b, (pre.len() + b.len()) as int),
        ),
{
    assert((pre + b + post).subrange(pre.len() as int, (pre.len() + b.len()) as int) =~= b);
}

/// An identifier is read back from where it was written.
pub proof fn lemma_uuid_back(pre: Seq<u8>, u: Uuid, post: Seq<u8>)
    ensures
        uuid_at(pre + u@ + post, pre.len() as int) == Some((u, (pre.len() + 16) as int)),
{
    lemma_bytes_back(pre, u@, post);
    lemma_uuid_of_view(u);
}

/// An integer is read back from where it was written, if it fits the width.
pub proof fn lemma_int_back(pre: Seq<u8>, n: nat, w: nat, post: Seq<u8>)
    requires
        n < pow256(w),
    ensures
        int_at(pre + be_bytes(n, w) + post, pre.len() as int, w as int) == Some(
            (n, (pre.len() + w) as int),
        ),
{
    lemma_be_bytes_len(n, w);
    lemma_bytes_back(pre, be_bytes(n, w), post);
    lemma_be_value_of_bytes(n, w);
}

/// A byte is read back from where it was written.
pub proof fn lemma_u8_back(pre: Seq<u8>, b: u8, post: Seq<u8>)
    ensures
        u8_at(pre + seq![b] + post, pre.len() as int) == Some((b, (pre.len() + 1) as int)),
{
}

/// A `u16` is read back from where it was written.
pub proof fn lemma_u16_back(pre: Seq<u8>, n: u16, post: Seq<u8>)
    ensures
        u16_at(pre + be_bytes(n as nat, 2) + post, pre.len() as int) == Some(
            (n, (pre.len() + 2) as int),
        ),
{
    lemma_pow256_values();
    lemma_int_back(pre, n as nat, 2, post);
}

/// A `u64` is read back from where it was written.
pub proof fn lemma_u64_back(pre: Seq<u8>, n: u64, post: Seq<u8>)
    ensures
        u64_at(pre + be_bytes(n as nat, 8) + post, pre.len() as int) == Some(
            (n, (pre.len() + 8) as int),
        ),
{
    lemma_pow256_values();
    lemma_int_back(pre, n as nat, 8, post);
}

/// A string is read back from where it was written, if its length fits the prefix.
pub proof fn lemma_prefixed_back(pre: Seq<u8>, t: Seq<char>, w: nat, post: Seq<u8>)
    requires
        encode_utf8(t).len() < pow256(w),
    ensures
        prefixed_at(
            pre + (be_bytes(encode_utf8(t).len(), w) + encode_utf8(t)) + post,
            pre.len() as int,
            w as int,
        ) == Some((t, (pre.len() + w + encode_utf8(t).len()) as int)),
{
    let e = encode_utf8(t);
    let l = be_bytes(e.len(), w);
    let whole = pre + (l + e) + post;
    lemma_be_bytes_len(e.len(), w);
    lemma_int_back(pre, e.len(), w, e + post);
    assert(pre + l + (e + post) =~= whole);
    lemma_bytes_back(pre + l, e, post);
    assert((pre + l) + e + post =~= whole);
    vstd::utf8::encode_utf8_valid_utf8(t);
    vstd::utf8::encode_utf8_decode_utf8(t);
}

} // verus!
