//! How identifiers, numbers and names are spelled and compared as text.

use crate::bytes::{be_bytes, lemma_be_bytes_len, lemma_view_of_uuid, zero_id, Uuid};
use crate::clock::{minted, whole_millis, whole_secs};
use crate::text::{bytes_le, dec, digit_value, hex_chars, hex_digit, hex_round_trip, is_blank};
use crate::text::{is_space, pair_value, pairs_value, short_hex_chars, unknown_user, uuid_of_hex};
use crate::text::uuid_of_hex_or_zero;
use vstd::prelude::*;
use vstd::utf8::{encode_utf8, encode_utf8_decode_utf8, is_ascii_chars, is_ascii_chars_encode_utf8};

verus! {

// ── Hexadecimal digits ───────────────────────────────────────────────────────

/// A byte is spelled by its high digit, then its low digit, in lower case.
pub proof fn bytes_are_spelled_by_two_digits(b: Seq<u8>, i: int)
    requires
        0 <= i < b.len(),
    ensures
        hex_chars(b).len() == 2 * b.len(),
        hex_chars(b)[2 * i] == "0123456789abcdef"@[b[i] as int / 16],
        hex_chars(b)[2 * i + 1] == "0123456789abcdef"@[b[i] as int % 16],
{
    lemma_digit(b[i] as nat / 16);
    lemma_digit(b[i] as nat % 16);
}

proof fn lemma_digit(d: nat)
    requires
        d < 16,
    ensures
        hex_digit(d) == "0123456789abcdef"@[d as int],
{
    reveal_strlit("0123456789abcdef");
}

/// A short identifier is the first four bytes.
pub proof fn short_ids_are_four_bytes(u: Uuid)
    ensures
        short_hex_chars(u) == hex_chars(u@.take(4)),
{
    assert(short_hex_chars(u) =~= hex_chars(u@.take(4)));
}

proof fn lemma_pairs_digits(s: Seq<u8>, n: nat)
    ensures
        pairs_value(s, n) matches Some(v) ==> v.len() == n && forall|i: int|
            0 <= i < n ==> pair_value(s[2 * i], s[2 * i + 1]) == Some(#[trigger] v[i]),
    decreases n,
{
    if n > 0 {
        lemma_pairs_digits(s, (n - 1) as nat);
        if let Some(v) = pairs_value(s, n) {
            let front = pairs_value(s, (n - 1) as nat)->0;
            assert forall|i: int| 0 <= i < n implies pair_value(s[2 * i], s[2 * i + 1]) == Some(
                #[trigger] v[i],
            ) by {
                if i < n - 1 {
                    assert(v[i] == front[i]);
                }
            }
        }
    }
}

proof fn lemma_digit_back(b: u8)
    ensures
        digit_value(b) matches Some(d) ==> d < 16 && hex_digit(d as nat) as u32 == b as u32,
{
}

/// A text is read as an identifier exactly if it is how that identifier is
/// spelled: no other length, no upper case, nothing else.
pub proof fn identifiers_have_one_spelling(s: Seq<char>, u: Uuid)
    ensures
        uuid_of_hex(s) == Some(u) <==> s == hex_chars(u@),
{
    let h = hex_chars(u@);
    hex_round_trip(u);
    if uuid_of_hex(s) == Some(u) {
        let b = encode_utf8(s);
        let e = encode_utf8(h);
        let v = pairs_value(b, 16)->0;
        assert(is_ascii_chars(h));
        is_ascii_chars_encode_utf8(h);
        lemma_pairs_digits(b, 16);
        lemma_view_of_uuid(v);
        assert(v == u@);
        assert forall|k: int| 0 <= k < 32 implies b[k] == #[trigger] e[k] by {
            let i = k / 2;
            assert(pair_value(b[2 * i], b[2 * i + 1]) == Some(v[i]));
            lemma_digit_back(b[2 * i]);
            lemma_digit_back(b[2 * i + 1]);
            let hi = digit_value(b[2 * i])->0 as nat;
            let lo = digit_value(b[2 * i + 1])->0 as nat;
            assert(v[i] as nat == 16 * hi + lo);
            assert(v[i] as nat / 16 == hi);
            assert(v[i] as nat % 16 == lo);
            assert(h[k] as u8 == e[k]);
        }
        assert(b =~= e);
        encode_utf8_decode_utf8(s);
        encode_utf8_decode_utf8(h);
    }
}

/// What spells no identifier stands for the zero one.
pub proof fn bad_spellings_are_zero(s: Seq<char>, u: Uuid)
    ensures
        s == hex_chars(u@) ==> uuid_of_hex_or_zero(s) == u,
        (forall|v: Uuid| s != hex_chars(#[trigger] v@)) ==> uuid_of_hex_or_zero(s) == zero_id(),
        zero_id()@ == Seq::new(16, |i: int| 0u8),
{
    identifiers_have_one_spelling(s, u);
    if let Some(v) = uuid_of_hex(s) {
        identifiers_have_one_spelling(s, v);
        assert(s == hex_chars(v@));
    }
    assert(zero_id()@ =~= Seq::new(16, |i: int| 0u8));
}

/// A user of whom nothing is known is called by the start of their identifier.
pub proof fn unknown_users_are_called_by_id(u: Uuid)
    ensures
        unknown_user(u) == "user#"@ + hex_chars(u@.take(4)),
{
    short_ids_are_four_bytes(u);
}

// ── Decimal digits ───────────────────────────────────────────────────────────

/// Reading one more digit.
pub open spec fn read_digit() -> spec_fn(int, char) -> int {
    |n: int, c: char| 10 * n + (c as int - '0' as int)
}

/// A number is spelled in digits alone, reads back as itself, and does not start
/// with a zero unless it is zero.
pub proof fn numbers_read_back(n: nat)
    ensures
        dec(n).len() > 0,
        dec(n).fold_left(0int, read_digit()) == n,
        forall|i: int| 0 <= i < dec(n).len() ==> '0' <= #[trigger] dec(n)[i] <= '9',
        n > 0 ==> dec(n)[0] != '0',
    decreases n,
{
    reveal_with_fuel(Seq::fold_left, 2);
    let s = dec(n);
    if n >= 10 {
        let front = dec(n / 10);
        numbers_read_back(n / 10);
        assert(s.drop_last() =~= front);
        assert(s.last() as int == '0' as int + n % 10);
        assert(s[0] == front[0]);
        assert forall|i: int| 0 <= i < s.len() implies '0' <= #[trigger] s[i] <= '9' by {
            if i < front.len() {
                assert(s[i] == front[i]);
            }
        }
    } else {
        assert(s.drop_last() =~= Seq::empty());
        assert(s.last() as int == '0' as int + n);
    }
}

// ── Order ────────────────────────────────────────────────────────────────────

/// Whether two byte strings agree before `i` and the first has the lower byte
/// there.
pub open spec fn lower_at(a: Seq<u8>, b: Seq<u8>, i: int) -> bool {
    &&& 0 <= i < a.len()
    &&& i < b.len()
    &&& a[i] < b[i]
    &&& forall|j: int| 0 <= j < i ==> #[trigger] a[j] == b[j]
}

/// One byte string comes before another, or is the same, exactly if the other
/// starts with it, or it has the lower byte where they first differ.
pub proof fn order_is_that_of_the_first_difference(a: Seq<u8>, b: Seq<u8>)
    ensures
        bytes_le(a, b) <==> a.is_prefix_of(b) || exists|i: int| lower_at(a, b, i),
    decreases a.len(),
{
    if a.len() == 0 {
        assert(a.is_prefix_of(b));
    } else if b.len() > 0 && a[0] == b[0] {
        let x = a.drop_first();
        let y = b.drop_first();
        order_is_that_of_the_first_difference(x, y);
        if x.is_prefix_of(y) {
            assert forall|i: int| 0 <= i < a.len() implies a[i] == b[i] by {
                if i > 0 {
                    assert(x[i - 1] == y.subrange(0, x.len() as int)[i - 1]);
                }
            }
            assert(a =~= b.subrange(0, a.len() as int));
        }
        if a.is_prefix_of(b) {
            assert forall|i: int| 0 <= i < x.len() implies x[i] == y[i] by {
                assert(a[i + 1] == b.subrange(0, a.len() as int)[i + 1]);
            }
            assert(x =~= y.subrange(0, x.len() as int));
        }
        if exists|i: int| lower_at(x, y, i) {
            let i = choose|i: int| lower_at(x, y, i);
            assert forall|j: int| 0 <= j < i + 1 implies #[trigger] a[j] == b[j] by {
                if j > 0 {
                    assert(x[j - 1] == y[j - 1]);
                }
            }
            assert(lower_at(a, b, i + 1));
        }
        if exists|i: int| lower_at(a, b, i) {
            let i = choose|i: int| lower_at(a, b, i);
            assert forall|j: int| 0 <= j < i - 1 implies #[trigger] x[j] == y[j] by {
                assert(a[j + 1] == b[j + 1]);
            }
            assert(lower_at(x, y, i - 1));
        }
    } else if b.len() > 0 {
        if a[0] < b[0] {
            assert(lower_at(a, b, 0));
        }
        if exists|i: int| lower_at(a, b, i) {
            let i = choose|i: int| lower_at(a, b, i);
            if i > 0 {
                assert(a[0] == b[0]);
            }
        }
        if a.is_prefix_of(b) {
            assert(a[0] == b.subrange(0, a.len() as int)[0]);
        }
    }
}

// ── Blank texts ──────────────────────────────────────────────────────────────

/// A text is blank exactly if each of its parts is; no visible character of ASCII
/// is blank, and a blank, a tab and a line end are.
pub proof fn blankness_is_of_every_part(a: Seq<char>, b: Seq<char>, c: char)
    ensures
        is_blank(Seq::<char>::empty()),
        is_blank(a + b) <==> is_blank(a) && is_blank(b),
        is_blank(seq![c]) <==> is_space(c),
        '!' <= c <= '~' ==> !is_space(c),
        c == ' ' || c == '\t' || c == '\n' || c == '\r' ==> is_space(c),
{
    if is_blank(a + b) {
        assert forall|i: int| 0 <= i < a.len() implies is_space(#[trigger] a[i]) by {
            assert((a + b)[i] == a[i]);
        }
        assert forall|i: int| 0 <= i < b.len() implies is_space(#[trigger] b[i]) by {
            assert((a + b)[a.len() + i] == b[i]);
        }
    }
    if is_blank(seq![c]) {
        assert(seq![c][0] == c);
    }
}

// ── Time ─────────────────────────────────────────────────────────────────────

/// The seconds and the milliseconds of a reading are those that have passed.
pub proof fn readings_are_rounded_down(nanos: u128)
    ensures
        whole_secs(nanos) * 1_000_000_000 <= nanos < (whole_secs(nanos) + 1) * 1_000_000_000,
        nanos < 0x1_0000_0000_0000_0000 * 1_000_000 ==> whole_millis(nanos) * 1_000_000 <= nanos < (
        whole_millis(nanos) + 1) * 1_000_000,
        0 <= whole_millis(nanos) < 0x1_0000_0000_0000_0000,
{
}

// ── Fresh identifiers ────────────────────────────────────────────────────────

/// An identifier is the random one if there is one; otherwise it spells the clock,
/// then the counter.
pub proof fn minted_ids_are_spelled(entropy: Option<Uuid>, nanos: u128, counter: u64)
    ensures
        match entropy {
            Some(e) => minted(entropy, nanos, counter) == e,
            None => minted(entropy, nanos, counter)@.take(8) == be_bytes(nanos as nat, 8) && minted(
                entropy,
                nanos,
                counter,
            )@.skip(8) == be_bytes(counter as nat, 8),
        },
{
    let a = be_bytes(nanos as nat, 8);
    let b = be_bytes(counter as nat, 8);
    lemma_be_bytes_len(nanos as nat, 8);
    lemma_be_bytes_len(counter as nat, 8);
    lemma_view_of_uuid(a + b);
    assert((a + b).take(8) =~= a);
    assert((a + b).skip(8) =~= b);
}

} // verus!
