//! Text rendering and parsing: hexadecimal identifiers, decimal numbers, and
//! the order and blankness of strings.

use crate::bytes::{lemma_uuid_of_view, uuid_of, zero_id, zero_uuid, Uuid};
use vstd::prelude::*;
use vstd::string::StringExecFns;
use vstd::utf8::encode_utf8;

verus! {

// ── Hexadecimal ──────────────────────────────────────────────────────────────

/// The lowercase hexadecimal digit of `d`.
pub open spec fn hex_digit(d: nat) -> char
    recommends
        d < 16,
{
    if d < 10 {
        ('0' as u32 + d) as char
    } else {
        ('a' as u32 + (d - 10)) as char
    }
}

/// Two lowercase hexadecimal digits for each byte.
pub open spec fn hex_chars(b: Seq<u8>) -> Seq<char> {
    Seq::new(
        2 * b.len(),
        |i: int|
            hex_digit(
                if i % 2 == 0 {
                    b[i / 2] as nat / 16
                } else {
                    b[i / 2] as nat % 16
                },
            ),
    )
}

/// The one-character string of a digit below sixteen.
fn digit_str(d: u8) -> (r: &'static str)
    requires
        d < 16,
    ensures
        r@ == seq![hex_digit(d as nat)],
{
    proof {
        reveal_strlit("0");
        reveal_strlit("1");
        reveal_strlit("2");
        reveal_strlit("3");
        reveal_strlit("4");
        reveal_strlit("5");
        reveal_strlit("6");
        reveal_strlit("7");
        reveal_strlit("8");
        reveal_strlit("9");
        reveal_strlit("a");
        reveal_strlit("b");
        reveal_strlit("c");
        reveal_strlit("d");
        reveal_strlit("e");
        reveal_strlit("f");
    }
    match d {
        0 => "0",
        1 => "1",
        2 => "2",
        3 => "3",
        4 => "4",
        5 => "5",
        6 => "6",
        7 => "7",
        8 => "8",
        9 => "9",
        10 => "a",
        11 => "b",
        12 => "c",
        13 => "d",
        14 => "e",
        _ => "f",
    }
}

/// Render bytes as lowercase hexadecimal.
pub fn hex(bytes: &[u8]) -> (r: String)
    ensures
        r@ == hex_chars(bytes@),
{
    let mut out = String::new();
    let mut i: usize = 0;
    while i < bytes.len()
        invariant
            i <= bytes@.len(),
            out@ == hex_chars(bytes@.take(i as int)),
        decreases bytes@.len() - i,
    {
        out.append(digit_str(bytes[i] / 16));
        out.append(digit_str(bytes[i] % 16));
        assert(out@ =~= hex_chars(bytes@.take(i + 1)));
        i += 1;
    }
    assert(bytes@.take(i as int) =~= bytes@);
    out
}

/// The first eight hexadecimal digits of an identifier.
pub open spec fn short_hex_chars(u: Uuid) -> Seq<char> {
    hex_chars(u@).take(8)
}

/// Render the first eight hexadecimal digits of an identifier.
pub fn short_hex(u: &Uuid) -> (r: String)
    ensures
        r@ == short_hex_chars(*u),
{
    let all = u.as_slice();
    let r = hex(&all[0..4]);
    assert(hex_chars(u@.subrange(0, 4)) =~= hex_chars(u@).take(8));
    r
}

/// The value of a lowercase hexadecimal digit character.
pub open spec fn digit_value(b: u8) -> Option<u8> {
    if '0' as u8 <= b <= '9' as u8 {
        Some((b - '0' as u8) as u8)
    } else if 'a' as u8 <= b <= 'f' as u8 {
        Some((b - 'a' as u8 + 10) as u8)
    } else {
        None
    }
}

/// The byte that two lowercase hexadecimal digits spell.
pub open spec fn pair_value(a: u8, b: u8) -> Option<u8> {
    match (digit_value(a), digit_value(b)) {
        (Some(hi), Some(lo)) => Some((16 * hi + lo) as u8),
        _ => None,
    }
}

/// The bytes that the first `n` character pairs of `s` spell.
pub open spec fn pairs_value(s: Seq<u8>, n: nat) -> Option<Seq<u8>>
    decreases n,
{
    if n == 0 {
        Some(Seq::empty())
    } else {
        match (pairs_value(s, (n - 1) as nat), pair_value(s[2 * n - 2], s[2 * n - 1])) {
            (Some(front), Some(b)) => Some(front.push(b)),
            _ => None,
        }
    }
}

/// The identifier that a string of exactly 32 lowercase hexadecimal digits
/// spells; anything else spells none.
pub open spec fn uuid_of_hex(s: Seq<char>) -> Option<Uuid> {
    let b = encode_utf8(s);
    if b.len() != 32 {
        None
    } else {
        match pairs_value(b, 16) {
            Some(v) => Some(uuid_of(v)),
            None => None,
        }
    }
}

fn digit_of(b: u8) -> (r: Option<u8>)
    ensures
        r == digit_value(b),
        r matches Some(d) ==> d < 16,
{
    if 0x30 <= b && b <= 0x39 {
        Some(b - 0x30)
    } else if 0x61 <= b && b <= 0x66 {
        Some(b - 0x61 + 10)
    } else {
        None
    }
}

proof fn lemma_pairs_stop(s: Seq<u8>, k: nat, n: nat)
    requires
        k <= n,
        pairs_value(s, k) is None,
    ensures
        pairs_value(s, n) is None,
    decreases n,
{
    if k < n {
        lemma_pairs_stop(s, k, (n - 1) as nat);
    }
}

/// Parse 32 lowercase hexadecimal characters into an identifier.
pub fn hex_to_uuid(s: &str) -> (r: Option<Uuid>)
    ensures
        r == uuid_of_hex(s@),
{
    let b = s.as_bytes();
    if b.len() != 32 {
        return None;
    }
    let mut out: Uuid = [0u8; 16];
    let mut i: usize = 0;
    while i < 16
        invariant
            i <= 16,
            b@.len() == 32,
            b@ == encode_utf8(s@),
            out@.len() == 16,
            pairs_value(b@, i as nat) == Some(out@.take(i as int)),
        decreases 16 - i,
    {
        let v: Option<u8> = match (digit_of(b[2 * i]), digit_of(b[2 * i + 1])) {
            (Some(hi), Some(lo)) => Some(16 * hi + lo),
            _ => None,
        };
        assert(v == pair_value(b@[2 * i as int], b@[2 * i + 1]));
        let Some(x) = v else {
            proof {
                lemma_pairs_stop(b@, (i + 1) as nat, 16);
            }
            return None;
        };
        let ghost before = out@;
        out[i] = x;
        i += 1;
        assert(out@.take(i as int) =~= before.take(i - 1).push(x));
    }
    assert(out@.take(16) =~= out@);
    proof {
        lemma_uuid_of_view(out);
    }
    Some(out)
}

/// The identifier that `s` spells, or the all-zero one.
pub open spec fn uuid_of_hex_or_zero(s: Seq<char>) -> Uuid {
    match uuid_of_hex(s) {
        Some(u) => u,
        None => zero_id(),
    }
}

/// Parse an identifier, falling back to the all-zero one.
pub fn uuid_from_hex(s: &str) -> (r: Uuid)
    ensures
        r == uuid_of_hex_or_zero(s@),
{
    match hex_to_uuid(s) {
        Some(u) => u,
        None => zero_uuid(),
    }
}

/// Rendering an identifier and parsing the text gives the identifier back.
pub proof fn hex_round_trip(u: Uuid)
    ensures
        uuid_of_hex(hex_chars(u@)) == Some(u),
{
    let h = hex_chars(u@);
    let e = encode_utf8(h);
    assert(vstd::utf8::is_ascii_chars(h));
    vstd::utf8::is_ascii_chars_encode_utf8(h);
    assert forall|n: nat| n <= 16 implies #[trigger] pairs_value(e, n) == Some(u@.take(n as int)) by {
        lemma_hex_pairs(u, n);
    }
    assert(u@.take(16) =~= u@);
    lemma_uuid_of_view(u);
}

proof fn lemma_hex_pairs(u: Uuid, n: nat)
    requires
        n <= 16,
    ensures
        pairs_value(encode_utf8(hex_chars(u@)), n) == Some(u@.take(n as int)),
    decreases n,
{
    let h = hex_chars(u@);
    let e = encode_utf8(h);
    assert(vstd::utf8::is_ascii_chars(h));
    vstd::utf8::is_ascii_chars_encode_utf8(h);
    if n > 0 {
        lemma_hex_pairs(u, (n - 1) as nat);
        let x = u@[n - 1];
        assert(e[2 * n - 2] == h[2 * n - 2] as u8);
        assert(e[2 * n - 1] == h[2 * n - 1] as u8);
        assert((2 * n - 2) / 2 == n - 1 && (2 * n - 1) / 2 == n - 1);
        assert(h[2 * n - 2] == hex_digit(x as nat / 16));
        assert(h[2 * n - 1] == hex_digit(x as nat % 16));
        assert(digit_value(e[2 * n - 2]) == Some((x as nat / 16) as u8));
        assert(digit_value(e[2 * n - 1]) == Some((x as nat % 16) as u8));
        assert(u@.take(n as int) =~= u@.take(n - 1).push(x));
    } else {
        assert(u@.take(0) =~= Seq::empty());
    }
}

// ── Decimal ──────────────────────────────────────────────────────────────────

/// The decimal digits of `n`, without leading zeros.
pub open spec fn dec(n: nat) -> Seq<char>
    decreases n,
{
    if n < 10 {
        seq![hex_digit(n)]
    } else {
        dec(n / 10).push(hex_digit(n % 10))
    }
}

/// Render a number in decimal.
pub fn decimal(n: u64) -> (r: String)
    ensures
        r@ == dec(n as nat),
    decreases n,
{
    if n < 10 {
        digit_str(n as u8).to_owned()
    } else {
        let mut front = decimal(n / 10);
        front.append(digit_str((n % 10) as u8));
        assert(front@ =~= dec(n as nat));
        front
    }
}

/// The words for a truth value.
pub open spec fn bool_word(b: bool) -> Seq<char> {
    if b {
        "true"@
    } else {
        "false"@
    }
}

/// Render a truth value.
pub fn bool_text(b: bool) -> (r: &'static str)
    ensures
        r@ == bool_word(b),
{
    if b {
        "true"
    } else {
        "false"
    }
}

// ── Joining ──────────────────────────────────────────────────────────────────

/// Two strings, joined.
pub fn join2(a: &str, b: &str) -> (r: String)
    ensures
        r@ == a@ + b@,
{
    let mut out = a.to_owned();
    out.append(b);
    out
}

/// Three strings, joined.
pub fn join3(a: &str, b: &str, c: &str) -> (r: String)
    ensures
        r@ == a@ + b@ + c@,
{
    let mut out = join2(a, b);
    out.append(c);
    out
}

/// Five strings, joined.
pub fn join5(a: &str, b: &str, c: &str, d: &str, e: &str) -> (r: String)
    ensures
        r@ == a@ + b@ + c@ + d@ + e@,
{
    let mut out = join3(a, b, c);
    out.append(d);
    out.append(e);
    out
}

/// Seven strings, joined.
pub fn join7(a: &str, b: &str, c: &str, d: &str, e: &str, f: &str, g: &str) -> (r: String)
    ensures
        r@ == a@ + b@ + c@ + d@ + e@ + f@ + g@,
{
    let mut out = join5(a, b, c, d, e);
    out.append(f);
    out.append(g);
    out
}

/// What stands in for the alias of a user that nothing is known of.
pub open spec fn unknown_user(u: Uuid) -> Seq<char> {
    "user#"@ + short_hex_chars(u)
}

/// What stands in for the alias of a user that nothing is known of.
pub fn unknown_user_text(u: &Uuid) -> (r: String)
    ensures
        r@ == unknown_user(*u),
{
    join2("user#", short_hex(u).as_str())
}

// ── Blankness ────────────────────────────────────────────────────────────────

/// Whether a character is white space: those with the Unicode property
/// `White_Space`.
pub open spec fn is_space(c: char) -> bool {
    let n = c as u32;
    ||| 0x09 <= n <= 0x0D
    ||| n == 0x20
    ||| n == 0x85
    ||| n == 0xA0
    ||| n == 0x1680
    ||| 0x2000 <= n <= 0x200A
    ||| n == 0x2028
    ||| n == 0x2029
    ||| n == 0x202F
    ||| n == 0x205F
    ||| n == 0x3000
}

/// Whether a text is nothing but white space.
pub open spec fn is_blank(s: Seq<char>) -> bool {
    forall|i: int| 0 <= i < s.len() ==> is_space(#[trigger] s[i])
}

fn space(c: char) -> (r: bool)
    ensures
        r == is_space(c),
{
    let n: u32 = c as u32;
    (0x09 <= n && n <= 0x0D) || n == 0x20 || n == 0x85 || n == 0xA0 || n == 0x1680 || (0x2000 <= n
        && n <= 0x200A) || n == 0x2028 || n == 0x2029 || n == 0x202F || n == 0x205F || n == 0x3000
}

/// Whether a text is nothing but white space.
pub fn blank(s: &str) -> (r: bool)
    ensures
        r == is_blank(s@),
{
    for c in it: s.chars()
        invariant
            it.seq() == s@,
            forall|j: int| 0 <= j < it.index() ==> is_space(#[trigger] s@[j]),
    {
        if !space(c) {
            assert(s@[it.index()] == c);
            return false;
        }
    }
    true
}

// ── Order ────────────────────────────────────────────────────────────────────

/// Whether `a` comes before `b` byte by byte, or is the same.
pub open spec fn bytes_le(a: Seq<u8>, b: Seq<u8>) -> bool
    decreases a.len(),
{
    if a.len() == 0 {
        true
    } else if b.len() == 0 {
        false
    } else if a[0] != b[0] {
        a[0] < b[0]
    } else {
        bytes_le(a.drop_first(), b.drop_first())
    }
}

/// Whether `a` comes before `b` in the order of strings, or is the same: the
/// order of their UTF-8 bytes.
pub open spec fn text_le(a: Seq<char>, b: Seq<char>) -> bool {
    bytes_le(encode_utf8(a), encode_utf8(b))
}

/// Of any two byte strings one comes before the other or they are the same.
pub proof fn lemma_bytes_le_total(a: Seq<u8>, b: Seq<u8>)
    ensures
        bytes_le(a, b) || bytes_le(b, a),
    decreases a.len(),
{
    if a.len() > 0 && b.len() > 0 && a[0] == b[0] {
        lemma_bytes_le_total(a.drop_first(), b.drop_first());
    }
}

/// The order of byte strings is transitive.
pub proof fn lemma_bytes_le_transitive(a: Seq<u8>, b: Seq<u8>, c: Seq<u8>)
    requires
        bytes_le(a, b),
        bytes_le(b, c),
    ensures
        bytes_le(a, c),
    decreases a.len(),
{
    if a.len() > 0 && b.len() > 0 && c.len() > 0 && a[0] == b[0] && b[0] == c[0] {
        lemma_bytes_le_transitive(a.drop_first(), b.drop_first(), c.drop_first());
    }
}

/// Whether a string comes before another, or is the same.
pub fn precedes(a: &str, b: &str) -> (r: bool)
    ensures
        r == text_le(a@, b@),
{
    let x = a.as_bytes();
    let y = b.as_bytes();
    let mut i: usize = 0;
    assert(x@.skip(0) =~= x@);
    assert(y@.skip(0) =~= y@);
    while i < x.len() && i < y.len()
        invariant
            i <= x@.len(),
            i <= y@.len(),
            x@ == encode_utf8(a@),
            y@ == encode_utf8(b@),
            bytes_le(x@.skip(i as int), y@.skip(i as int)) == text_le(a@, b@),
        decreases x@.len() - i,
    {
        if x[i] != y[i] {
            return x[i] < y[i];
        }
        assert(x@.skip(i as int).drop_first() =~= x@.skip(i + 1));
        assert(y@.skip(i as int).drop_first() =~= y@.skip(i + 1));
        i += 1;
    }
    i == x.len()
}

} // verus!
