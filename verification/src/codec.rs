//! Digests and the binary layout from which every identity is derived.
//!
//! A hash of the ledger is always SHA-256 over a byte string whose layout is
//! fixed here: integers in little-endian order at their full width, byte
//! strings and texts behind their length as eight bytes, fields in the order
//! of their declaration and nothing between them.

use crate::errors::LedgerError;
use sha2::{Digest, Sha256};
use vstd::prelude::*;
use vstd::string::*;

verus! {

/// The SHA-256 digest of a byte string.
pub uninterp spec fn spec_sha256(data: Seq<u8>) -> Seq<u8>;

/// `sha2::Sha256::digest`: the result is the SHA-256 digest of `data`, which
/// has 32 bytes. The digest itself is named, not computed, in proofs.
#[verifier::external_body]
pub(crate) fn sha256(data: &[u8]) -> (digest: Vec<u8>)
    ensures
        digest@ == spec_sha256(data@),
        digest@.len() == 32,
{
    Sha256::digest(data).to_vec()
}

/// The upper-case hexadecimal digit of a value below sixteen.
pub open spec fn hex_digit(n: int) -> char {
    if n == 0 {
        '0'
    } else if n == 1 {
        '1'
    } else if n == 2 {
        '2'
    } else if n == 3 {
        '3'
    } else if n == 4 {
        '4'
    } else if n == 5 {
        '5'
    } else if n == 6 {
        '6'
    } else if n == 7 {
        '7'
    } else if n == 8 {
        '8'
    } else if n == 9 {
        '9'
    } else if n == 10 {
        'A'
    } else if n == 11 {
        'B'
    } else if n == 12 {
        'C'
    } else if n == 13 {
        'D'
    } else if n == 14 {
        'E'
    } else {
        'F'
    }
}

/// The `i`-th half byte of `bytes`, the high half of each byte first.
pub open spec fn nibble(bytes: Seq<u8>, i: int) -> int {
    if i % 2 == 0 {
        bytes[i / 2] as int / 16
    } else {
        bytes[i / 2] as int % 16
    }
}

/// The text of `bytes` in upper-case hexadecimal, two digits for each byte.
pub open spec fn upper_hex(bytes: Seq<u8>) -> Seq<char> {
    Seq::new(2 * bytes.len(), |i: int| hex_digit(nibble(bytes, i)))
}

fn hex_digit_str(n: u8) -> (s: &'static str)
    requires
        n < 16,
    ensures
        s@ == seq![hex_digit(n as int)],
{
    proof {
        reveal_strlit("0");
        reveal_strlit("1");
        reveal_strlit("2");
        reveal_strlit("3");
        reveal_strlit("4");
        reveal_strlit("5");
        reveal_strlit("6");
        reveal_strlit("7");
        reveal_strlit("8");
        reveal_strlit("9");
        reveal_strlit("A");
        reveal_strlit("B");
        reveal_strlit("C");
        reveal_strlit("D");
        reveal_strlit("E");
        reveal_strlit("F");
    }
    match n {
        0 => "0",
        1 => "1",
        2 => "2",
        3 => "3",
        4 => "4",
        5 => "5",
        6 => "6",
        7 => "7",
        8 => "8",
        9 => "9",
        10 => "A",
        11 => "B",
        12 => "C",
        13 => "D",
        14 => "E",
        _ => "F",
    }
}

/// Writes `bytes` in upper-case hexadecimal.
pub fn to_hex(bytes: &[u8]) -> (text: String)
    ensures
        text@ == upper_hex(bytes@),
{
    let mut text = String::new();
    let mut i: usize = 0;
    while i < bytes.len()
        invariant
            i <= bytes.len(),
            text@.len() == 2 * i,
            forall|j: int| 0 <= j < 2 * i ==> text@[j] == hex_digit(nibble(bytes@, j)),
        decreases bytes.len() - i,
    {
        let b = bytes[i];
        text.append(hex_digit_str(b / 16));
        text.append(hex_digit_str(b % 16));
        i += 1;
    }
    text
}

/// The hexadecimal text of the SHA-256 digest of an encoding, 64 digits, or
/// `Serialization` where there is no encoding.
pub fn digest_text(encoded: Option<Vec<u8>>) -> (hash: Result<String, LedgerError>)
    ensures
        match encoded {
            Some(bytes) => hash matches Ok(text) && text@ == upper_hex(spec_sha256(bytes@))
                && text@.len() == 64,
            None => hash matches Err(e) && e == LedgerError::Serialization,
        },
{
    match encoded {
        Some(bytes) => {
            let digest = sha256(bytes.as_slice());
            Ok(to_hex(digest.as_slice()))
        },
        None => Err(LedgerError::Serialization),
    }
}

/// A digest meets a target of `digits` when its hexadecimal text begins with
/// that many zero digits.
pub open spec fn leading_zero_digits(digest: Seq<u8>, digits: int) -> bool {
    &&& digits <= 2 * digest.len()
    &&& forall|i: int| 0 <= i < digits ==> upper_hex(digest)[i] == '0'
}

/// Tells whether the hexadecimal text of `digest` begins with `digits` zeros.
pub fn has_leading_zero_digits(digest: &[u8], digits: usize) -> (ok: bool)
    ensures
        ok == leading_zero_digits(digest@, digits as int),
{
    if digest.len() < digits / 2 || (digest.len() == digits / 2 && digits % 2 == 1) {
        return false;
    }
    let mut i: usize = 0;
    while i < digits
        invariant
            i <= digits,
            digits <= 2 * digest.len(),
            forall|j: int| 0 <= j < i ==> upper_hex(digest@)[j] == '0',
        decreases digits - i,
    {
        let b = digest[i / 2];
        let half = if i % 2 == 0 { b / 16 } else { b % 16 };
        assert(half as int == nibble(digest@, i as int));
        if half != 0 {
            assert(upper_hex(digest@)[i as int] != '0');
            return false;
        }
        i += 1;
    }
    true
}

/// Tells whether two byte strings hold the same bytes.
pub fn bytes_eq(a: &[u8], b: &[u8]) -> (same: bool)
    ensures
        same == (a@ == b@),
{
    if a.len() != b.len() {
        return false;
    }
    let mut i: usize = 0;
    while i < a.len()
        invariant
            i <= a.len(),
            a.len() == b.len(),
            forall|j: int| 0 <= j < i ==> a@[j] == b@[j],
        decreases a.len() - i,
    {
        if a[i] != b[i] {
            return false;
        }
        i += 1;
    }
    assert(a@ =~= b@);
    true
}

/// Tells whether two texts hold the same characters.
pub fn str_eq(a: &str, b: &str) -> (same: bool)
    ensures
        same == (a@ == b@),
{
    proof {
        vstd::utf8::encode_utf8_decode_utf8(a@);
        vstd::utf8::encode_utf8_decode_utf8(b@);
    }
    bytes_eq(a.as_bytes(), b.as_bytes())
}

/// A copy of a byte string.
pub fn copy_bytes(bytes: &[u8]) -> (copy: Vec<u8>)
    ensures
        copy@ == bytes@,
{
    let mut copy: Vec<u8> = Vec::new();
    let mut i: usize = 0;
    while i < bytes.len()
        invariant
            i <= bytes.len(),
            copy@ == bytes@.take(i as int),
        decreases bytes.len() - i,
    {
        copy.push(bytes[i]);
        assert(bytes@.take(i as int + 1) =~= bytes@.take(i as int).push(bytes@[i as int]));
        i += 1;
    }
    assert(bytes@.take(bytes.len() as int) =~= bytes@);
    copy
}

/// The bytes of `a` followed by those of `b`.
pub fn concat_bytes(a: &[u8], b: &[u8]) -> (joined: Vec<u8>)
    ensures
        joined@ == a@ + b@,
{
    let mut joined = copy_bytes(a);
    let mut i: usize = 0;
    while i < b.len()
        invariant
            i <= b.len(),
            joined@ == a@ + b@.take(i as int),
        decreases b.len() - i,
    {
        joined.push(b[i]);
        assert(a@ + b@.take(i as int + 1) =~= (a@ + b@.take(i as int)).push(b@[i as int]));
        i += 1;
    }
    assert(b@.take(b.len() as int) =~= b@);
    joined
}

/// The low `width` bytes of `x`, the least significant first.
pub open spec fn le_bytes(x: nat, width: nat) -> Seq<u8>
    decreases width,
{
    if width == 0 {
        Seq::<u8>::empty()
    } else {
        seq![(x % 256) as u8] + le_bytes(x / 256, (width - 1) as nat)
    }
}

/// The 32-bit pattern of a signed integer in two's complement.
pub open spec fn i32_pattern(x: i32) -> nat {
    if x >= 0 {
        x as nat
    } else {
        (x + 0x1_0000_0000) as nat
    }
}

/// A byte string behind its length, the length as eight little-endian bytes.
pub open spec fn length_prefixed(bytes: Seq<u8>) -> Seq<u8> {
    le_bytes(bytes.len(), 8) + bytes
}

/// A text in UTF-8 behind the number of its bytes.
pub open spec fn text_layout(text: Seq<char>) -> Seq<u8> {
    length_prefixed(vstd::utf8::encode_utf8(text))
}

/// A signed 32-bit integer as four little-endian bytes.
pub open spec fn i32_layout(x: i32) -> Seq<u8> {
    le_bytes(i32_pattern(x), 4)
}

/// The number of values that `width` bytes can tell apart.
pub open spec fn limit(width: nat) -> nat
    decreases width,
{
    if width == 0 {
        1
    } else {
        256 * limit((width - 1) as nat)
    }
}

/// `le_bytes` gives as many bytes as it is asked for.
pub proof fn lemma_le_bytes_len(x: nat, width: nat)
    ensures
        le_bytes(x, width).len() == width,
    decreases width,
{
    if width > 0 {
        lemma_le_bytes_len(x / 256, (width - 1) as nat);
    }
}

/// Values that fit the width and have the same bytes are the same.
pub proof fn lemma_le_bytes_injective(x: nat, y: nat, width: nat)
    requires
        x < limit(width),
        y < limit(width),
        le_bytes(x, width) == le_bytes(y, width),
    ensures
        x == y,
    decreases width,
{
    if width > 0 {
        let a = le_bytes(x, width);
        let b = le_bytes(y, width);
        let rest_a = le_bytes(x / 256, (width - 1) as nat);
        let rest_b = le_bytes(y / 256, (width - 1) as nat);
        assert(a[0] == (x % 256) as u8);
        assert(b[0] == (y % 256) as u8);
        assert(x % 256 == y % 256);
        assert(rest_a =~= a.subrange(1, a.len() as int));
        assert(rest_b =~= b.subrange(1, b.len() as int));
        lemma_le_bytes_injective(x / 256, y / 256, (width - 1) as nat);
    }
}

/// The widths in which lengths and integers are laid out.
pub proof fn lemma_limits()
    ensures
        limit(4) == 0x1_0000_0000,
        limit(8) == 0x1_0000_0000_0000_0000,
        limit(16) == 0x1_0000_0000_0000_0000_0000_0000_0000_0000,
{
    reveal_with_fuel(limit, 17);
}

/// Two byte strings behind their lengths, each followed by more bytes: where
/// the whole is the same, the strings are the same and so is what follows.
pub proof fn lemma_length_prefixed_split(a: Seq<u8>, x: Seq<u8>, b: Seq<u8>, y: Seq<u8>)
    requires
        a.len() < limit(8),
        b.len() < limit(8),
        length_prefixed(a) + x == length_prefixed(b) + y,
    ensures
        a == b,
        x == y,
{
    let left = length_prefixed(a) + x;
    let right = length_prefixed(b) + y;
    lemma_le_bytes_len(a.len(), 8);
    lemma_le_bytes_len(b.len(), 8);
    assert(left.subrange(0, 8) =~= le_bytes(a.len(), 8));
    assert(right.subrange(0, 8) =~= le_bytes(b.len(), 8));
    lemma_le_bytes_injective(a.len(), b.len(), 8);
    assert(left.subrange(8, 8 + a.len() as int) =~= a);
    assert(right.subrange(8, 8 + b.len() as int) =~= b);
    assert(left.subrange(8 + a.len() as int, left.len() as int) =~= x);
    assert(right.subrange(8 + b.len() as int, right.len() as int) =~= y);
}

/// Two integers of a fixed width, each followed by more bytes: where the
/// whole is the same, the integers are the same and so is what follows.
pub proof fn lemma_le_bytes_split(u: nat, x: Seq<u8>, v: nat, y: Seq<u8>, width: nat)
    requires
        u < limit(width),
        v < limit(width),
        le_bytes(u, width) + x == le_bytes(v, width) + y,
    ensures
        u == v,
        x == y,
{
    let left = le_bytes(u, width) + x;
    let right = le_bytes(v, width) + y;
    lemma_le_bytes_len(u, width);
    lemma_le_bytes_len(v, width);
    assert(left.subrange(0, width as int) =~= le_bytes(u, width));
    assert(right.subrange(0, width as int) =~= le_bytes(v, width));
    lemma_le_bytes_injective(u, v, width);
    assert(left.subrange(width as int, left.len() as int) =~= x);
    assert(right.subrange(width as int, right.len() as int) =~= y);
}

/// Byte strings with the same hexadecimal text are the same.
pub proof fn lemma_upper_hex_injective(a: Seq<u8>, b: Seq<u8>)
    requires
        upper_hex(a) == upper_hex(b),
    ensures
        a == b,
{
    assert(upper_hex(a).len() == 2 * a.len());
    assert(upper_hex(b).len() == 2 * b.len());
    assert forall|i: int| 0 <= i < a.len() implies a[i] == b[i] by {
        assert(upper_hex(a)[2 * i] == hex_digit(nibble(a, 2 * i)));
        assert(upper_hex(b)[2 * i] == hex_digit(nibble(b, 2 * i)));
        assert(upper_hex(a)[2 * i + 1] == hex_digit(nibble(a, 2 * i + 1)));
        assert(upper_hex(b)[2 * i + 1] == hex_digit(nibble(b, 2 * i + 1)));
        assert(nibble(a, 2 * i) == a[i] as int / 16);
        assert(nibble(a, 2 * i + 1) == a[i] as int % 16);
        assert(nibble(b, 2 * i) == b[i] as int / 16);
        assert(nibble(b, 2 * i + 1) == b[i] as int % 16);
        lemma_hex_digit_injective(a[i] as int / 16, b[i] as int / 16);
        lemma_hex_digit_injective(a[i] as int % 16, b[i] as int % 16);
    }
    assert(a =~= b);
}

/// Values below sixteen with the same hexadecimal digit are the same.
pub proof fn lemma_hex_digit_injective(m: int, n: int)
    requires
        0 <= m < 16,
        0 <= n < 16,
        hex_digit(m) == hex_digit(n),
    ensures
        m == n,
{
}

/// Texts with the same layout are the same.
pub proof fn lemma_text_layout_split(s: Seq<char>, x: Seq<u8>, t: Seq<char>, y: Seq<u8>)
    requires
        vstd::utf8::encode_utf8(s).len() < limit(8),
        vstd::utf8::encode_utf8(t).len() < limit(8),
        text_layout(s) + x == text_layout(t) + y,
    ensures
        s == t,
        x == y,
{
    lemma_length_prefixed_split(
        vstd::utf8::encode_utf8(s),
        x,
        vstd::utf8::encode_utf8(t),
        y,
    );
    vstd::utf8::encode_utf8_decode_utf8(s);
    vstd::utf8::encode_utf8_decode_utf8(t);
}

/// Signed integers with the same four bytes, each followed by more bytes:
/// where the whole is the same, the integers are the same and so is what
/// follows.
pub proof fn lemma_i32_layout_split(u: i32, x: Seq<u8>, v: i32, y: Seq<u8>)
    requires
        i32_layout(u) + x == i32_layout(v) + y,
    ensures
        u == v,
        x == y,
{
    lemma_limits();
    lemma_le_bytes_split(i32_pattern(u), x, i32_pattern(v), y, 4);
}

/// SHA-256 gives two different byte strings the same digest.
pub open spec fn sha256_collides(x: Seq<u8>, y: Seq<u8>) -> bool {
    x != y && spec_sha256(x) == spec_sha256(y)
}

/// There are two different byte strings with the same SHA-256 digest.
pub open spec fn sha256_collision_exists() -> bool {
    exists|x: Seq<u8>, y: Seq<u8>| sha256_collides(x, y)
}

/// Every SHA-256 digest has 32 bytes.
pub open spec fn sha256_is_sized() -> bool {
    forall|x: Seq<u8>| (#[trigger] spec_sha256(x)).len() == 32
}

/// The hexadecimal text of a digest, as bytes.
pub open spec fn hex_bytes(digest: Seq<u8>) -> Seq<u8> {
    vstd::utf8::encode_utf8(upper_hex(digest))
}

/// The hexadecimal text of a byte string, taken as bytes, has two bytes for
/// each byte.
pub proof fn lemma_hex_bytes_len(digest: Seq<u8>)
    ensures
        hex_bytes(digest).len() == 2 * digest.len(),
{
    let text = upper_hex(digest);
    assert(vstd::utf8::is_ascii_chars(text)) by {
        assert forall|i: int| 0 <= i < text.len() implies 0 <= #[trigger] (text[i] as nat) < 128 by {
            let n = nibble(digest, i);
            assert(0 <= n < 16);
            assert(text[i] == hex_digit(n));
        }
    }
    vstd::utf8::is_ascii_chars_encode_utf8(text);
}

} // verus!
