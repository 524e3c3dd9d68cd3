//! Rendering a digest as text: lowercase hexadecimal, or base64 with the
//! URL-safe alphabet and no padding.

use vstd::prelude::*;

verus! {

/// The lowercase hexadecimal digit for a value below 16.
pub open spec fn hex_digit(nibble: int) -> char
    recommends
        0 <= nibble < 16,
{
    if nibble < 10 {
        (nibble + '0' as u8) as u8 as char
    } else {
        (nibble - 10 + 'a' as u8) as u8 as char
    }
}

/// `data` in lowercase hexadecimal: two digits for each byte, the high half
/// of the byte first.
pub open spec fn hex_lower(data: Seq<u8>) -> Seq<char> {
    Seq::new(
        2 * data.len(),
        |i: int|
            if i % 2 == 0 {
                hex_digit(data[i / 2] as int / 16)
            } else {
                hex_digit(data[i / 2] as int % 16)
            },
    )
}

/// The value of a hexadecimal digit of either case.
pub open spec fn hex_value(digit: char) -> Option<int> {
    if '0' <= digit <= '9' {
        Some(digit as int - '0' as int)
    } else if 'a' <= digit <= 'f' {
        Some(digit as int - 'a' as int + 10)
    } else if 'A' <= digit <= 'F' {
        Some(digit as int - 'A' as int + 10)
    } else {
        None
    }
}

/// The bytes that a hexadecimal text stands for: one for each pair of
/// digits. A text of odd length, or with anything but digits in it, stands
/// for none.
pub open spec fn hex_decode(text: Seq<char>) -> Option<Seq<u8>> {
    if text.len() % 2 == 0 && forall|i: int|
        0 <= i < text.len() ==> (#[trigger] hex_value(text[i])) is Some {
        Some(
            Seq::new(
                text.len() / 2,
                |j: int|
                    (16 * hex_value(text[2 * j]).unwrap() + hex_value(
                        text[2 * j + 1],
                    ).unwrap()) as u8,
            ),
        )
    } else {
        None
    }
}

/// The symbol of the URL-safe base64 alphabet for a value below 64:
/// `A` to `Z`, `a` to `z`, `0` to `9`, then `-` and `_`.
pub open spec fn base64_symbol(sextet: int) -> char
    recommends
        0 <= sextet < 64,
{
    if sextet < 26 {
        (sextet + 'A' as u8) as u8 as char
    } else if sextet < 52 {
        (sextet - 26 + 'a' as u8) as u8 as char
    } else if sextet < 62 {
        (sextet - 52 + '0' as u8) as u8 as char
    } else if sextet == 62 {
        '-'
    } else {
        '_'
    }
}

/// The byte at `i`, and zero past the end of `data`.
pub open spec fn byte_or_zero(data: Seq<u8>, i: int) -> int {
    if 0 <= i < data.len() {
        data[i] as int
    } else {
        0
    }
}

/// The `k`th group of six bits of `data`, read as one string of bits with
/// zero bits after its end. Three bytes hold four groups.
pub open spec fn sextet_at(data: Seq<u8>, k: int) -> int {
    let first = 3 * (k / 4);
    if k % 4 == 0 {
        byte_or_zero(data, first) / 4
    } else if k % 4 == 1 {
        byte_or_zero(data, first) % 4 * 16 + byte_or_zero(data, first + 1) / 16
    } else if k % 4 == 2 {
        byte_or_zero(data, first + 1) % 16 * 4 + byte_or_zero(data, first + 2) / 64
    } else {
        byte_or_zero(data, first + 2) % 64
    }
}

/// `data` in base64 with the URL-safe alphabet and no padding: one symbol
/// for every group of six bits that holds a bit of `data`.
pub open spec fn base64_url(data: Seq<u8>) -> Seq<char> {
    Seq::new((4 * data.len() + 2) / 3, |k: int| base64_symbol(sextet_at(data, k)))
}

/// The value of a symbol of the URL-safe base64 alphabet.
pub open spec fn base64_value(symbol: char) -> Option<int> {
    if 'A' <= symbol <= 'Z' {
        Some(symbol as int - 'A' as int)
    } else if 'a' <= symbol <= 'z' {
        Some(symbol as int - 'a' as int + 26)
    } else if '0' <= symbol <= '9' {
        Some(symbol as int - '0' as int + 52)
    } else if symbol == '-' {
        Some(62)
    } else if symbol == '_' {
        Some(63)
    } else {
        None
    }
}

/// The value of the symbol at `k`, and zero where there is none.
pub open spec fn value_or_zero(text: Seq<char>, k: int) -> int {
    if 0 <= k < text.len() && base64_value(text[k]) is Some {
        base64_value(text[k]).unwrap()
    } else {
        0
    }
}

/// The `j`th byte that the symbols of `text` hold. Four symbols hold three
/// bytes.
pub open spec fn octet_at(text: Seq<char>, j: int) -> int {
    let first = 4 * (j / 3);
    if j % 3 == 0 {
        value_or_zero(text, first) * 4 + value_or_zero(text, first + 1) / 16
    } else if j % 3 == 1 {
        value_or_zero(text, first + 1) % 16 * 16 + value_or_zero(text, first + 2) / 4
    } else {
        value_or_zero(text, first + 2) % 4 * 64 + value_or_zero(text, first + 3)
    }
}

/// The bytes that an unpadded URL-safe base64 text stands for. A text whose
/// length is one more than a multiple of four, one with anything but
/// symbols of the alphabet in it, or one whose last symbol holds bits that
/// belong to no byte, stands for none.
pub open spec fn base64_url_decode(text: Seq<char>) -> Option<Seq<u8>> {
    let len = text.len() as int;
    if len % 4 != 1 && (forall|k: int|
        0 <= k < text.len() ==> (#[trigger] base64_value(text[k])) is Some) && (len % 4 == 2
        ==> value_or_zero(text, len - 1) % 16 == 0) && (len % 4 == 3 ==> value_or_zero(
        text,
        len - 1,
    ) % 4 == 0) {
        Some(Seq::new((3 * text.len() / 4) as nat, |j: int| octet_at(text, j) as u8))
    } else {
        None
    }
}

/// A digest as text: in hexadecimal where `hex` is set, else in base64.
pub open spec fn encoded(digest: Seq<u8>, hex: bool) -> Seq<char> {
    if hex {
        hex_lower(digest)
    } else {
        base64_url(digest)
    }
}

/// Calls `hex::encode`.
///
/// Trusted: the result is `data` in lowercase hexadecimal, two digits for
/// each byte, high half first. Left out are inputs so long that twice their
/// length does not fit in `usize`, on which the crate's length arithmetic
/// overflows.
#[verifier::external_body]
fn hex_encode(data: &[u8]) -> (text: String)
    requires
        2 * data@.len() <= usize::MAX,
    ensures
        text@ == hex_lower(data@),
{
    hex::encode(data)
}

/// Calls `base64::encode_config` with `base64::URL_SAFE_NO_PAD`.
///
/// Trusted: the result is `data` in base64 with the URL-safe alphabet and
/// without padding. Left out are inputs whose encoded length does not fit
/// in `usize`, on which the crate panics.
#[verifier::external_body]
fn base64_encode(data: &[u8]) -> (text: String)
    requires
        data@.len() / 3 * 4 + 3 <= usize::MAX,
    ensures
        text@ == base64_url(data@),
{
    base64::encode_config(data, base64::URL_SAFE_NO_PAD)
}

/// Renders a digest in lowercase hexadecimal where `hex` is set, and else in
/// URL-safe base64 without padding.
pub fn encode_digest(digest: &[u8], hex: bool) -> (text: String)
    requires
        2 * digest@.len() <= usize::MAX,
    ensures
        text@ == encoded(digest@, hex),
{
    if hex {
        hex_encode(digest)
    } else {
        base64_encode(digest)
    }
}

/// Decoding the hexadecimal text of some bytes gives those bytes back.
pub proof fn lemma_hex_round_trip(data: Seq<u8>)
    ensures
        hex_decode(hex_lower(data)) == Some(data),
{
    let text = hex_lower(data);
    assert forall|i: int| 0 <= i < text.len() implies (#[trigger] hex_value(text[i])) is Some by {
        let byte = data[i / 2] as int;
        assert(0 <= byte / 16 < 16 && 0 <= byte % 16 < 16);
    }
    let bytes = hex_decode(text).unwrap();
    assert forall|j: int| 0 <= j < data.len() implies bytes[j] == data[j] by {
        let byte = data[j] as int;
        assert(0 <= byte / 16 < 16 && 0 <= byte % 16 < 16);
        assert(hex_value(text[2 * j]) == Some(byte / 16));
        assert(hex_value(text[2 * j + 1]) == Some(byte % 16));
    }
    assert(bytes =~= data);
}

/// The value of the symbol for a sextet is that sextet.
pub proof fn lemma_base64_symbol_value(sextet: int)
    requires
        0 <= sextet < 64,
    ensures
        base64_value(base64_symbol(sextet)) == Some(sextet),
{
}

/// The four sextets of a group of three bytes, in terms of those bytes.
proof fn lemma_sextets_of_group(data: Seq<u8>, group: int)
    requires
        0 <= group,
    ensures
        sextet_at(data, 4 * group) == byte_or_zero(data, 3 * group) / 4,
        sextet_at(data, 4 * group + 1) == byte_or_zero(data, 3 * group) % 4 * 16 + byte_or_zero(
            data,
            3 * group + 1,
        ) / 16,
        sextet_at(data, 4 * group + 2) == byte_or_zero(data, 3 * group + 1) % 16 * 4
            + byte_or_zero(data, 3 * group + 2) / 64,
        sextet_at(data, 4 * group + 3) == byte_or_zero(data, 3 * group + 2) % 64,
{
    assert((4 * group) / 4 == group && (4 * group) % 4 == 0);
    assert((4 * group + 1) / 4 == group && (4 * group + 1) % 4 == 1);
    assert((4 * group + 2) / 4 == group && (4 * group + 2) % 4 == 2);
    assert((4 * group + 3) / 4 == group && (4 * group + 3) % 4 == 3);
}

/// A byte put together again from the sextets that hold its bits.
proof fn lemma_octet_of_sextets(data: Seq<u8>, j: int)
    requires
        0 <= j < data.len(),
    ensures
        j % 3 == 0 ==> data[j] == sextet_at(data, 4 * (j / 3)) * 4 + sextet_at(
            data,
            4 * (j / 3) + 1,
        ) / 16,
        j % 3 == 1 ==> data[j] == sextet_at(data, 4 * (j / 3) + 1) % 16 * 16 + sextet_at(
            data,
            4 * (j / 3) + 2,
        ) / 4,
        j % 3 == 2 ==> data[j] == sextet_at(data, 4 * (j / 3) + 2) % 4 * 64 + sextet_at(
            data,
            4 * (j / 3) + 3,
        ),
{
    let group = j / 3;
    lemma_sextets_of_group(data, group);
    let b0 = byte_or_zero(data, 3 * group);
    let b1 = byte_or_zero(data, 3 * group + 1);
    let b2 = byte_or_zero(data, 3 * group + 2);
    assert(0 <= b0 < 256 && 0 <= b1 < 256 && 0 <= b2 < 256);
    if j % 3 == 0 {
        assert(b0 == data[j]);
        assert(b0 / 4 * 4 + (b0 % 4 * 16 + b1 / 16) / 16 == b0);
    } else if j % 3 == 1 {
        assert(b1 == data[j]);
        assert((b0 % 4 * 16 + b1 / 16) % 16 * 16 + (b1 % 16 * 4 + b2 / 64) / 4 == b1);
    } else {
        assert(b2 == data[j]);
        assert((b1 % 16 * 4 + b2 / 64) % 4 * 64 + b2 % 64 == b2);
    }
}

/// Each symbol of a base64 text has the value of the sextet it was made
/// from, which is below 64.
proof fn lemma_base64_values(data: Seq<u8>, k: int)
    requires
        0 <= k < base64_url(data).len(),
    ensures
        0 <= sextet_at(data, k) < 64,
        base64_value(base64_url(data)[k]) == Some(sextet_at(data, k)),
        value_or_zero(base64_url(data), k) == sextet_at(data, k),
{
    lemma_base64_symbol_value(sextet_at(data, k));
}

/// The last symbol of a base64 text holds no bit beyond the last byte.
proof fn lemma_base64_last_symbol(data: Seq<u8>)
    ensures
        base64_url(data).len() % 4 != 1,
        base64_url(data).len() % 4 == 2 ==> sextet_at(data, base64_url(data).len() - 1) % 16
            == 0,
        base64_url(data).len() % 4 == 3 ==> sextet_at(data, base64_url(data).len() - 1) % 4
            == 0,
{
    let groups = data.len() as int / 3;
    lemma_sextets_of_group(data, groups);
    if data.len() % 3 == 1 {
        assert(base64_url(data).len() == 4 * groups + 2);
    } else if data.len() % 3 == 2 {
        assert(base64_url(data).len() == 4 * groups + 3);
    } else {
        assert(base64_url(data).len() == 4 * groups);
    }
}

/// Decoding the base64 text of some bytes gives those bytes back.
pub proof fn lemma_base64_round_trip(data: Seq<u8>)
    ensures
        base64_url_decode(base64_url(data)) == Some(data),
{
    let text = base64_url(data);
    let len = text.len() as int;
    assert forall|k: int| 0 <= k < text.len() implies (#[trigger] base64_value(text[k]))
        is Some by {
        lemma_base64_values(data, k);
    }
    lemma_base64_last_symbol(data);
    if len % 4 != 0 {
        lemma_base64_values(data, len - 1);
    }
    assert(3 * len / 4 == data.len());
    let bytes = base64_url_decode(text).unwrap();
    assert forall|j: int| 0 <= j < data.len() implies bytes[j] == data[j] by {
        let first = 4 * (j / 3);
        lemma_octet_of_sextets(data, j);
        lemma_base64_values(data, first);
        lemma_base64_values(data, first + 1);
        if j % 3 >= 1 {
            lemma_base64_values(data, first + 2);
        }
        if j % 3 == 2 {
            lemma_base64_values(data, first + 3);
        }
    }
    assert(bytes =~= data);
}

/// Both renderings of a digest stand for the digest: whichever was chosen,
/// decoding it gives the same bytes back.
pub proof fn lemma_encodings_round_trip(digest: Seq<u8>)
    ensures
        hex_decode(encoded(digest, true)) == Some(digest),
        base64_url_decode(encoded(digest, false)) == Some(digest),
{
    lemma_hex_round_trip(digest);
    lemma_base64_round_trip(digest);
}

} // verus!
