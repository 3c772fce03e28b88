//! Canonical encoding (bincode, standard configuration) and SHA-256 hashing.
//!
//! Everything here is a thin trusted boundary around the `bincode`, `sha2` and `hex`
//! crates; the rest of the library is verified against the contracts stated here.
use vstd::prelude::*;
use vstd::utf8::encode_utf8;

verus! {

/// The error type of `bincode`'s encoders.
#[verifier::external_type_specification]
#[verifier::external_body]
pub struct ExEncodeError(bincode::error::EncodeError);

/// The error type of `bincode`'s decoders.
#[verifier::external_type_specification]
#[verifier::external_body]
pub struct ExDecodeError(bincode::error::DecodeError);

/// The SHA-256 digest of a byte string (what `sha2::Sha256::digest` returns).
pub uninterp spec fn sha256(data: Seq<u8>) -> Seq<u8>;

/// The `n` low-order bytes of `v`, least significant first.
pub open spec fn le_bytes(v: nat, n: nat) -> Seq<u8>
    decreases n,
{
    if n == 0 {
        Seq::empty()
    } else {
        seq![(v % 256) as u8] + le_bytes(v / 256, (n - 1) as nat)
    }
}

/// bincode's variable-length encoding of an unsigned integer (standard configuration):
/// values up to 250 as one byte; larger ones as a marker byte (251, 252 or 253) followed by
/// the value in 2, 4 or 8 little-endian bytes.
pub open spec fn varint(v: u64) -> Seq<u8> {
    if v <= 250 {
        seq![v as u8]
    } else if v <= 0xffff {
        seq![251u8] + le_bytes(v as nat, 2)
    } else if v <= 0xffff_ffff {
        seq![252u8] + le_bytes(v as nat, 4)
    } else {
        seq![253u8] + le_bytes(v as nat, 8)
    }
}

/// bincode's encoding of a string: its UTF-8 length as a varint, then its UTF-8 bytes.
pub open spec fn string_encoding(s: Seq<char>) -> Seq<u8> {
    varint(encode_utf8(s).len() as u64) + encode_utf8(s)
}

/// The bytes that `bincode::serde::encode_to_vec` produces, under
/// `bincode::config::standard()`, for the tuple `(sender, receiver, amount, nonce)`: the
/// fields' encodings one after another.
pub open spec fn transaction_encoding(
    sender: Seq<char>,
    receiver: Seq<char>,
    amount: u64,
    nonce: u64,
) -> Seq<u8> {
    string_encoding(sender) + string_encoding(receiver) + varint(amount) + varint(nonce)
}

/// The value of bytes read least significant first.
pub open spec fn le_value(bytes: Seq<u8>) -> nat
    decreases bytes.len(),
{
    if bytes.len() == 0 {
        0
    } else {
        (bytes[0] + 256 * le_value(bytes.drop_first())) as nat
    }
}

/// 256 to the power `n`.
pub open spec fn byte_power(n: nat) -> nat
    decreases n,
{
    if n == 0 {
        1
    } else {
        256 * byte_power((n - 1) as nat)
    }
}

/// How bincode's decoder (standard configuration) reads an unsigned varint at the front of
/// `bytes`: its value and the number of bytes it takes, or `None` where it fails (no bytes,
/// a marker byte of 254 or 255, or too few bytes after the marker).
pub open spec fn varint_read(bytes: Seq<u8>) -> Option<(nat, nat)> {
    if bytes.len() == 0 {
        None
    } else if bytes[0] <= 250 {
        Some((bytes[0] as nat, 1nat))
    } else if bytes[0] >= 254 {
        None
    } else {
        let w: nat = if bytes[0] == 251 {
            2
        } else if bytes[0] == 252 {
            4
        } else {
            8
        };
        if bytes.len() < 1 + w {
            None
        } else {
            Some((le_value(bytes.subrange(1, 1 + w as int)), 1 + w))
        }
    }
}

/// A string field at the front of `bytes` declares no more bytes than follow its length.
pub open spec fn string_length_fits(bytes: Seq<u8>) -> bool {
    match varint_read(bytes) {
        None => true,
        Some((len, width)) => width + len <= bytes.len(),
    }
}

/// The two string fields of an encoded transfer declare no more bytes than the input holds.
/// bincode's decoder allocates a string's declared length before reading it, so only such
/// input can be handed to it.
pub open spec fn transaction_lengths_fit(bytes: Seq<u8>) -> bool {
    &&& string_length_fits(bytes)
    &&& match varint_read(bytes) {
        None => true,
        Some((len, width)) => string_length_fits(bytes.skip((width + len) as int)),
    }
}

/// What `bincode::serde::decode_from_slice`, under `bincode::config::standard()`, decodes
/// from the front of `bytes` as a tuple `(String, String, u64, u64)`, or `None` where it fails.
pub uninterp spec fn transaction_decoding(bytes: Seq<u8>) -> Option<(Seq<char>, Seq<char>, u64, u64)>;

/// The bytes that `bincode::serde::encode_to_vec` produces, under
/// `bincode::config::standard()`, for the tuple
/// `(height, previous_hash, transaction_commitment, state_commitment)`: the height as a
/// varint, then the three 32-byte arrays byte for byte, without length prefixes.
pub open spec fn header_encoding(
    height: u64,
    previous_hash: Seq<u8>,
    transaction_commitment: Seq<u8>,
    state_commitment: Seq<u8>,
) -> Seq<u8> {
    varint(height) + previous_hash + transaction_commitment + state_commitment
}

/// The encodings of `(id, balance, nonce)` rows, one after another.
pub open spec fn rows_body_encoding(rows: Seq<(Seq<char>, u64, u64)>) -> Seq<u8>
    decreases rows.len(),
{
    if rows.len() == 0 {
        Seq::empty()
    } else {
        let row = rows.last();
        rows_body_encoding(rows.drop_last()) + string_encoding(row.0) + varint(row.1) + varint(
            row.2,
        )
    }
}

/// The bytes that `bincode::serde::encode_to_vec` produces, under
/// `bincode::config::standard()`, for a vector of `(id, balance, nonce)` rows: the number of
/// rows as a varint, then each row's encoding.
pub open spec fn account_rows_encoding(rows: Seq<(Seq<char>, u64, u64)>) -> Seq<u8> {
    varint(rows.len() as u64) + rows_body_encoding(rows)
}

/// The lower-case hexadecimal digit of a value below 16.
pub open spec fn hex_digit(v: int) -> char {
    if v < 10 {
        (48 + v) as char
    } else {
        (87 + v) as char
    }
}

/// Lower-case hexadecimal text of a byte string: two digits per byte, high nibble first.
pub open spec fn hex_lower(bytes: Seq<u8>) -> Seq<char>
    decreases bytes.len(),
{
    if bytes.len() == 0 {
        Seq::empty()
    } else {
        let b = bytes.last();
        hex_lower(bytes.drop_last()) + seq![hex_digit((b / 16) as int), hex_digit((b % 16) as int)]
    }
}

/// Calls `<sha2::Sha256 as sha2::Digest>::digest`. Claims only that the digest is the
/// SHA-256 of the input; SHA-256 itself is not stated.
#[verifier::external_body]
pub(crate) fn sha256_digest(data: &[u8]) -> (digest: [u8; 32])
    ensures
        digest@ == sha256(data@),
{
    <sha2::Sha256 as sha2::Digest>::digest(data).into()
}

/// Calls `bincode::serde::encode_to_vec` with the standard configuration on the tuple
/// `(sender, receiver, amount, nonce)`. Claims that it succeeds (the encoder writes into a
/// `Vec` without a size limit and strings and integers never make it fail) and that the
/// bytes are the stated encoding.
#[verifier::external_body]
pub(crate) fn encode_transaction_fields(
    sender: &str,
    receiver: &str,
    amount: u64,
    nonce: u64,
) -> (res: Result<Vec<u8>, bincode::error::EncodeError>)
    ensures
        res is Ok,
        res matches Ok(bytes) ==> bytes@ == transaction_encoding(sender@, receiver@, amount, nonce),
{
    bincode::serde::encode_to_vec((sender, receiver, amount, nonce), bincode::config::standard())
}

/// Calls `bincode::serde::decode_from_slice` with the standard configuration, decoding a
/// tuple `(String, String, u64, u64)` and dropping the count of bytes read. Claims that the
/// outcome is the named decoding, that bytes produced by the matching encoder decode back
/// to the values encoded, and that empty input, or input cut short of such an encoding, is
/// refused (the decoder reads the same fields and runs out of bytes). What it decodes from
/// other bytes is named, not stated. Input whose string fields declare more bytes than it
/// holds is left out: the decoder allocates the declared length first, which can panic.
#[verifier::external_body]
pub(crate) fn decode_transaction_fields(bytes: &[u8]) -> (res: Result<
    (String, String, u64, u64),
    bincode::error::DecodeError,
>)
    requires
        transaction_lengths_fit(bytes@),
    ensures
        res is Ok <==> transaction_decoding(bytes@) is Some,
        res matches Ok(v) ==> transaction_decoding(bytes@) == Some((v.0@, v.1@, v.2, v.3)),
        res matches Ok(v) ==> forall|s: Seq<char>, r: Seq<char>, a: u64, n: u64|
            bytes@ == #[trigger] transaction_encoding(s, r, a, n) ==> v.0@ == s && v.1@ == r
                && v.2 == a && v.3 == n,
        forall|s: Seq<char>, r: Seq<char>, a: u64, n: u64|
            bytes@ == #[trigger] transaction_encoding(s, r, a, n) ==> res is Ok,
        bytes@.len() == 0 ==> res is Err,
        forall|s: Seq<char>, r: Seq<char>, a: u64, n: u64|
            bytes@.len() < #[trigger] transaction_encoding(s, r, a, n).len() && bytes@
                == transaction_encoding(s, r, a, n).take(bytes@.len() as int) ==> res is Err,
{
    bincode::serde::decode_from_slice::<(String, String, u64, u64), _>(
        bytes,
        bincode::config::standard(),
    ).map(|(fields, _)| fields)
}

/// Calls `bincode::serde::encode_to_vec` with the standard configuration on the tuple
/// `(height, previous_hash, transaction_commitment, state_commitment)`. Claims that it
/// succeeds (see `encode_transaction_fields`) and that the bytes are the stated encoding.
#[verifier::external_body]
pub(crate) fn encode_header_fields(
    height: u64,
    previous_hash: &[u8; 32],
    transaction_commitment: &[u8; 32],
    state_commitment: &[u8; 32],
) -> (res: Result<Vec<u8>, bincode::error::EncodeError>)
    ensures
        res is Ok,
        res matches Ok(bytes) ==> bytes@ == header_encoding(
            height,
            previous_hash@,
            transaction_commitment@,
            state_commitment@,
        ),
{
    bincode::serde::encode_to_vec(
        (height, previous_hash, transaction_commitment, state_commitment),
        bincode::config::standard(),
    )
}

/// Calls `bincode::serde::encode_to_vec` with the standard configuration on a vector of
/// `(id, balance, nonce)` rows. Claims that it succeeds (see `encode_transaction_fields`)
/// and that the bytes are the stated encoding.
#[verifier::external_body]
pub(crate) fn encode_account_rows(rows: &Vec<(&str, u64, u64)>) -> (res: Result<
    Vec<u8>,
    bincode::error::EncodeError,
>)
    ensures
        res is Ok,
        res matches Ok(bytes) ==> bytes@ == account_rows_encoding(rows.deep_view()),
{
    bincode::serde::encode_to_vec(rows, bincode::config::standard())
}

/// Calls `hex::encode`, which writes each byte as two lower-case hexadecimal digits,
/// high nibble first.
#[verifier::external_body]
pub(crate) fn hex_encode(bytes: &[u8; 32]) -> (text: String)
    ensures
        text@ == hex_lower(bytes@),
{
    hex::encode(bytes)
}

proof fn lemma_le_value_bound(bytes: Seq<u8>)
    ensures
        le_value(bytes) < byte_power(bytes.len()),
    decreases bytes.len(),
{
    if bytes.len() > 0 {
        lemma_le_value_bound(bytes.drop_first());
    }
}

/// Reading back what `varint` wrote gives the value and the width of the encoding.
pub proof fn lemma_varint_read(v: u64, rest: Seq<u8>)
    ensures
        varint_read(varint(v) + rest) == Some((v as nat, varint(v).len())),
{
    let e = varint(v) + rest;
    if v > 250 {
        let w: nat = if v <= 0xffff {
            2
        } else if v <= 0xffff_ffff {
            4
        } else {
            8
        };
        reveal_with_fuel(byte_power, 9);
        lemma_le_value_le_bytes(v as nat, w);
        assert(varint(v) == seq![e[0]] + le_bytes(v as nat, w));
        assert(e.subrange(1, 1 + w as int) =~= le_bytes(v as nat, w));
    }
}

/// An encoded transfer of a size a machine can hold declares string lengths that fit.
pub proof fn lemma_encoding_lengths_fit(sender: Seq<char>, receiver: Seq<char>, amount: u64, nonce: u64)
    requires
        transaction_encoding(sender, receiver, amount, nonce).len() <= u64::MAX,
    ensures
        transaction_lengths_fit(transaction_encoding(sender, receiver, amount, nonce)),
{
    let bytes = transaction_encoding(sender, receiver, amount, nonce);
    let es = encode_utf8(sender);
    let er = encode_utf8(receiver);
    let tail = string_encoding(receiver) + varint(amount) + varint(nonce);
    let first = varint(es.len() as u64);
    assert(bytes =~= first + (es + tail));
    lemma_varint_read(es.len() as u64, es + tail);
    assert(bytes.skip((first.len() + es.len()) as int) =~= tail);
    let second = varint(er.len() as u64);
    assert(tail =~= second + (er + varint(amount) + varint(nonce)));
    lemma_varint_read(er.len() as u64, er + varint(amount) + varint(nonce));
}

proof fn lemma_le_value_le_bytes(v: nat, n: nat)
    requires
        v < byte_power(n),
    ensures
        le_bytes(v, n).len() == n,
        le_value(le_bytes(v, n)) == v,
    decreases n,
{
    if n > 0 {
        assert(v / 256 < byte_power((n - 1) as nat));
        lemma_le_value_le_bytes(v / 256, (n - 1) as nat);
        assert(le_bytes(v, n).drop_first() =~= le_bytes(v / 256, (n - 1) as nat));
    }
}

/// Reads a varint at position `at` of `bytes`, as bincode's decoder does.
fn read_varint(bytes: &[u8], at: usize) -> (r: Option<(u64, usize)>)
    requires
        at <= bytes@.len(),
    ensures
        match varint_read(bytes@.skip(at as int)) {
            None => r is None,
            Some((value, width)) => r matches Some((v, w)) && v == value && w == width,
        },
{
    let ghost s = bytes@.skip(at as int);
    if at >= bytes.len() {
        return None;
    }
    let first = bytes[at];
    assert(s[0] == first);
    if first <= 250 {
        return Some((first as u64, 1));
    }
    if first >= 254 {
        return None;
    }
    let width: usize = if first == 251 {
        2
    } else if first == 252 {
        4
    } else {
        8
    };
    if bytes.len() - at < 1 + width {
        return None;
    }
    let ghost digits = s.subrange(1, 1 + width as int);
    let mut value: u64 = 0;
    let mut j: usize = width;
    while j > 0
        invariant
            s == bytes@.skip(at as int),
            bytes@.len() <= usize::MAX,
            at + 1 + width <= bytes@.len(),
            width <= 8,
            j <= width,
            digits == s.subrange(1, 1 + width as int),
            value == le_value(digits.subrange(j as int, width as int)),
        decreases j,
    {
        let ghost tail = digits.subrange(j as int, width as int);
        let ghost next = digits.subrange(j - 1, width as int);
        proof {
            assert(next.drop_first() =~= tail);
            assert(next[0] == bytes@[at + j as int]);
            lemma_le_value_bound(next);
            reveal_with_fuel(byte_power, 9);
            assert(byte_power(next.len()) <= byte_power(8)) by {
                lemma_byte_power_monotone(next.len(), 8);
            }
        }
        value = bytes[at + j] as u64 + 256 * value;
        j = j - 1;
    }
    assert(digits.subrange(0, width as int) =~= digits);
    Some((value, 1 + width))
}

proof fn lemma_byte_power_monotone(a: nat, b: nat)
    requires
        a <= b,
    ensures
        byte_power(a) <= byte_power(b),
    decreases b,
{
    if a < b {
        lemma_byte_power_monotone(a, (b - 1) as nat);
    }
}

/// Whether the string fields of an encoded transfer declare no more bytes than it holds.
pub fn transaction_lengths_fit_in(bytes: &[u8]) -> (fit: bool)
    ensures
        fit == transaction_lengths_fit(bytes@),
{
    assert(bytes@.skip(0) =~= bytes@);
    match read_varint(bytes, 0) {
        None => true,
        Some((len, width)) => {
            if len > (bytes.len() - width) as u64 {
                return false;
            }
            let next = width + len as usize;
            match read_varint(bytes, next) {
                None => true,
                Some((len2, width2)) => len2 <= (bytes.len() - next - width2) as u64,
            }
        },
    }
}

/// A 32-byte SHA-256 digest.
#[derive(Debug, Clone, Copy, PartialEq, Eq, Hash)]
pub struct HashedId(pub [u8; 32]);

impl HashedId {
    /// The digest's bytes.
    pub fn as_bytes(&self) -> (bytes: &[u8; 32])
        ensures
            bytes@ == self.0@,
    {
        &self.0
    }
}

/// Hashes canonical bytes with SHA-256.
pub fn hash_canonical_bytes(bytes: &[u8]) -> (id: HashedId)
    ensures
        id.0@ == sha256(bytes@),
{
    HashedId(sha256_digest(bytes))
}

/// Whether two digests are equal, byte by byte.
pub fn same_digest(a: &[u8; 32], b: &[u8; 32]) -> (same: bool)
    ensures
        same == (a@ == b@),
{
    let mut i: usize = 0;
    while i < 32
        invariant
            i <= 32,
            a@.len() == 32,
            b@.len() == 32,
            forall|j: int| 0 <= j < i ==> a@[j] == b@[j],
        decreases 32 - i,
    {
        if a[i] != b[i] {
            return false;
        }
        i = i + 1;
    }
    assert(a@ =~= b@);
    true
}

} // verus!
