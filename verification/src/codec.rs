//! The wire codec: every request and response is serialized to a
//! self-describing binary payload, sent as a 4-byte big-endian length prefix
//! followed by exactly that many payload bytes. Frames are not compressed.
//!
//! Characters travel as their 32-bit scalar values, lengths as 64-bit
//! big-endian counts, so encoding is canonical and decoding inverts it
//! exactly; the proofs below establish that round trip.

use vstd::prelude::*;
use vstd::arithmetic::div_mod::{lemma_div_denominator, lemma_fundamental_div_mod};
use vstd::utf8::{char_is_scalar, char_u32_cast};
use crate::errors::KvError;
use crate::value::{KvpairV, ValueV};
use crate::command::{keys_view, pairs_view, CommandRequest, ReqV};
use crate::value::{Kvpair, Value};
use vstd::string::{StrSliceExecFns, StringExecFns};
use crate::response::{CommandResponse, RespV};

verus! {

/// The four big-endian bytes of a 32-bit value.
#[verifier::opaque]
pub open spec fn be32(n: u32) -> Seq<u8> {
    seq![
        (n / 0x1000000) as u8,
        ((n / 0x10000) % 256) as u8,
        ((n / 256) % 256) as u8,
        (n % 256) as u8,
    ]
}

/// The 32-bit value of the first four bytes, big-endian.
#[verifier::opaque]
pub open spec fn be32_val(b: Seq<u8>) -> u32 {
    ((b[0] as int) * 0x1000000 + (b[1] as int) * 0x10000 + (b[2] as int) * 256 + (b[3] as int)) as u32
}

/// A 32-bit value encodes to four bytes.
pub proof fn lemma_be32_len(n: u32)
    ensures
        be32(n).len() == 4,
{
    reveal(be32);
}

/// A 64-bit value encodes to eight bytes.
pub proof fn lemma_be64_len(n: u64)
    ensures
        be64(n).len() == 8,
{
    lemma_be32_len((n / 0x100000000) as u32);
    lemma_be32_len((n % 0x100000000) as u32);
}

/// Decode a 32-bit big-endian value from the front of `b`.
pub open spec fn dec_u32(b: Seq<u8>) -> Option<(u32, int)> {
    if b.len() >= 4 {
        Some((be32_val(b), 4int))
    } else {
        None
    }
}

/// The division facts behind the byte decomposition of a 32-bit value.
proof fn lemma_be32_digits(n: u32)
    ensures
        0 <= (n as int) / 0x1000000 < 256,
        (n as int) == ((n as int) / 0x1000000) * 0x1000000 + (((n as int) / 0x10000) % 256)
            * 0x10000 + (((n as int) / 256) % 256) * 256 + ((n as int) % 256),
{
    let x = n as int;
    lemma_fundamental_div_mod(x, 256);
    lemma_fundamental_div_mod(x / 256, 256);
    lemma_fundamental_div_mod(x / 0x10000, 256);
    lemma_fundamental_div_mod(x, 0x1000000);
    lemma_div_denominator(x, 256, 256);
    lemma_div_denominator(x, 0x10000, 256);
}

/// Reading back the four bytes of a value yields the value.
pub proof fn lemma_dec_enc_u32(n: u32, rest: Seq<u8>)
    ensures
        dec_u32(be32(n) + rest) == Some((n, 4int)),
{
    reveal(be32);
    reveal(be32_val);
    let b = be32(n) + rest;
    lemma_be32_digits(n);
    assert(b[0] == (n / 0x1000000) as u8);
    assert(b[1] == ((n / 0x10000) % 256) as u8);
    assert(b[2] == ((n / 256) % 256) as u8);
    assert(b[3] == (n % 256) as u8);
    assert(be32_val(b) == n);
}

/// The eight big-endian bytes of a 64-bit value: high half, then low half.
pub open spec fn be64(n: u64) -> Seq<u8> {
    be32((n / 0x100000000) as u32) + be32((n % 0x100000000) as u32)
}

/// The 64-bit value of the first eight bytes, big-endian.
pub open spec fn be64_val(b: Seq<u8>) -> u64 {
    ((be32_val(b) as int) * 0x100000000 + (be32_val(b.skip(4)) as int)) as u64
}

/// Decode a 64-bit big-endian value from the front of `b`.
pub open spec fn dec_u64(b: Seq<u8>) -> Option<(u64, int)> {
    if b.len() >= 8 {
        Some((be64_val(b), 8int))
    } else {
        None
    }
}

/// Reading back the eight bytes of a value yields the value.
pub proof fn lemma_dec_enc_u64(n: u64, rest: Seq<u8>)
    ensures
        dec_u64(be64(n) + rest) == Some((n, 8int)),
{
    let hi = (n / 0x100000000) as u32;
    let lo = (n % 0x100000000) as u32;
    lemma_be32_len(hi);
    lemma_be32_len(lo);
    let b = be64(n) + rest;
    assert(b =~= be32(hi) + (be32(lo) + rest));
    lemma_dec_enc_u32(hi, be32(lo) + rest);
    assert(be32_val(b) == hi);
    assert(b.skip(4) =~= be32(lo) + rest);
    lemma_dec_enc_u32(lo, rest);
    assert(be32_val(b.skip(4)) == lo);
    lemma_fundamental_div_mod(n as int, 0x100000000);
}

/// One byte for a boolean.
pub open spec fn enc_bool(v: bool) -> Seq<u8> {
    if v {
        seq![1u8]
    } else {
        seq![0u8]
    }
}

/// Decode a boolean; any byte besides 0 and 1 is corrupt.
pub open spec fn dec_bool(b: Seq<u8>) -> Option<(bool, int)> {
    if b.len() >= 1 {
        if b[0] == 1u8 {
            Some((true, 1int))
        } else if b[0] == 0u8 {
            Some((false, 1int))
        } else {
            None
        }
    } else {
        None
    }
}

/// Reading back an encoded boolean yields it.
pub proof fn lemma_dec_enc_bool(v: bool, rest: Seq<u8>)
    ensures
        dec_bool(enc_bool(v) + rest) == Some((v, 1int)),
{
}

/// A sign byte and the eight bytes of the magnitude: a non-negative value
/// travels as itself, a negative one as its absolute value.
pub open spec fn enc_i64(i: i64) -> Seq<u8> {
    if i >= 0 {
        seq![0u8] + be64(i as u64)
    } else {
        seq![1u8] + be64((-(i as int)) as u64)
    }
}

/// Decode a signed 64-bit value; a magnitude outside the signed range, a
/// negative zero, or an unknown sign byte is corrupt.
pub open spec fn dec_i64(b: Seq<u8>) -> Option<(i64, int)> {
    if b.len() >= 1 {
        match dec_u64(b.skip(1)) {
            Some((m, _)) => {
                if b[0] == 0u8 {
                    if m <= i64::MAX as u64 {
                        Some((m as i64, 9int))
                    } else {
                        None
                    }
                } else if b[0] == 1u8 {
                    if 1 <= m <= 0x8000000000000000u64 {
                        Some(((-(m as int)) as i64, 9int))
                    } else {
                        None
                    }
                } else {
                    None
                }
            },
            None => None,
        }
    } else {
        None
    }
}

/// Reading back an encoded signed value yields it.
pub proof fn lemma_dec_enc_i64(i: i64, rest: Seq<u8>)
    ensures
        dec_i64(enc_i64(i) + rest) == Some((i, 9int)),
{
    if i >= 0 {
        let b = enc_i64(i) + rest;
        lemma_be64_len(i as u64);
        assert(b.skip(1) =~= be64(i as u64) + rest);
        lemma_dec_enc_u64(i as u64, rest);
    } else {
        let m = (-(i as int)) as u64;
        let b = enc_i64(i) + rest;
        lemma_be64_len(m);
        assert(b.skip(1) =~= be64(m) + rest);
        lemma_dec_enc_u64(m, rest);
    }
}

/// A 32-bit value that is a Unicode scalar value, so it is some `char`.
pub open spec fn scalar_char(u: u32) -> bool {
    u < 0xD800 || (0xE000 <= u && u <= 0x10FFFF)
}

/// Each character as its 32-bit scalar value, four bytes apiece.
pub open spec fn enc_chars(s: Seq<char>) -> Seq<u8>
    decreases s.len(),
{
    if s.len() == 0 {
        Seq::empty()
    } else {
        be32(s[0] as u32) + enc_chars(s.drop_first())
    }
}

/// Decode exactly `n` characters; a value that is no Unicode scalar value
/// is corrupt.
pub open spec fn dec_chars(b: Seq<u8>, n: nat) -> Option<(Seq<char>, int)>
    decreases n,
{
    if n == 0 {
        Some((Seq::empty(), 0int))
    } else {
        match dec_u32(b) {
            Some((u, _)) => {
                if scalar_char(u) {
                    match dec_chars(b.skip(4), (n - 1) as nat) {
                        Some((s, used)) => Some((seq![u as char] + s, 4 + used)),
                        None => None,
                    }
                } else {
                    None
                }
            },
            None => None,
        }
    }
}

/// An encoding holds four bytes per character.
pub proof fn lemma_enc_chars_len(s: Seq<char>)
    ensures
        enc_chars(s).len() == 4 * s.len(),
    decreases s.len(),
{
    if s.len() > 0 {
        lemma_be32_len(s[0] as u32);
        lemma_enc_chars_len(s.drop_first());
    }
}

/// Appending one character extends the encoding by its four bytes.
#[verifier::rlimit(100)]
pub proof fn lemma_enc_chars_push(s: Seq<char>, c: char)
    ensures
        enc_chars(s.push(c)) =~= enc_chars(s) + be32(c as u32),
    decreases s.len(),
{
    lemma_enc_chars_len(s);
    lemma_enc_chars_len(s.push(c));
    lemma_be32_len(c as u32);
    if s.len() == 0 {
        assert(s.push(c)[0] == c);
        assert(s.push(c).drop_first() =~= Seq::<char>::empty());
    } else {
        lemma_be32_len(s[0] as u32);
        assert(s.push(c)[0] == s[0]);
        assert(s.push(c).drop_first() =~= s.drop_first().push(c));
        lemma_enc_chars_push(s.drop_first(), c);
    }
}

/// Reading back encoded characters yields them.
pub proof fn lemma_dec_enc_chars(s: Seq<char>, rest: Seq<u8>)
    ensures
        dec_chars(enc_chars(s) + rest, s.len()) == Some((s, 4 * s.len() as int)),
    decreases s.len(),
{
    if s.len() == 0 {
        assert(enc_chars(s) + rest =~= rest);
    } else {
        let u = s[0] as u32;
        lemma_be32_len(u);
        let b = enc_chars(s) + rest;
        assert(b =~= be32(u) + (enc_chars(s.drop_first()) + rest));
        lemma_dec_enc_u32(u, enc_chars(s.drop_first()) + rest);
        char_is_scalar(s[0]);
        assert(scalar_char(u));
        char_u32_cast(s[0], u);
        assert(b.skip(4) =~= enc_chars(s.drop_first()) + rest);
        lemma_dec_enc_chars(s.drop_first(), rest);
        assert(seq![u as char] + s.drop_first() =~= s);
    }
}

/// A string's length fits the 64-bit count its encoding carries; every
/// string an execution can hold satisfies this.
pub open spec fn str_wf(s: Seq<char>) -> bool {
    s.len() <= u64::MAX
}

/// A 64-bit character count, then the characters.
pub open spec fn enc_str(s: Seq<char>) -> Seq<u8> {
    be64(s.len() as u64) + enc_chars(s)
}

/// Decode a string from the front of `b`.
pub open spec fn dec_str(b: Seq<u8>) -> Option<(Seq<char>, int)> {
    match dec_u64(b) {
        Some((m, _)) => {
            match dec_chars(b.skip(8), m as nat) {
                Some((s, used)) => Some((s, 8 + used)),
                None => None,
            }
        },
        None => None,
    }
}

/// Reading back an encoded string yields it.
pub proof fn lemma_dec_enc_str(s: Seq<char>, rest: Seq<u8>)
    requires
        str_wf(s),
    ensures
        dec_str(enc_str(s) + rest) == Some((s, 8 + 4 * s.len() as int)),
{
    let b = enc_str(s) + rest;
    lemma_be64_len(s.len() as u64);
    lemma_enc_chars_len(s);
    assert(b =~= be64(s.len() as u64) + (enc_chars(s) + rest));
    lemma_dec_enc_u64(s.len() as u64, enc_chars(s) + rest);
    assert(b.skip(8) =~= enc_chars(s) + rest);
    lemma_dec_enc_chars(s, rest);
}

/// A string encoding's size: eight count bytes and four per character.
pub proof fn lemma_enc_str_len(s: Seq<char>)
    ensures
        enc_str(s).len() == 8 + 4 * s.len(),
{
    lemma_be64_len(s.len() as u64);
    lemma_enc_chars_len(s);
}

/// A byte payload's length fits its 64-bit count.
pub open spec fn bytes_wf(d: Seq<u8>) -> bool {
    d.len() <= u64::MAX
}

/// A 64-bit byte count, then the raw bytes.
pub open spec fn enc_bytes(d: Seq<u8>) -> Seq<u8> {
    be64(d.len() as u64) + d
}

/// Decode a byte payload from the front of `b`.
pub open spec fn dec_bytes(b: Seq<u8>) -> Option<(Seq<u8>, int)> {
    match dec_u64(b) {
        Some((m, _)) => {
            if b.skip(8).len() >= m {
                Some((b.skip(8).take(m as int), 8 + m as int))
            } else {
                None
            }
        },
        None => None,
    }
}

/// Reading back an encoded byte payload yields it.
pub proof fn lemma_dec_enc_bytes(d: Seq<u8>, rest: Seq<u8>)
    requires
        bytes_wf(d),
    ensures
        dec_bytes(enc_bytes(d) + rest) == Some((d, 8 + d.len() as int)),
{
    let b = enc_bytes(d) + rest;
    lemma_be64_len(d.len() as u64);
    assert(b =~= be64(d.len() as u64) + (d + rest));
    lemma_dec_enc_u64(d.len() as u64, d + rest);
    assert(b.skip(8) =~= d + rest);
    assert(b.skip(8).take(d.len() as int) =~= d);
}

/// A value whose variable-sized payloads fit their length prefixes; every
/// value an execution can hold satisfies this.
pub open spec fn value_wf(v: ValueV) -> bool {
    match v {
        ValueV::Str(s) => str_wf(s),
        ValueV::Bytes(d) => bytes_wf(d),
        _ => true,
    }
}

/// A tag byte, then the variant's payload.
pub open spec fn enc_value(v: ValueV) -> Seq<u8> {
    match v {
        ValueV::Unit => seq![0u8],
        ValueV::Bool(x) => seq![1u8] + enc_bool(x),
        ValueV::Integer(x) => seq![2u8] + enc_i64(x),
        ValueV::Float(x) => seq![3u8] + be64(x),
        ValueV::Str(s) => seq![4u8] + enc_str(s),
        ValueV::Bytes(d) => seq![5u8] + enc_bytes(d),
    }
}

/// Decode a value from the front of `b`; an unknown tag is corrupt.
pub open spec fn dec_value(b: Seq<u8>) -> Option<(ValueV, int)> {
    if b.len() < 1 {
        None
    } else if b[0] == 0u8 {
        Some((ValueV::Unit, 1int))
    } else if b[0] == 1u8 {
        match dec_bool(b.skip(1)) {
            Some((x, u)) => Some((ValueV::Bool(x), 1 + u)),
            None => None,
        }
    } else if b[0] == 2u8 {
        match dec_i64(b.skip(1)) {
            Some((x, u)) => Some((ValueV::Integer(x), 1 + u)),
            None => None,
        }
    } else if b[0] == 3u8 {
        match dec_u64(b.skip(1)) {
            Some((x, u)) => Some((ValueV::Float(x), 1 + u)),
            None => None,
        }
    } else if b[0] == 4u8 {
        match dec_str(b.skip(1)) {
            Some((x, u)) => Some((ValueV::Str(x), 1 + u)),
            None => None,
        }
    } else if b[0] == 5u8 {
        match dec_bytes(b.skip(1)) {
            Some((x, u)) => Some((ValueV::Bytes(x), 1 + u)),
            None => None,
        }
    } else {
        None
    }
}

/// Reading back an encoded value yields it.
#[verifier::rlimit(100)]
pub proof fn lemma_dec_enc_value(v: ValueV, rest: Seq<u8>)
    requires
        value_wf(v),
    ensures
        dec_value(enc_value(v) + rest) == Some((v, enc_value(v).len() as int)),
{
    let b = enc_value(v) + rest;
    lemma_enc_value_len(v);
    match v {
        ValueV::Unit => {},
        ValueV::Bool(x) => {
            assert(b.skip(1) =~= enc_bool(x) + rest);
            lemma_dec_enc_bool(x, rest);
        },
        ValueV::Integer(x) => {
            assert(b.skip(1) =~= enc_i64(x) + rest);
            lemma_dec_enc_i64(x, rest);
        },
        ValueV::Float(x) => {
            assert(b.skip(1) =~= be64(x) + rest);
            lemma_dec_enc_u64(x, rest);
        },
        ValueV::Str(s) => {
            assert(b.skip(1) =~= enc_str(s) + rest);
            lemma_dec_enc_str(s, rest);
        },
        ValueV::Bytes(d) => {
            assert(b.skip(1) =~= enc_bytes(d) + rest);
            lemma_dec_enc_bytes(d, rest);
        },
    }
}

/// A value encoding is its tag byte and its payload.
pub proof fn lemma_enc_value_len(v: ValueV)
    ensures
        enc_value(v).len() == 1 + (match v {
            ValueV::Unit => 0int,
            ValueV::Bool(_) => 1int,
            ValueV::Integer(_) => 9int,
            ValueV::Float(_) => 8int,
            ValueV::Str(s) => 8 + 4 * s.len() as int,
            ValueV::Bytes(d) => 8 + d.len() as int,
        }),
{
    match v {
        ValueV::Str(s) => {
            lemma_enc_str_len(s);
        },
        ValueV::Integer(x) => {
            if x >= 0 {
                lemma_be64_len(x as u64);
            } else {
                lemma_be64_len((-(x as int)) as u64);
            }
        },
        ValueV::Float(x) => {
            lemma_be64_len(x);
        },
        ValueV::Bytes(d) => {
            lemma_be64_len(d.len() as u64);
        },
        _ => {},
    }
}

/// A pair both of whose parts fit their length prefixes.
pub open spec fn pair_wf(p: KvpairV) -> bool {
    str_wf(p.key) && value_wf(p.value)
}

/// The key, then the value.
pub open spec fn enc_pair(p: KvpairV) -> Seq<u8> {
    enc_str(p.key) + enc_value(p.value)
}

/// Decode a pair from the front of `b`.
pub open spec fn dec_pair(b: Seq<u8>) -> Option<(KvpairV, int)> {
    match dec_str(b) {
        Some((k, u1)) => {
            match dec_value(b.skip(u1)) {
                Some((v, u2)) => Some((KvpairV { key: k, value: v }, u1 + u2)),
                None => None,
            }
        },
        None => None,
    }
}

/// Reading back an encoded pair yields it.
#[verifier::rlimit(100)]
pub proof fn lemma_dec_enc_pair(p: KvpairV, rest: Seq<u8>)
    requires
        pair_wf(p),
    ensures
        dec_pair(enc_pair(p) + rest) == Some((p, enc_pair(p).len() as int)),
{
    let b = enc_pair(p) + rest;
    lemma_enc_str_len(p.key);
    assert(b =~= enc_str(p.key) + (enc_value(p.value) + rest));
    lemma_dec_enc_str(p.key, enc_value(p.value) + rest);
    assert(b.skip(8 + 4 * p.key.len() as int) =~= enc_value(p.value) + rest);
    lemma_dec_enc_value(p.value, rest);
}

/// A pair encoding is its key's bytes and its value's bytes.
pub proof fn lemma_enc_pair_len(p: KvpairV)
    ensures
        enc_pair(p).len() == enc_str(p.key).len() + enc_value(p.value).len(),
{
}

/// The items of a string list, in order.
pub open spec fn enc_str_items(ks: Seq<Seq<char>>) -> Seq<u8>
    decreases ks.len(),
{
    if ks.len() == 0 {
        Seq::empty()
    } else {
        enc_str(ks[0]) + enc_str_items(ks.drop_first())
    }
}

/// A 64-bit item count, then the items.
pub open spec fn enc_str_list(ks: Seq<Seq<char>>) -> Seq<u8> {
    be64(ks.len() as u64) + enc_str_items(ks)
}

/// Every string of the list, and the list itself, fits its length prefix.
pub open spec fn str_list_wf(ks: Seq<Seq<char>>) -> bool {
    ks.len() <= u64::MAX && forall|i: int| 0 <= i < ks.len() ==> str_wf(#[trigger] ks[i])
}

/// Decode exactly `n` strings from the front of `b`.
pub open spec fn dec_str_items(b: Seq<u8>, n: nat) -> Option<(Seq<Seq<char>>, int)>
    decreases n,
{
    if n == 0 {
        Some((Seq::empty(), 0int))
    } else {
        match dec_str(b) {
            Some((k, u1)) => {
                match dec_str_items(b.skip(u1), (n - 1) as nat) {
                    Some((ks, u2)) => Some((seq![k] + ks, u1 + u2)),
                    None => None,
                }
            },
            None => None,
        }
    }
}

/// Decode a string list from the front of `b`.
pub open spec fn dec_str_list(b: Seq<u8>) -> Option<(Seq<Seq<char>>, int)> {
    match dec_u64(b) {
        Some((m, _)) => {
            match dec_str_items(b.skip(8), m as nat) {
                Some((ks, u)) => Some((ks, 8 + u)),
                None => None,
            }
        },
        None => None,
    }
}

/// Appending one string extends the item encoding by that string's bytes.
#[verifier::rlimit(100)]
pub proof fn lemma_enc_str_items_push(ks: Seq<Seq<char>>, k: Seq<char>)
    ensures
        enc_str_items(ks.push(k)) =~= enc_str_items(ks) + enc_str(k),
    decreases ks.len(),
{
    lemma_enc_str_len(k);
    if ks.len() == 0 {
        assert(ks.push(k)[0] == k);
        assert(ks.push(k).drop_first() =~= Seq::<Seq<char>>::empty());
        assert(enc_str(k) + Seq::<u8>::empty() =~= Seq::<u8>::empty() + enc_str(k));
        reveal_with_fuel(enc_str_items, 2);
        assert(enc_str_items(ks) =~= Seq::<u8>::empty());
        assert(enc_str_items(ks.push(k)) == enc_str(k) + Seq::<u8>::empty());
    } else {
        lemma_enc_str_len(ks[0]);
        assert(ks.push(k)[0] == ks[0]);
        assert(ks.push(k).drop_first() =~= ks.drop_first().push(k));
        lemma_enc_str_items_push(ks.drop_first(), k);
        assert(enc_str_items(ks.push(k)) == enc_str(ks[0]) + (enc_str_items(ks.drop_first())
            + enc_str(k)));
        assert(enc_str(ks[0]) + (enc_str_items(ks.drop_first()) + enc_str(k)) =~= (enc_str(ks[0])
            + enc_str_items(ks.drop_first())) + enc_str(k));
        assert(enc_str_items(ks) == enc_str(ks[0]) + enc_str_items(ks.drop_first()));
    }
}

/// Reading back encoded string items yields them.
#[verifier::rlimit(100)]
pub proof fn lemma_dec_enc_str_items(ks: Seq<Seq<char>>, rest: Seq<u8>)
    requires
        forall|i: int| 0 <= i < ks.len() ==> str_wf(#[trigger] ks[i]),
    ensures
        dec_str_items(enc_str_items(ks) + rest, ks.len()) == Some((
            ks,
            enc_str_items(ks).len() as int,
        )),
    decreases ks.len(),
{
    if ks.len() == 0 {
        assert(enc_str_items(ks) + rest =~= rest);
    } else {
        let b = enc_str_items(ks) + rest;
        lemma_enc_str_len(ks[0]);
        assert(b =~= enc_str(ks[0]) + (enc_str_items(ks.drop_first()) + rest));
        lemma_dec_enc_str(ks[0], enc_str_items(ks.drop_first()) + rest);
        assert(b.skip(8 + 4 * ks[0].len() as int) =~= enc_str_items(ks.drop_first()) + rest);
        lemma_dec_enc_str_items(ks.drop_first(), rest);
        assert(seq![ks[0]] + ks.drop_first() =~= ks);
    }
}

/// Reading back an encoded string list yields it.
#[verifier::rlimit(100)]
pub proof fn lemma_dec_enc_str_list(ks: Seq<Seq<char>>, rest: Seq<u8>)
    requires
        str_list_wf(ks),
    ensures
        dec_str_list(enc_str_list(ks) + rest) == Some((ks, enc_str_list(ks).len() as int)),
{
    let b = enc_str_list(ks) + rest;
    lemma_be64_len(ks.len() as u64);
    assert(b =~= be64(ks.len() as u64) + (enc_str_items(ks) + rest));
    lemma_dec_enc_u64(ks.len() as u64, enc_str_items(ks) + rest);
    assert(b.skip(8) =~= enc_str_items(ks) + rest);
    lemma_dec_enc_str_items(ks, rest);
}

/// The items of a pair list, in order.
pub open spec fn enc_pair_items(ps: Seq<KvpairV>) -> Seq<u8>
    decreases ps.len(),
{
    if ps.len() == 0 {
        Seq::empty()
    } else {
        enc_pair(ps[0]) + enc_pair_items(ps.drop_first())
    }
}

/// A 64-bit item count, then the items.
pub open spec fn enc_pair_list(ps: Seq<KvpairV>) -> Seq<u8> {
    be64(ps.len() as u64) + enc_pair_items(ps)
}

/// Every pair of the list, and the list itself, fits its length prefix.
pub open spec fn pair_list_wf(ps: Seq<KvpairV>) -> bool {
    ps.len() <= u64::MAX && forall|i: int| 0 <= i < ps.len() ==> pair_wf(#[trigger] ps[i])
}

/// Decode exactly `n` pairs from the front of `b`.
pub open spec fn dec_pair_items(b: Seq<u8>, n: nat) -> Option<(Seq<KvpairV>, int)>
    decreases n,
{
    if n == 0 {
        Some((Seq::empty(), 0int))
    } else {
        match dec_pair(b) {
            Some((p, u1)) => {
                match dec_pair_items(b.skip(u1), (n - 1) as nat) {
                    Some((ps, u2)) => Some((seq![p] + ps, u1 + u2)),
                    None => None,
                }
            },
            None => None,
        }
    }
}

/// Decode a pair list from the front of `b`.
pub open spec fn dec_pair_list(b: Seq<u8>) -> Option<(Seq<KvpairV>, int)> {
    match dec_u64(b) {
        Some((m, _)) => {
            match dec_pair_items(b.skip(8), m as nat) {
                Some((ps, u)) => Some((ps, 8 + u)),
                None => None,
            }
        },
        None => None,
    }
}

/// Appending one pair extends the item encoding by that pair's bytes.
#[verifier::rlimit(100)]
pub proof fn lemma_enc_pair_items_push(ps: Seq<KvpairV>, p: KvpairV)
    ensures
        enc_pair_items(ps.push(p)) =~= enc_pair_items(ps) + enc_pair(p),
    decreases ps.len(),
{
    lemma_enc_pair_len(p);
    lemma_enc_str_len(p.key);
    lemma_enc_value_len(p.value);
    if ps.len() == 0 {
        assert(ps.push(p)[0] == p);
        assert(ps.push(p).drop_first() =~= Seq::<KvpairV>::empty());
        assert(enc_pair(p) + Seq::<u8>::empty() =~= Seq::<u8>::empty() + enc_pair(p));
        reveal_with_fuel(enc_pair_items, 2);
        assert(enc_pair_items(ps) =~= Seq::<u8>::empty());
        assert(enc_pair_items(ps.push(p)) == enc_pair(p) + Seq::<u8>::empty());
    } else {
        lemma_enc_pair_len(ps[0]);
        lemma_enc_str_len(ps[0].key);
        lemma_enc_value_len(ps[0].value);
        assert(ps.push(p)[0] == ps[0]);
        assert(ps.push(p).drop_first() =~= ps.drop_first().push(p));
        lemma_enc_pair_items_push(ps.drop_first(), p);
        assert(enc_pair_items(ps.push(p)) == enc_pair(ps[0]) + (enc_pair_items(ps.drop_first())
            + enc_pair(p)));
        assert(enc_pair(ps[0]) + (enc_pair_items(ps.drop_first()) + enc_pair(p)) =~= (enc_pair(
            ps[0],
        ) + enc_pair_items(ps.drop_first())) + enc_pair(p));
        assert(enc_pair_items(ps) == enc_pair(ps[0]) + enc_pair_items(ps.drop_first()));
    }
}

/// Reading back encoded pair items yields them.
#[verifier::rlimit(100)]
pub proof fn lemma_dec_enc_pair_items(ps: Seq<KvpairV>, rest: Seq<u8>)
    requires
        forall|i: int| 0 <= i < ps.len() ==> pair_wf(#[trigger] ps[i]),
    ensures
        dec_pair_items(enc_pair_items(ps) + rest, ps.len()) == Some((
            ps,
            enc_pair_items(ps).len() as int,
        )),
    decreases ps.len(),
{
    if ps.len() == 0 {
        assert(enc_pair_items(ps) + rest =~= rest);
    } else {
        let b = enc_pair_items(ps) + rest;
        lemma_enc_pair_len(ps[0]);
        lemma_enc_str_len(ps[0].key);
        lemma_enc_value_len(ps[0].value);
        assert(b =~= enc_pair(ps[0]) + (enc_pair_items(ps.drop_first()) + rest));
        lemma_dec_enc_pair(ps[0], enc_pair_items(ps.drop_first()) + rest);
        assert(b.skip(enc_pair(ps[0]).len() as int) =~= enc_pair_items(ps.drop_first()) + rest);
        lemma_dec_enc_pair_items(ps.drop_first(), rest);
        assert(seq![ps[0]] + ps.drop_first() =~= ps);
    }
}

/// Reading back an encoded pair list yields it.
#[verifier::rlimit(100)]
pub proof fn lemma_dec_enc_pair_list(ps: Seq<KvpairV>, rest: Seq<u8>)
    requires
        pair_list_wf(ps),
    ensures
        dec_pair_list(enc_pair_list(ps) + rest) == Some((ps, enc_pair_list(ps).len() as int)),
{
    let b = enc_pair_list(ps) + rest;
    lemma_be64_len(ps.len() as u64);
    assert(b =~= be64(ps.len() as u64) + (enc_pair_items(ps) + rest));
    lemma_dec_enc_u64(ps.len() as u64, enc_pair_items(ps) + rest);
    assert(b.skip(8) =~= enc_pair_items(ps) + rest);
    lemma_dec_enc_pair_items(ps, rest);
}

/// The items of a value list, in order.
pub open spec fn enc_value_items(vs: Seq<ValueV>) -> Seq<u8>
    decreases vs.len(),
{
    if vs.len() == 0 {
        Seq::empty()
    } else {
        enc_value(vs[0]) + enc_value_items(vs.drop_first())
    }
}

/// A 64-bit item count, then the items.
pub open spec fn enc_value_list(vs: Seq<ValueV>) -> Seq<u8> {
    be64(vs.len() as u64) + enc_value_items(vs)
}

/// Every value of the list, and the list itself, fits its length prefix.
pub open spec fn value_list_wf(vs: Seq<ValueV>) -> bool {
    vs.len() <= u64::MAX && forall|i: int| 0 <= i < vs.len() ==> value_wf(#[trigger] vs[i])
}

/// Decode exactly `n` values from the front of `b`.
pub open spec fn dec_value_items(b: Seq<u8>, n: nat) -> Option<(Seq<ValueV>, int)>
    decreases n,
{
    if n == 0 {
        Some((Seq::empty(), 0int))
    } else {
        match dec_value(b) {
            Some((v, u1)) => {
                match dec_value_items(b.skip(u1), (n - 1) as nat) {
                    Some((vs, u2)) => Some((seq![v] + vs, u1 + u2)),
                    None => None,
                }
            },
            None => None,
        }
    }
}

/// Decode a value list from the front of `b`.
pub open spec fn dec_value_list(b: Seq<u8>) -> Option<(Seq<ValueV>, int)> {
    match dec_u64(b) {
        Some((m, _)) => {
            match dec_value_items(b.skip(8), m as nat) {
                Some((vs, u)) => Some((vs, 8 + u)),
                None => None,
            }
        },
        None => None,
    }
}

/// Appending one value extends the item encoding by that value's bytes.
#[verifier::rlimit(100)]
pub proof fn lemma_enc_value_items_push(vs: Seq<ValueV>, v: ValueV)
    ensures
        enc_value_items(vs.push(v)) =~= enc_value_items(vs) + enc_value(v),
    decreases vs.len(),
{
    lemma_enc_value_len(v);
    if vs.len() == 0 {
        assert(vs.push(v)[0] == v);
        assert(vs.push(v).drop_first() =~= Seq::<ValueV>::empty());
        assert(enc_value(v) + Seq::<u8>::empty() =~= Seq::<u8>::empty() + enc_value(v));
        reveal_with_fuel(enc_value_items, 2);
        assert(enc_value_items(vs) =~= Seq::<u8>::empty());
        assert(enc_value_items(vs.push(v)) == enc_value(v) + Seq::<u8>::empty());
    } else {
        lemma_enc_value_len(vs[0]);
        assert(vs.push(v)[0] == vs[0]);
        assert(vs.push(v).drop_first() =~= vs.drop_first().push(v));
        lemma_enc_value_items_push(vs.drop_first(), v);
        assert(enc_value_items(vs.push(v)) == enc_value(vs[0]) + (enc_value_items(
            vs.drop_first(),
        ) + enc_value(v)));
        assert(enc_value(vs[0]) + (enc_value_items(vs.drop_first()) + enc_value(v)) =~= (enc_value(
            vs[0],
        ) + enc_value_items(vs.drop_first())) + enc_value(v));
        assert(enc_value_items(vs) == enc_value(vs[0]) + enc_value_items(vs.drop_first()));
    }
}

/// Reading back encoded value items yields them.
#[verifier::rlimit(100)]
pub proof fn lemma_dec_enc_value_items(vs: Seq<ValueV>, rest: Seq<u8>)
    requires
        forall|i: int| 0 <= i < vs.len() ==> value_wf(#[trigger] vs[i]),
    ensures
        dec_value_items(enc_value_items(vs) + rest, vs.len()) == Some((
            vs,
            enc_value_items(vs).len() as int,
        )),
    decreases vs.len(),
{
    if vs.len() == 0 {
        assert(enc_value_items(vs) + rest =~= rest);
    } else {
        let b = enc_value_items(vs) + rest;
        lemma_enc_value_len(vs[0]);
        assert(b =~= enc_value(vs[0]) + (enc_value_items(vs.drop_first()) + rest));
        lemma_dec_enc_value(vs[0], enc_value_items(vs.drop_first()) + rest);
        assert(b.skip(enc_value(vs[0]).len() as int) =~= enc_value_items(vs.drop_first()) + rest);
        lemma_dec_enc_value_items(vs.drop_first(), rest);
        assert(seq![vs[0]] + vs.drop_first() =~= vs);
    }
}

/// Reading back an encoded value list yields it.
#[verifier::rlimit(100)]
pub proof fn lemma_dec_enc_value_list(vs: Seq<ValueV>, rest: Seq<u8>)
    requires
        value_list_wf(vs),
    ensures
        dec_value_list(enc_value_list(vs) + rest) == Some((vs, enc_value_list(vs).len() as int)),
{
    let b = enc_value_list(vs) + rest;
    lemma_be64_len(vs.len() as u64);
    assert(b =~= be64(vs.len() as u64) + (enc_value_items(vs) + rest));
    lemma_dec_enc_u64(vs.len() as u64, enc_value_items(vs) + rest);
    assert(b.skip(8) =~= enc_value_items(vs) + rest);
    lemma_dec_enc_value_items(vs, rest);
}

/// A request whose strings and lists all fit their length prefixes; every
/// request an execution can hold satisfies this.
pub open spec fn req_wf(x: ReqV) -> bool {
    match x {
        ReqV::Hget { table, key } => str_wf(table) && str_wf(key),
        ReqV::Hgetall { table } => str_wf(table),
        ReqV::Hmget { table, keys } => str_wf(table) && str_list_wf(keys),
        ReqV::Hset { table, pair } => str_wf(table) && pair_wf(pair),
        ReqV::Hmset { table, pairs } => str_wf(table) && pair_list_wf(pairs),
        ReqV::Hdel { table, key } => str_wf(table) && str_wf(key),
        ReqV::Hmdel { table, keys } => str_wf(table) && str_list_wf(keys),
        ReqV::Hexist { table, key } => str_wf(table) && str_wf(key),
        ReqV::Hmexist { table, keys } => str_wf(table) && str_list_wf(keys),
    }
}

/// A tag byte naming the command, the table, then the command's operands.
pub open spec fn enc_req(x: ReqV) -> Seq<u8> {
    match x {
        ReqV::Hget { table, key } => seq![1u8] + enc_str(table) + enc_str(key),
        ReqV::Hgetall { table } => seq![2u8] + enc_str(table),
        ReqV::Hmget { table, keys } => seq![3u8] + enc_str(table) + enc_str_list(keys),
        ReqV::Hset { table, pair } => seq![4u8] + enc_str(table) + enc_pair(pair),
        ReqV::Hmset { table, pairs } => seq![5u8] + enc_str(table) + enc_pair_list(pairs),
        ReqV::Hdel { table, key } => seq![6u8] + enc_str(table) + enc_str(key),
        ReqV::Hmdel { table, keys } => seq![7u8] + enc_str(table) + enc_str_list(keys),
        ReqV::Hexist { table, key } => seq![8u8] + enc_str(table) + enc_str(key),
        ReqV::Hmexist { table, keys } => seq![9u8] + enc_str(table) + enc_str_list(keys),
    }
}

/// Decode a request from the front of `b`; an unknown tag is corrupt.
pub open spec fn dec_req(b: Seq<u8>) -> Option<(ReqV, int)> {
    if b.len() < 1 {
        None
    } else {
        let t = b.skip(1);
        match dec_str(t) {
            Some((table, u1)) => {
                if b[0] == 2u8 {
                    Some((ReqV::Hgetall { table }, 1 + u1))
                } else if b[0] == 1u8 || b[0] == 6u8 || b[0] == 8u8 {
                    match dec_str(t.skip(u1)) {
                        Some((key, u2)) => {
                            if b[0] == 1u8 {
                                Some((ReqV::Hget { table, key }, 1 + u1 + u2))
                            } else if b[0] == 6u8 {
                                Some((ReqV::Hdel { table, key }, 1 + u1 + u2))
                            } else {
                                Some((ReqV::Hexist { table, key }, 1 + u1 + u2))
                            }
                        },
                        None => None,
                    }
                } else if b[0] == 3u8 || b[0] == 7u8 || b[0] == 9u8 {
                    match dec_str_list(t.skip(u1)) {
                        Some((keys, u2)) => {
                            if b[0] == 3u8 {
                                Some((ReqV::Hmget { table, keys }, 1 + u1 + u2))
                            } else if b[0] == 7u8 {
                                Some((ReqV::Hmdel { table, keys }, 1 + u1 + u2))
                            } else {
                                Some((ReqV::Hmexist { table, keys }, 1 + u1 + u2))
                            }
                        },
                        None => None,
                    }
                } else if b[0] == 4u8 {
                    match dec_pair(t.skip(u1)) {
                        Some((pair, u2)) => Some((ReqV::Hset { table, pair }, 1 + u1 + u2)),
                        None => None,
                    }
                } else if b[0] == 5u8 {
                    match dec_pair_list(t.skip(u1)) {
                        Some((pairs, u2)) => Some((ReqV::Hmset { table, pairs }, 1 + u1 + u2)),
                        None => None,
                    }
                } else {
                    None
                }
            },
            None => None,
        }
    }
}

/// Reading back an encoded request yields it: the codec round-trips every
/// command a client can build.
#[verifier::rlimit(100)]
#[verifier::spinoff_prover]
pub proof fn lemma_dec_enc_req(x: ReqV, rest: Seq<u8>)
    requires
        req_wf(x),
    ensures
        dec_req(enc_req(x) + rest) == Some((x, enc_req(x).len() as int)),
{
    let b = enc_req(x) + rest;
    match x {
        ReqV::Hget { table, key } => {
            lemma_enc_str_len(table);
            lemma_enc_str_len(key);
            assert(b.skip(1) =~= enc_str(table) + (enc_str(key) + rest));
            lemma_dec_enc_str(table, enc_str(key) + rest);
            assert(b.skip(1).skip(8 + 4 * table.len() as int) =~= enc_str(key) + rest);
            lemma_dec_enc_str(key, rest);
        },
        ReqV::Hgetall { table } => {
            lemma_enc_str_len(table);
            assert(b.skip(1) =~= enc_str(table) + rest);
            lemma_dec_enc_str(table, rest);
        },
        ReqV::Hmget { table, keys } => {
            lemma_enc_str_len(table);
            assert(b.skip(1) =~= enc_str(table) + (enc_str_list(keys) + rest));
            lemma_dec_enc_str(table, enc_str_list(keys) + rest);
            assert(b.skip(1).skip(8 + 4 * table.len() as int) =~= enc_str_list(keys) + rest);
            lemma_dec_enc_str_list(keys, rest);
        },
        ReqV::Hset { table, pair } => {
            lemma_enc_str_len(table);
            assert(b.skip(1) =~= enc_str(table) + (enc_pair(pair) + rest));
            lemma_dec_enc_str(table, enc_pair(pair) + rest);
            assert(b.skip(1).skip(8 + 4 * table.len() as int) =~= enc_pair(pair) + rest);
            lemma_dec_enc_pair(pair, rest);
        },
        ReqV::Hmset { table, pairs } => {
            lemma_enc_str_len(table);
            assert(b.skip(1) =~= enc_str(table) + (enc_pair_list(pairs) + rest));
            lemma_dec_enc_str(table, enc_pair_list(pairs) + rest);
            assert(b.skip(1).skip(8 + 4 * table.len() as int) =~= enc_pair_list(pairs) + rest);
            lemma_dec_enc_pair_list(pairs, rest);
        },
        ReqV::Hdel { table, key } => {
            lemma_enc_str_len(table);
            lemma_enc_str_len(key);
            assert(b.skip(1) =~= enc_str(table) + (enc_str(key) + rest));
            lemma_dec_enc_str(table, enc_str(key) + rest);
            assert(b.skip(1).skip(8 + 4 * table.len() as int) =~= enc_str(key) + rest);
            lemma_dec_enc_str(key, rest);
        },
        ReqV::Hmdel { table, keys } => {
            lemma_enc_str_len(table);
            assert(b.skip(1) =~= enc_str(table) + (enc_str_list(keys) + rest));
            lemma_dec_enc_str(table, enc_str_list(keys) + rest);
            assert(b.skip(1).skip(8 + 4 * table.len() as int) =~= enc_str_list(keys) + rest);
            lemma_dec_enc_str_list(keys, rest);
        },
        ReqV::Hexist { table, key } => {
            lemma_enc_str_len(table);
            lemma_enc_str_len(key);
            assert(b.skip(1) =~= enc_str(table) + (enc_str(key) + rest));
            lemma_dec_enc_str(table, enc_str(key) + rest);
            assert(b.skip(1).skip(8 + 4 * table.len() as int) =~= enc_str(key) + rest);
            lemma_dec_enc_str(key, rest);
        },
        ReqV::Hmexist { table, keys } => {
            lemma_enc_str_len(table);
            assert(b.skip(1) =~= enc_str(table) + (enc_str_list(keys) + rest));
            lemma_dec_enc_str(table, enc_str_list(keys) + rest);
            assert(b.skip(1).skip(8 + 4 * table.len() as int) =~= enc_str_list(keys) + rest);
            lemma_dec_enc_str_list(keys, rest);
        },
    }
}

/// A response whose message and payload lists fit their length prefixes.
pub open spec fn resp_wf(r: RespV) -> bool {
    str_wf(r.message) && value_list_wf(r.values) && pair_list_wf(r.pairs)
}

/// The status code, the message, the values, then the pairs.
pub open spec fn enc_resp(r: RespV) -> Seq<u8> {
    be32(r.status) + enc_str(r.message) + enc_value_list(r.values) + enc_pair_list(r.pairs)
}

/// Decode a response from the front of `b`.
pub open spec fn dec_resp(b: Seq<u8>) -> Option<(RespV, int)> {
    match dec_u32(b) {
        Some((status, _)) => {
            match dec_str(b.skip(4)) {
                Some((message, u1)) => {
                    match dec_value_list(b.skip(4 + u1)) {
                        Some((values, u2)) => {
                            match dec_pair_list(b.skip(4 + u1 + u2)) {
                                Some((pairs, u3)) => Some((
                                    RespV { status, message, values, pairs },
                                    4 + u1 + u2 + u3,
                                )),
                                None => None,
                            }
                        },
                        None => None,
                    }
                },
                None => None,
            }
        },
        None => None,
    }
}

/// Reading back an encoded response yields it.
#[verifier::rlimit(100)]
#[verifier::spinoff_prover]
pub proof fn lemma_dec_enc_resp(r: RespV, rest: Seq<u8>)
    requires
        resp_wf(r),
    ensures
        dec_resp(enc_resp(r) + rest) == Some((r, enc_resp(r).len() as int)),
{
    let b = enc_resp(r) + rest;
    lemma_be32_len(r.status);
    lemma_enc_str_len(r.message);
    let tail1 = enc_str(r.message) + (enc_value_list(r.values) + (enc_pair_list(r.pairs) + rest));
    assert(b =~= be32(r.status) + tail1);
    lemma_dec_enc_u32(r.status, tail1);
    assert(b.skip(4) =~= tail1);
    lemma_dec_enc_str(r.message, enc_value_list(r.values) + (enc_pair_list(r.pairs) + rest));
    let u1 = 8 + 4 * r.message.len() as int;
    assert(b.skip(4).skip(u1) =~= enc_value_list(r.values) + (enc_pair_list(r.pairs) + rest));
    assert(b.skip(4 + u1) =~= b.skip(4).skip(u1));
    lemma_dec_enc_value_list(r.values, enc_pair_list(r.pairs) + rest);
    let u2 = enc_value_list(r.values).len() as int;
    assert(b.skip(4 + u1).skip(u2) =~= enc_pair_list(r.pairs) + rest);
    assert(b.skip(4 + u1 + u2) =~= b.skip(4 + u1).skip(u2));
    lemma_dec_enc_pair_list(r.pairs, rest);
}

/// Encoding and then decoding any request yields it back unchanged.
pub proof fn lemma_request_round_trip(x: ReqV)
    requires
        req_wf(x),
    ensures
        dec_req(enc_req(x)) == Some((x, enc_req(x).len() as int)),
{
    lemma_dec_enc_req(x, Seq::empty());
    assert(enc_req(x) + Seq::<u8>::empty() =~= enc_req(x));
}

/// Encoding and then decoding any response yields it back unchanged.
pub proof fn lemma_response_round_trip(r: RespV)
    requires
        resp_wf(r),
    ensures
        dec_resp(enc_resp(r)) == Some((r, enc_resp(r).len() as int)),
{
    lemma_dec_enc_resp(r, Seq::empty());
    assert(enc_resp(r) + Seq::<u8>::empty() =~= enc_resp(r));
}

/// The largest payload a frame may declare; longer frames are rejected
/// before their body is read.
pub const MAX_FRAME_PAYLOAD: usize = 16777216;

/// Relies on char::from_u32: it returns the character with the given scalar
/// value, and None exactly when the value is a surrogate or above the
/// Unicode maximum.
#[verifier::external_body]
fn char_from_u32(u: u32) -> (r: Option<char>)
    ensures
        r matches Some(c) ==> c as u32 == u,
        r is Some <==> scalar_char(u),
{
    char::from_u32(u)
}

/// Relies on String::push: it appends the given character to the string.
#[verifier::external_body]
fn push_char(s: &mut String, c: char)
    ensures
        final(s)@ == old(s)@.push(c),
{
    s.push(c);
}

fn put_u32(out: &mut Vec<u8>, n: u32)
    ensures
        final(out)@ == old(out)@ + be32(n),
{
    proof {
        reveal(be32);
        lemma_be32_digits(n);
    }
    out.push((n / 0x1000000) as u8);
    out.push(((n / 0x10000) % 256) as u8);
    out.push(((n / 256) % 256) as u8);
    out.push((n % 256) as u8);
    proof {
        assert(out@ =~= old(out)@ + be32(n));
    }
}

fn put_u64(out: &mut Vec<u8>, n: u64)
    ensures
        final(out)@ == old(out)@ + be64(n),
{
    proof {
        lemma_fundamental_div_mod(n as int, 0x100000000);
    }
    put_u32(out, (n / 0x100000000) as u32);
    put_u32(out, (n % 0x100000000) as u32);
    proof {
        assert(out@ =~= old(out)@ + be64(n));
    }
}

fn put_bool(out: &mut Vec<u8>, v: bool)
    ensures
        final(out)@ == old(out)@ + enc_bool(v),
{
    if v {
        out.push(1);
    } else {
        out.push(0);
    }
    proof {
        assert(out@ =~= old(out)@ + enc_bool(v));
    }
}

fn put_i64(out: &mut Vec<u8>, i: i64)
    ensures
        final(out)@ == old(out)@ + enc_i64(i),
{
    if i >= 0 {
        out.push(0);
        put_u64(out, i as u64);
    } else {
        out.push(1);
        let m: u64 = ((-(i + 1)) as u64) + 1;
        proof {
            assert(m == (-(i as int)) as u64);
        }
        put_u64(out, m);
    }
    proof {
        assert(out@ =~= old(out)@ + enc_i64(i));
    }
}

fn put_chars(out: &mut Vec<u8>, s: &str)
    ensures
        final(out)@ == old(out)@ + enc_chars(s@),
{
    let n = s.unicode_len();
    let mut i: usize = 0;
    proof {
        assert(s@.take(0) =~= Seq::<char>::empty());
        assert(out@ =~= out@ + enc_chars(s@.take(0)));
    }
    while i < n
        invariant
            i <= n,
            n == s@.len(),
            out@ == old(out)@ + enc_chars(s@.take(i as int)),
        decreases n - i,
    {
        let c = s.get_char(i);
        put_u32(out, c as u32);
        proof {
            lemma_enc_chars_push(s@.take(i as int), c);
            assert(s@.take(i + 1) =~= s@.take(i as int).push(c));
            assert(out@ =~= old(out)@ + enc_chars(s@.take(i + 1)));
        }
        i = i + 1;
    }
    proof {
        assert(s@.take(n as int) =~= s@);
    }
}

fn put_str(out: &mut Vec<u8>, s: &str)
    ensures
        final(out)@ == old(out)@ + enc_str(s@),
{
    let n = s.unicode_len();
    put_u64(out, n as u64);
    put_chars(out, s);
    proof {
        assert(out@ =~= old(out)@ + enc_str(s@));
    }
}

fn put_bytes(out: &mut Vec<u8>, d: &Vec<u8>)
    ensures
        final(out)@ == old(out)@ + enc_bytes(d@),
{
    put_u64(out, d.len() as u64);
    out.extend_from_slice(d.as_slice());
    proof {
        assert(out@ =~= old(out)@ + enc_bytes(d@));
    }
}

fn put_value(out: &mut Vec<u8>, v: &Value)
    ensures
        final(out)@ == old(out)@ + enc_value(v@),
{
    match v {
        Value::Unit => {
            out.push(0);
        },
        Value::Bool(x) => {
            out.push(1);
            put_bool(out, *x);
        },
        Value::Integer(x) => {
            out.push(2);
            put_i64(out, *x);
        },
        Value::Float(x) => {
            out.push(3);
            put_u64(out, *x);
        },
        Value::Str(x) => {
            out.push(4);
            put_str(out, x.as_str());
        },
        Value::Bytes(x) => {
            out.push(5);
            put_bytes(out, x);
        },
    }
    proof {
        assert(out@ =~= old(out)@ + enc_value(v@));
    }
}

fn put_pair(out: &mut Vec<u8>, p: &Kvpair)
    ensures
        final(out)@ == old(out)@ + enc_pair(p@),
{
    put_str(out, p.key.as_str());
    put_value(out, &p.value);
    proof {
        assert(out@ =~= old(out)@ + enc_pair(p@));
    }
}

fn put_str_list(out: &mut Vec<u8>, ks: &Vec<String>)
    ensures
        final(out)@ == old(out)@ + enc_str_list(keys_view(ks@)),
{
    put_u64(out, ks.len() as u64);
    let ghost header = out@;
    let mut i: usize = 0;
    proof {
        assert(keys_view(ks@).take(0) =~= Seq::<Seq<char>>::empty());
        assert(out@ =~= out@ + enc_str_items(keys_view(ks@).take(0)));
    }
    while i < ks.len()
        invariant
            i <= ks@.len(),
            out@ == header + enc_str_items(keys_view(ks@).take(i as int)),
            header == old(out)@ + be64(ks@.len() as u64),
        decreases ks@.len() - i,
    {
        put_str(out, ks[i].as_str());
        proof {
            lemma_enc_str_items_push(keys_view(ks@).take(i as int), ks@[i as int]@);
            assert(keys_view(ks@).take(i + 1) =~= keys_view(ks@).take(i as int).push(
                ks@[i as int]@,
            ));
            assert(out@ =~= header + enc_str_items(keys_view(ks@).take(i + 1)));
        }
        i = i + 1;
    }
    proof {
        assert(keys_view(ks@).take(ks@.len() as int) =~= keys_view(ks@));
        assert(out@ =~= old(out)@ + enc_str_list(keys_view(ks@)));
    }
}

fn put_pair_list(out: &mut Vec<u8>, ps: &Vec<Kvpair>)
    ensures
        final(out)@ == old(out)@ + enc_pair_list(pairs_view(ps@)),
{
    put_u64(out, ps.len() as u64);
    let ghost header = out@;
    let mut i: usize = 0;
    proof {
        assert(pairs_view(ps@).take(0) =~= Seq::<KvpairV>::empty());
        assert(out@ =~= out@ + enc_pair_items(pairs_view(ps@).take(0)));
    }
    while i < ps.len()
        invariant
            i <= ps@.len(),
            out@ == header + enc_pair_items(pairs_view(ps@).take(i as int)),
            header == old(out)@ + be64(ps@.len() as u64),
        decreases ps@.len() - i,
    {
        put_pair(out, &ps[i]);
        proof {
            lemma_enc_pair_items_push(pairs_view(ps@).take(i as int), ps@[i as int]@);
            assert(pairs_view(ps@).take(i + 1) =~= pairs_view(ps@).take(i as int).push(
                ps@[i as int]@,
            ));
            assert(out@ =~= header + enc_pair_items(pairs_view(ps@).take(i + 1)));
        }
        i = i + 1;
    }
    proof {
        assert(pairs_view(ps@).take(ps@.len() as int) =~= pairs_view(ps@));
        assert(out@ =~= old(out)@ + enc_pair_list(pairs_view(ps@)));
    }
}

fn put_value_list(out: &mut Vec<u8>, vs: &Vec<Value>)
    ensures
        final(out)@ == old(out)@ + enc_value_list(vs@.map_values(|v: Value| v@)),
{
    put_u64(out, vs.len() as u64);
    let ghost header = out@;
    let ghost vv = vs@.map_values(|v: Value| v@);
    let mut i: usize = 0;
    proof {
        assert(vv.take(0) =~= Seq::<ValueV>::empty());
        assert(out@ =~= out@ + enc_value_items(vv.take(0)));
    }
    while i < vs.len()
        invariant
            i <= vs@.len(),
            vv == vs@.map_values(|v: Value| v@),
            out@ == header + enc_value_items(vv.take(i as int)),
            header == old(out)@ + be64(vs@.len() as u64),
        decreases vs@.len() - i,
    {
        put_value(out, &vs[i]);
        proof {
            lemma_enc_value_items_push(vv.take(i as int), vs@[i as int]@);
            assert(vv.take(i + 1) =~= vv.take(i as int).push(vs@[i as int]@));
            assert(out@ =~= header + enc_value_items(vv.take(i + 1)));
        }
        i = i + 1;
    }
    proof {
        assert(vv.take(vs@.len() as int) =~= vv);
        assert(out@ =~= old(out)@ + enc_value_list(vv));
    }
}

/// Serialize a request to its payload bytes.
pub fn encode_request(req: &CommandRequest) -> (r: Vec<u8>)
    ensures
        r@ == enc_req(req@),
{
    let mut out: Vec<u8> = Vec::new();
    match req {
        CommandRequest::Hget { table, key } => {
            out.push(1);
            put_str(&mut out, table.as_str());
            put_str(&mut out, key.as_str());
        },
        CommandRequest::Hgetall { table } => {
            out.push(2);
            put_str(&mut out, table.as_str());
        },
        CommandRequest::Hmget { table, keys } => {
            out.push(3);
            put_str(&mut out, table.as_str());
            put_str_list(&mut out, keys);
        },
        CommandRequest::Hset { table, pair } => {
            out.push(4);
            put_str(&mut out, table.as_str());
            put_pair(&mut out, pair);
        },
        CommandRequest::Hmset { table, pairs } => {
            out.push(5);
            put_str(&mut out, table.as_str());
            put_pair_list(&mut out, pairs);
        },
        CommandRequest::Hdel { table, key } => {
            out.push(6);
            put_str(&mut out, table.as_str());
            put_str(&mut out, key.as_str());
        },
        CommandRequest::Hmdel { table, keys } => {
            out.push(7);
            put_str(&mut out, table.as_str());
            put_str_list(&mut out, keys);
        },
        CommandRequest::Hexist { table, key } => {
            out.push(8);
            put_str(&mut out, table.as_str());
            put_str(&mut out, key.as_str());
        },
        CommandRequest::Hmexist { table, keys } => {
            out.push(9);
            put_str(&mut out, table.as_str());
            put_str_list(&mut out, keys);
        },
    }
    proof {
        assert(out@ =~= enc_req(req@));
    }
    out
}

/// Serialize a response to its payload bytes.
pub fn encode_response(resp: &CommandResponse) -> (r: Vec<u8>)
    ensures
        r@ == enc_resp(resp@),
{
    let mut out: Vec<u8> = Vec::new();
    put_u32(&mut out, resp.status);
    put_str(&mut out, resp.message.as_str());
    put_value_list(&mut out, &resp.values);
    put_pair_list(&mut out, &resp.pairs);
    proof {
        assert(out@ =~= enc_resp(resp@));
    }
    out
}

fn read_u32(buf: &[u8], pos: usize) -> (r: Result<(u32, usize), KvError>)
    requires
        pos <= buf@.len(),
    ensures
        match r {
            Ok((v, p2)) => dec_u32(buf@.skip(pos as int)) == Some((v, p2 - pos as int)) && pos
                <= p2 <= buf@.len(),
            Err(e) => dec_u32(buf@.skip(pos as int)) is None && e == KvError::CorruptPayload,
        },
{
    if buf.len() - pos < 4 {
        return Err(KvError::CorruptPayload);
    }
    let b0 = buf[pos];
    let b1 = buf[pos + 1];
    let b2 = buf[pos + 2];
    let b3 = buf[pos + 3];
    let v = (b0 as u32) * 0x1000000 + (b1 as u32) * 0x10000 + (b2 as u32) * 256 + (b3 as u32);
    proof {
        reveal(be32_val);
        let t = buf@.skip(pos as int);
        assert(t[0] == b0 && t[1] == b1 && t[2] == b2 && t[3] == b3);
        assert(be32_val(t) == v);
    }
    Ok((v, pos + 4))
}

fn read_u64(buf: &[u8], pos: usize) -> (r: Result<(u64, usize), KvError>)
    requires
        pos <= buf@.len(),
    ensures
        match r {
            Ok((v, p2)) => dec_u64(buf@.skip(pos as int)) == Some((v, p2 - pos as int)) && pos
                <= p2 <= buf@.len(),
            Err(e) => dec_u64(buf@.skip(pos as int)) is None && e == KvError::CorruptPayload,
        },
{
    if buf.len() - pos < 8 {
        return Err(KvError::CorruptPayload);
    }
    let hi = match read_u32(buf, pos) {
        Ok((hi, _)) => hi,
        Err(e) => {
            return Err(e);
        },
    };
    let lo = match read_u32(buf, pos + 4) {
        Ok((lo, _)) => lo,
        Err(e) => {
            return Err(e);
        },
    };
    let v = (hi as u64) * 0x100000000 + (lo as u64);
    proof {
        let t = buf@.skip(pos as int);
        assert(buf@.skip(pos + 4) =~= t.skip(4));
        assert(be64_val(t) == v);
    }
    Ok((v, pos + 8))
}

fn read_bool(buf: &[u8], pos: usize) -> (r: Result<(bool, usize), KvError>)
    requires
        pos <= buf@.len(),
    ensures
        match r {
            Ok((v, p2)) => dec_bool(buf@.skip(pos as int)) == Some((v, p2 - pos as int)) && pos
                <= p2 <= buf@.len(),
            Err(e) => dec_bool(buf@.skip(pos as int)) is None && e == KvError::CorruptPayload,
        },
{
    if buf.len() - pos < 1 {
        return Err(KvError::CorruptPayload);
    }
    let b = buf[pos];
    if b == 1 {
        Ok((true, pos + 1))
    } else if b == 0 {
        Ok((false, pos + 1))
    } else {
        Err(KvError::CorruptPayload)
    }
}

fn read_i64(buf: &[u8], pos: usize) -> (r: Result<(i64, usize), KvError>)
    requires
        pos <= buf@.len(),
    ensures
        match r {
            Ok((v, p2)) => dec_i64(buf@.skip(pos as int)) == Some((v, p2 - pos as int)) && pos
                <= p2 <= buf@.len(),
            Err(e) => dec_i64(buf@.skip(pos as int)) is None && e == KvError::CorruptPayload,
        },
{
    if buf.len() - pos < 1 {
        return Err(KvError::CorruptPayload);
    }
    let tag = buf[pos];
    if tag != 0 && tag != 1 {
        return Err(KvError::CorruptPayload);
    }
    let (m, p2) = match read_u64(buf, pos + 1) {
        Ok((m, p2)) => (m, p2),
        Err(e) => {
            proof {
                assert(buf@.skip(pos + 1) =~= buf@.skip(pos as int).skip(1));
            }
            return Err(e);
        },
    };
    proof {
        assert(buf@.skip(pos + 1) =~= buf@.skip(pos as int).skip(1));
    }
    if tag == 0 {
        if m <= 0x7fffffffffffffffu64 {
            Ok((m as i64, p2))
        } else {
            Err(KvError::CorruptPayload)
        }
    } else {
        if 1 <= m && m <= 0x8000000000000000u64 {
            let v: i64 = -((m - 1) as i64) - 1;
            proof {
                assert(v as int == -(m as int));
            }
            Ok((v, p2))
        } else {
            Err(KvError::CorruptPayload)
        }
    }
}

fn read_chars(buf: &[u8], pos: usize, n: u64) -> (r: Result<(String, usize), KvError>)
    requires
        pos <= buf@.len(),
    ensures
        match r {
            Ok((s, p2)) => dec_chars(buf@.skip(pos as int), n as nat) == Some((
                s@,
                p2 - pos as int,
            )) && pos <= p2 <= buf@.len(),
            Err(e) => dec_chars(buf@.skip(pos as int), n as nat) is None && e
                == KvError::CorruptPayload,
        },
    decreases n,
{
    if n == 0 {
        return Ok((String::new(), pos));
    }
    let (u, p1) = match read_u32(buf, pos) {
        Ok((u, p1)) => (u, p1),
        Err(e) => {
            return Err(e);
        },
    };
    let c = match char_from_u32(u) {
        Some(c) => c,
        None => {
            return Err(KvError::CorruptPayload);
        },
    };
    proof {
        char_u32_cast(c, u);
        assert(buf@.skip(p1 as int) =~= buf@.skip(pos as int).skip(4));
    }
    match read_chars(buf, p1, n - 1) {
        Ok((tail, p2)) => {
            let mut s = String::new();
            push_char(&mut s, c);
            s.append(tail.as_str());
            proof {
                assert(s@ =~= seq![c] + tail@);
            }
            Ok((s, p2))
        },
        Err(e) => Err(e),
    }
}

fn read_str(buf: &[u8], pos: usize) -> (r: Result<(String, usize), KvError>)
    requires
        pos <= buf@.len(),
    ensures
        match r {
            Ok((s, p2)) => dec_str(buf@.skip(pos as int)) == Some((s@, p2 - pos as int)) && pos
                <= p2 <= buf@.len(),
            Err(e) => dec_str(buf@.skip(pos as int)) is None && e == KvError::CorruptPayload,
        },
{
    let (m, p1) = match read_u64(buf, pos) {
        Ok(x) => x,
        Err(e) => {
            return Err(e);
        },
    };
    proof {
        assert(buf@.skip(p1 as int) =~= buf@.skip(pos as int).skip(8));
    }
    match read_chars(buf, p1, m) {
        Ok((s, p2)) => Ok((s, p2)),
        Err(e) => Err(e),
    }
}

fn read_bytes(buf: &[u8], pos: usize) -> (r: Result<(Vec<u8>, usize), KvError>)
    requires
        pos <= buf@.len(),
    ensures
        match r {
            Ok((d, p2)) => dec_bytes(buf@.skip(pos as int)) == Some((d@, p2 - pos as int)) && pos
                <= p2 <= buf@.len(),
            Err(e) => dec_bytes(buf@.skip(pos as int)) is None && e == KvError::CorruptPayload,
        },
{
    let (m, p1) = match read_u64(buf, pos) {
        Ok(x) => x,
        Err(e) => {
            return Err(e);
        },
    };
    proof {
        assert(buf@.skip(p1 as int) =~= buf@.skip(pos as int).skip(8));
    }
    if ((buf.len() - p1) as u64) < m {
        return Err(KvError::CorruptPayload);
    }
    let count = m as usize;
    proof {
        assert((buf@.len() - p1) as u64 >= m);
        assert(count as int == m as int);
        assert(p1 + count <= buf@.len());
    }
    let mut d: Vec<u8> = Vec::new();
    let mut i: usize = 0;
    while i < count
        invariant
            i <= count,
            p1 + count <= buf@.len(),
            buf@.len() <= usize::MAX,
            d@ =~= buf@.skip(p1 as int).take(i as int),
        decreases count - i,
    {
        d.push(buf[p1 + i]);
        proof {
            assert(d@ =~= buf@.skip(p1 as int).take(i + 1));
        }
        i = i + 1;
    }
    proof {
        assert(buf@.skip(pos as int).skip(8).take(m as int) =~= d@);
    }
    Ok((d, p1 + count))
}

fn read_value(buf: &[u8], pos: usize) -> (r: Result<(Value, usize), KvError>)
    requires
        pos <= buf@.len(),
    ensures
        match r {
            Ok((v, p2)) => dec_value(buf@.skip(pos as int)) == Some((v@, p2 - pos as int)) && pos
                <= p2 <= buf@.len(),
            Err(e) => dec_value(buf@.skip(pos as int)) is None && e == KvError::CorruptPayload,
        },
{
    if buf.len() - pos < 1 {
        return Err(KvError::CorruptPayload);
    }
    let tag = buf[pos];
    proof {
        assert(buf@.skip(pos + 1) =~= buf@.skip(pos as int).skip(1));
    }
    if tag == 0 {
        Ok((Value::Unit, pos + 1))
    } else if tag == 1 {
        match read_bool(buf, pos + 1) {
            Ok((x, p2)) => Ok((Value::Bool(x), p2)),
            Err(e) => Err(e),
        }
    } else if tag == 2 {
        match read_i64(buf, pos + 1) {
            Ok((x, p2)) => Ok((Value::Integer(x), p2)),
            Err(e) => Err(e),
        }
    } else if tag == 3 {
        match read_u64(buf, pos + 1) {
            Ok((x, p2)) => Ok((Value::Float(x), p2)),
            Err(e) => Err(e),
        }
    } else if tag == 4 {
        match read_str(buf, pos + 1) {
            Ok((x, p2)) => Ok((Value::Str(x), p2)),
            Err(e) => Err(e),
        }
    } else if tag == 5 {
        match read_bytes(buf, pos + 1) {
            Ok((x, p2)) => Ok((Value::Bytes(x), p2)),
            Err(e) => Err(e),
        }
    } else {
        Err(KvError::CorruptPayload)
    }
}

fn read_pair(buf: &[u8], pos: usize) -> (r: Result<(Kvpair, usize), KvError>)
    requires
        pos <= buf@.len(),
    ensures
        match r {
            Ok((p, p2)) => dec_pair(buf@.skip(pos as int)) == Some((p@, p2 - pos as int)) && pos
                <= p2 <= buf@.len(),
            Err(e) => dec_pair(buf@.skip(pos as int)) is None && e == KvError::CorruptPayload,
        },
{
    let (key, p1) = match read_str(buf, pos) {
        Ok(x) => x,
        Err(e) => {
            return Err(e);
        },
    };
    proof {
        assert(buf@.skip(p1 as int) =~= buf@.skip(pos as int).skip(p1 - pos as int));
    }
    match read_value(buf, p1) {
        Ok((value, p2)) => Ok((Kvpair { key, value }, p2)),
        Err(e) => Err(e),
    }
}

fn read_str_items(buf: &[u8], pos: usize, n: u64) -> (r: Result<(Vec<String>, usize), KvError>)
    requires
        pos <= buf@.len(),
    ensures
        match r {
            Ok((ks, p2)) => dec_str_items(buf@.skip(pos as int), n as nat) == Some((
                keys_view(ks@),
                p2 - pos as int,
            )) && pos <= p2 <= buf@.len(),
            Err(e) => dec_str_items(buf@.skip(pos as int), n as nat) is None && e
                == KvError::CorruptPayload,
        },
    decreases n,
{
    if n == 0 {
        let ks: Vec<String> = Vec::new();
        proof {
            assert(keys_view(ks@) =~= Seq::<Seq<char>>::empty());
        }
        return Ok((ks, pos));
    }
    let (k, p1) = match read_str(buf, pos) {
        Ok(x) => x,
        Err(e) => {
            return Err(e);
        },
    };
    proof {
        assert(buf@.skip(p1 as int) =~= buf@.skip(pos as int).skip(p1 - pos as int));
    }
    match read_str_items(buf, p1, n - 1) {
        Ok((tail, p2)) => {
            let mut ks: Vec<String> = Vec::new();
            ks.push(k);
            let mut tail = tail;
            ks.append(&mut tail);
            proof {
                assert(keys_view(ks@) =~= seq![ks@[0]@] + keys_view(ks@.skip(1)));
            }
            Ok((ks, p2))
        },
        Err(e) => Err(e),
    }
}

fn read_pair_items(buf: &[u8], pos: usize, n: u64) -> (r: Result<(Vec<Kvpair>, usize), KvError>)
    requires
        pos <= buf@.len(),
    ensures
        match r {
            Ok((ps, p2)) => dec_pair_items(buf@.skip(pos as int), n as nat) == Some((
                pairs_view(ps@),
                p2 - pos as int,
            )) && pos <= p2 <= buf@.len(),
            Err(e) => dec_pair_items(buf@.skip(pos as int), n as nat) is None && e
                == KvError::CorruptPayload,
        },
    decreases n,
{
    if n == 0 {
        let ps: Vec<Kvpair> = Vec::new();
        proof {
            assert(pairs_view(ps@) =~= Seq::<KvpairV>::empty());
        }
        return Ok((ps, pos));
    }
    let (p, p1) = match read_pair(buf, pos) {
        Ok(x) => x,
        Err(e) => {
            return Err(e);
        },
    };
    proof {
        assert(buf@.skip(p1 as int) =~= buf@.skip(pos as int).skip(p1 - pos as int));
    }
    match read_pair_items(buf, p1, n - 1) {
        Ok((tail, p2)) => {
            let mut ps: Vec<Kvpair> = Vec::new();
            ps.push(p);
            let mut tail = tail;
            ps.append(&mut tail);
            proof {
                assert(pairs_view(ps@) =~= seq![ps@[0]@] + pairs_view(ps@.skip(1)));
            }
            Ok((ps, p2))
        },
        Err(e) => Err(e),
    }
}

fn read_value_items(buf: &[u8], pos: usize, n: u64) -> (r: Result<(Vec<Value>, usize), KvError>)
    requires
        pos <= buf@.len(),
    ensures
        match r {
            Ok((vs, p2)) => dec_value_items(buf@.skip(pos as int), n as nat) == Some((
                vs@.map_values(|v: Value| v@),
                p2 - pos as int,
            )) && pos <= p2 <= buf@.len(),
            Err(e) => dec_value_items(buf@.skip(pos as int), n as nat) is None && e
                == KvError::CorruptPayload,
        },
    decreases n,
{
    if n == 0 {
        let vs: Vec<Value> = Vec::new();
        proof {
            assert(vs@.map_values(|v: Value| v@) =~= Seq::<ValueV>::empty());
        }
        return Ok((vs, pos));
    }
    let (v, p1) = match read_value(buf, pos) {
        Ok(x) => x,
        Err(e) => {
            return Err(e);
        },
    };
    proof {
        assert(buf@.skip(p1 as int) =~= buf@.skip(pos as int).skip(p1 - pos as int));
    }
    match read_value_items(buf, p1, n - 1) {
        Ok((tail, p2)) => {
            let mut vs: Vec<Value> = Vec::new();
            vs.push(v);
            let mut tail = tail;
            vs.append(&mut tail);
            proof {
                assert(vs@.map_values(|v: Value| v@) =~= seq![vs@[0]@] + vs@.skip(1).map_values(
                    |v: Value| v@,
                ));
            }
            Ok((vs, p2))
        },
        Err(e) => Err(e),
    }
}

fn read_str_list(buf: &[u8], pos: usize) -> (r: Result<(Vec<String>, usize), KvError>)
    requires
        pos <= buf@.len(),
    ensures
        match r {
            Ok((ks, p2)) => dec_str_list(buf@.skip(pos as int)) == Some((
                keys_view(ks@),
                p2 - pos as int,
            )) && pos <= p2 <= buf@.len(),
            Err(e) => dec_str_list(buf@.skip(pos as int)) is None && e == KvError::CorruptPayload,
        },
{
    let (m, p1) = match read_u64(buf, pos) {
        Ok(x) => x,
        Err(e) => {
            return Err(e);
        },
    };
    proof {
        assert(buf@.skip(p1 as int) =~= buf@.skip(pos as int).skip(8));
    }
    read_str_items(buf, p1, m)
}

fn read_pair_list(buf: &[u8], pos: usize) -> (r: Result<(Vec<Kvpair>, usize), KvError>)
    requires
        pos <= buf@.len(),
    ensures
        match r {
            Ok((ps, p2)) => dec_pair_list(buf@.skip(pos as int)) == Some((
                pairs_view(ps@),
                p2 - pos as int,
            )) && pos <= p2 <= buf@.len(),
            Err(e) => dec_pair_list(buf@.skip(pos as int)) is None && e == KvError::CorruptPayload,
        },
{
    let (m, p1) = match read_u64(buf, pos) {
        Ok(x) => x,
        Err(e) => {
            return Err(e);
        },
    };
    proof {
        assert(buf@.skip(p1 as int) =~= buf@.skip(pos as int).skip(8));
    }
    read_pair_items(buf, p1, m)
}

fn read_value_list(buf: &[u8], pos: usize) -> (r: Result<(Vec<Value>, usize), KvError>)
    requires
        pos <= buf@.len(),
    ensures
        match r {
            Ok((vs, p2)) => dec_value_list(buf@.skip(pos as int)) == Some((
                vs@.map_values(|v: Value| v@),
                p2 - pos as int,
            )) && pos <= p2 <= buf@.len(),
            Err(e) => dec_value_list(buf@.skip(pos as int)) is None && e
                == KvError::CorruptPayload,
        },
{
    let (m, p1) = match read_u64(buf, pos) {
        Ok(x) => x,
        Err(e) => {
            return Err(e);
        },
    };
    proof {
        assert(buf@.skip(p1 as int) =~= buf@.skip(pos as int).skip(8));
    }
    read_value_items(buf, p1, m)
}

/// Parse one request from payload bytes, returning it and how many bytes it
/// occupied.
pub fn decode_request(buf: &[u8], pos: usize) -> (r: Result<(CommandRequest, usize), KvError>)
    requires
        pos <= buf@.len(),
    ensures
        match r {
            Ok((req, p2)) => dec_req(buf@.skip(pos as int)) == Some((req@, p2 - pos as int)) && pos
                <= p2 <= buf@.len(),
            Err(e) => dec_req(buf@.skip(pos as int)) is None && e == KvError::CorruptPayload,
        },
{
    if buf.len() - pos < 1 {
        return Err(KvError::CorruptPayload);
    }
    let tag = buf[pos];
    proof {
        assert(buf@.skip(pos + 1) =~= buf@.skip(pos as int).skip(1));
    }
    if tag < 1 || tag > 9 {
        return Err(KvError::CorruptPayload);
    }
    let (table, p1) = match read_str(buf, pos + 1) {
        Ok(x) => x,
        Err(e) => {
            return Err(e);
        },
    };
    proof {
        assert(buf@.skip(p1 as int) =~= buf@.skip(pos as int).skip(1).skip(p1 - (pos + 1) as int));
    }
    if tag == 2 {
        return Ok((CommandRequest::Hgetall { table }, p1));
    }
    if tag == 1 || tag == 6 || tag == 8 {
        let (key, p2) = match read_str(buf, p1) {
            Ok(x) => x,
            Err(e) => {
                return Err(e);
            },
        };
        let req = if tag == 1 {
            CommandRequest::Hget { table, key }
        } else if tag == 6 {
            CommandRequest::Hdel { table, key }
        } else {
            CommandRequest::Hexist { table, key }
        };
        return Ok((req, p2));
    }
    if tag == 3 || tag == 7 || tag == 9 {
        let (keys, p2) = match read_str_list(buf, p1) {
            Ok(x) => x,
            Err(e) => {
                return Err(e);
            },
        };
        let req = if tag == 3 {
            CommandRequest::Hmget { table, keys }
        } else if tag == 7 {
            CommandRequest::Hmdel { table, keys }
        } else {
            CommandRequest::Hmexist { table, keys }
        };
        return Ok((req, p2));
    }
    if tag == 4 {
        let (pair, p2) = match read_pair(buf, p1) {
            Ok(x) => x,
            Err(e) => {
                return Err(e);
            },
        };
        return Ok((CommandRequest::Hset { table, pair }, p2));
    }
    let (pairs, p2) = match read_pair_list(buf, p1) {
        Ok(x) => x,
        Err(e) => {
            return Err(e);
        },
    };
    Ok((CommandRequest::Hmset { table, pairs }, p2))
}

/// Parse one response from payload bytes, returning it and how many bytes
/// it occupied.
pub fn decode_response(buf: &[u8], pos: usize) -> (r: Result<(CommandResponse, usize), KvError>)
    requires
        pos <= buf@.len(),
    ensures
        match r {
            Ok((resp, p2)) => dec_resp(buf@.skip(pos as int)) == Some((resp@, p2 - pos as int))
                && pos <= p2 <= buf@.len(),
            Err(e) => dec_resp(buf@.skip(pos as int)) is None && e == KvError::CorruptPayload,
        },
{
    let (status, p1) = match read_u32(buf, pos) {
        Ok(x) => x,
        Err(e) => {
            return Err(e);
        },
    };
    proof {
        assert(buf@.skip(p1 as int) =~= buf@.skip(pos as int).skip(4));
    }
    let (message, p2) = match read_str(buf, p1) {
        Ok(x) => x,
        Err(e) => {
            return Err(e);
        },
    };
    proof {
        assert(buf@.skip(p2 as int) =~= buf@.skip(pos as int).skip(4 + (p2 - p1)));
    }
    let (values, p3) = match read_value_list(buf, p2) {
        Ok(x) => x,
        Err(e) => {
            return Err(e);
        },
    };
    proof {
        assert(buf@.skip(p3 as int) =~= buf@.skip(pos as int).skip(4 + (p2 - p1) + (p3 - p2)));
    }
    let (pairs, p4) = match read_pair_list(buf, p3) {
        Ok(x) => x,
        Err(e) => {
            return Err(e);
        },
    };
    Ok((CommandResponse { status, message, values, pairs }, p4))
}

/// A frame: the payload's length as four big-endian bytes, then the
/// payload.
pub open spec fn frame_of(payload: Seq<u8>) -> Seq<u8> {
    be32(payload.len() as u32) + payload
}

/// Wrap payload bytes in a frame; a payload over the configured maximum is
/// rejected.
fn encode_frame(payload: Vec<u8>) -> (r: Result<Vec<u8>, KvError>)
    ensures
        match r {
            Ok(f) => payload@.len() <= MAX_FRAME_PAYLOAD && f@ == frame_of(payload@),
            Err(e) => payload@.len() > MAX_FRAME_PAYLOAD && e == KvError::FrameTooLarge,
        },
{
    if payload.len() > MAX_FRAME_PAYLOAD {
        return Err(KvError::FrameTooLarge);
    }
    let ghost p0 = payload@;
    let mut out: Vec<u8> = Vec::new();
    put_u32(&mut out, payload.len() as u32);
    let mut payload = payload;
    out.append(&mut payload);
    proof {
        assert(out@ =~= frame_of(p0));
    }
    Ok(out)
}

/// Serialize a request and wrap it in a frame.
pub fn encode_request_frame(req: &CommandRequest) -> (r: Result<Vec<u8>, KvError>)
    ensures
        match r {
            Ok(f) => enc_req(req@).len() <= MAX_FRAME_PAYLOAD && f@ == frame_of(enc_req(req@)),
            Err(e) => enc_req(req@).len() > MAX_FRAME_PAYLOAD && e == KvError::FrameTooLarge,
        },
{
    encode_frame(encode_request(req))
}

/// Serialize a response and wrap it in a frame.
pub fn encode_response_frame(resp: &CommandResponse) -> (r: Result<Vec<u8>, KvError>)
    ensures
        match r {
            Ok(f) => enc_resp(resp@).len() <= MAX_FRAME_PAYLOAD && f@ == frame_of(enc_resp(resp@)),
            Err(e) => enc_resp(resp@).len() > MAX_FRAME_PAYLOAD && e == KvError::FrameTooLarge,
        },
{
    encode_frame(encode_response(resp))
}

/// What a buffer's frame header declares, once at least four bytes are
/// there.
pub open spec fn declared_len(buf: Seq<u8>) -> int {
    be32_val(buf) as int
}

/// How decoding one frame from the front of `buf` must end.
///
/// `IncompleteFrame` means more bytes may still complete the frame;
/// `FrameTooLarge` is decided from the header alone, before any payload
/// byte is read; `CorruptPayload` means the declared payload was all there
/// and did not parse as exactly one message.
pub open spec fn frame_decode_post<T>(
    buf: Seq<u8>,
    dec: Option<(T, int)>,
    r: Result<(T, int), KvError>,
) -> bool {
    match r {
        Ok((x, consumed)) => {
            &&& buf.len() >= 4
            &&& declared_len(buf) <= MAX_FRAME_PAYLOAD
            &&& 4 + declared_len(buf) <= buf.len()
            &&& dec == Some((x, declared_len(buf)))
            &&& consumed == 4 + declared_len(buf)
        },
        Err(KvError::IncompleteFrame) => buf.len() < 4 || (declared_len(buf) <= MAX_FRAME_PAYLOAD
            && buf.len() < 4 + declared_len(buf)),
        Err(KvError::FrameTooLarge) => buf.len() >= 4 && declared_len(buf) > MAX_FRAME_PAYLOAD,
        Err(KvError::CorruptPayload) => {
            &&& buf.len() >= 4
            &&& declared_len(buf) <= MAX_FRAME_PAYLOAD
            &&& 4 + declared_len(buf) <= buf.len()
            &&& match dec {
                Some((_, used)) => used != declared_len(buf),
                None => true,
            }
        },
        _ => false,
    }
}

/// Decode one framed request from the front of `buf`, returning it and the
/// bytes consumed; bytes beyond the frame are left for the next one.
pub fn decode_request_frame(buf: &[u8]) -> (r: Result<(CommandRequest, usize), KvError>)
    ensures
        match r {
            Ok((req, consumed)) => frame_decode_post(
                buf@,
                dec_req(buf@.subrange(4, 4 + declared_len(buf@))),
                Ok::<(ReqV, int), KvError>((req@, consumed as int)),
            ),
            Err(e) => frame_decode_post(
                buf@,
                if buf@.len() >= 4 && 0 <= declared_len(buf@) && 4 + declared_len(buf@)
                    <= buf@.len() {
                    dec_req(buf@.subrange(4, 4 + declared_len(buf@)))
                } else {
                    None
                },
                Err::<(ReqV, int), KvError>(e),
            ),
        },
{
    if buf.len() < 4 {
        return Err(KvError::IncompleteFrame);
    }
    let n32 = match read_u32(buf, 0) {
        Ok((v, _)) => v,
        Err(_) => {
            return Err(KvError::IncompleteFrame);
        },
    };
    proof {
        assert(buf@.skip(0) =~= buf@);
    }
    if n32 > MAX_FRAME_PAYLOAD as u32 {
        return Err(KvError::FrameTooLarge);
    }
    let n = n32 as usize;
    if buf.len() - 4 < n {
        return Err(KvError::IncompleteFrame);
    }
    let payload = vstd::slice::slice_subrange(buf, 4, 4 + n);
    match decode_request(payload, 0) {
        Ok((req, p2)) => {
            proof {
                assert(payload@.skip(0) =~= payload@);
            }
            if p2 == n {
                Ok((req, 4 + n))
            } else {
                Err(KvError::CorruptPayload)
            }
        },
        Err(_) => {
            proof {
                assert(payload@.skip(0) =~= payload@);
            }
            Err(KvError::CorruptPayload)
        },
    }
}

/// Decode one framed response from the front of `buf`, returning it and the
/// bytes consumed.
pub fn decode_response_frame(buf: &[u8]) -> (r: Result<(CommandResponse, usize), KvError>)
    ensures
        match r {
            Ok((resp, consumed)) => frame_decode_post(
                buf@,
                dec_resp(buf@.subrange(4, 4 + declared_len(buf@))),
                Ok::<(RespV, int), KvError>((resp@, consumed as int)),
            ),
            Err(e) => frame_decode_post(
                buf@,
                if buf@.len() >= 4 && 0 <= declared_len(buf@) && 4 + declared_len(buf@)
                    <= buf@.len() {
                    dec_resp(buf@.subrange(4, 4 + declared_len(buf@)))
                } else {
                    None
                },
                Err::<(RespV, int), KvError>(e),
            ),
        },
{
    if buf.len() < 4 {
        return Err(KvError::IncompleteFrame);
    }
    let n32 = match read_u32(buf, 0) {
        Ok((v, _)) => v,
        Err(_) => {
            return Err(KvError::IncompleteFrame);
        },
    };
    proof {
        assert(buf@.skip(0) =~= buf@);
    }
    if n32 > MAX_FRAME_PAYLOAD as u32 {
        return Err(KvError::FrameTooLarge);
    }
    let n = n32 as usize;
    if buf.len() - 4 < n {
        return Err(KvError::IncompleteFrame);
    }
    let payload = vstd::slice::slice_subrange(buf, 4, 4 + n);
    match decode_response(payload, 0) {
        Ok((resp, p2)) => {
            proof {
                assert(payload@.skip(0) =~= payload@);
            }
            if p2 == n {
                Ok((resp, 4 + n))
            } else {
                Err(KvError::CorruptPayload)
            }
        },
        Err(_) => {
            proof {
                assert(payload@.skip(0) =~= payload@);
            }
            Err(KvError::CorruptPayload)
        },
    }
}

} // verus!
