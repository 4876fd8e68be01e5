//! The binary encoding of typed values. Every supported type states its
//! canonical byte form (`enc_of`) and what a byte string decodes to
//! (`dec_of`), and proves that decoding an encoding yields the value again.
//!
//! Integers are fixed-width little-endian; `bool` is one byte; `char` is its
//! code point as four little-endian bytes; strings and byte blobs carry a
//! variable-length prefix followed by their bytes (UTF-8 for strings).

use vstd::prelude::*;
use vstd::slice::{slice_subrange, slice_to_vec};
use vstd::utf8::{decode_utf8, encode_utf8, is_scalar, valid_utf8};

use crate::wire::{
    beu30_bytes, beu30_dec, decode_beu30, decode_le, encode_beu30, encode_le, le_bytes_of, le_val,
    lemma_beu30_round_trip, lemma_le_bytes_len, lemma_le_round_trip, lemma_le_val_bound, pow256,
};
use crate::CandyError;

verus! {

/// The powers of 256 that the fixed-width integer forms rely on.
pub proof fn lemma_pow256_widths()
    ensures
        pow256(1) == 0x100,
        pow256(2) == 0x10000,
        pow256(4) == 0x100000000,
        pow256(8) == 0x10000000000000000,
        pow256(16) == 0x100000000000000000000000000000000,
{
    reveal_with_fuel(pow256, 17);
}

/// A type with a canonical binary form on the wire.
///
/// `enc_of` and `dec_of` describe the encoding over the type's mathematical
/// view, so contracts about stored values can be stated exactly.
/// `lemma_round_trip` is the law every implementation must prove: for every
/// encodable value, decoding the bytes produced by encoding it yields a value
/// equal to it. Equal encodings therefore come only from equal values.
pub trait Codec: View + Sized {
    /// Whether the value fits the wire format (length prefixes carry at most
    /// 2^30 - 1 bytes; fixed-width types accept every value).
    spec fn enc_ok(v: Self::V) -> bool;

    /// The canonical byte form of a value.
    spec fn enc_of(v: Self::V) -> Seq<u8>;

    /// The value a byte string decodes to, if any.
    spec fn dec_of(b: Seq<u8>) -> Option<Self::V>;

    /// Round trip: decoding an encoding yields the encoded value.
    proof fn lemma_round_trip(v: Self::V)
        requires
            Self::enc_ok(v),
        ensures
            Self::dec_of(Self::enc_of(v)) == Some(v),
    ;

    /// Emits the canonical byte form.
    fn encode(&self) -> (r: Vec<u8>)
        requires
            Self::enc_ok(self@),
        ensures
            r@ == Self::enc_of(self@),
    ;

    /// Parses a byte string, reporting a decode error exactly when the bytes
    /// do not parse as a value of the type (`dec_of` is empty; like the wire
    /// format's own decoder, `dec_of` also accepts a non-canonical, overlong
    /// variable-length length prefix, so it is slightly wider than the image
    /// of `enc_of`).
    fn decode(b: &[u8]) -> (r: Result<Self, CandyError>)
        ensures
            match Self::dec_of(b@) {
                Some(v) => r matches Ok(x) && x@ == v,
                None => r is Err,
            },
    ;
}

/// Round trip, for every supported type and every encodable value: decoding
/// the bytes produced by encoding a value yields a value equal to it.
pub proof fn lemma_codec_round_trip<T: Codec>(v: T::V)
    requires
        T::enc_ok(v),
    ensures
        T::dec_of(T::enc_of(v)) == Some(v),
{
    T::lemma_round_trip(v);
}

impl Codec for u8 {
    open spec fn enc_ok(v: u8) -> bool {
        true
    }

    open spec fn enc_of(v: u8) -> Seq<u8> {
        le_bytes_of(v as nat, 1)
    }

    open spec fn dec_of(b: Seq<u8>) -> Option<u8> {
        if b.len() == 1 {
            Some(le_val(b) as u8)
        } else {
            None
        }
    }

    proof fn lemma_round_trip(v: u8) {
        lemma_pow256_widths();
        lemma_le_bytes_len(v as nat, 1);
        lemma_le_round_trip(v as nat, 1);
    }

    fn encode(&self) -> (r: Vec<u8>) {
        encode_le(*self as u128, 1)
    }

    fn decode(b: &[u8]) -> (r: Result<u8, CandyError>) {
        if b.len() == 1 {
            proof {
                lemma_pow256_widths();
                lemma_le_val_bound(b@);
            }
            Ok(decode_le(b) as u8)
        } else {
            Err(CandyError::Decode)
        }
    }
}

impl Codec for u16 {
    open spec fn enc_ok(v: u16) -> bool {
        true
    }

    open spec fn enc_of(v: u16) -> Seq<u8> {
        le_bytes_of(v as nat, 2)
    }

    open spec fn dec_of(b: Seq<u8>) -> Option<u16> {
        if b.len() == 2 {
            Some(le_val(b) as u16)
        } else {
            None
        }
    }

    proof fn lemma_round_trip(v: u16) {
        lemma_pow256_widths();
        lemma_le_bytes_len(v as nat, 2);
        lemma_le_round_trip(v as nat, 2);
    }

    fn encode(&self) -> (r: Vec<u8>) {
        encode_le(*self as u128, 2)
    }

    fn decode(b: &[u8]) -> (r: Result<u16, CandyError>) {
        if b.len() == 2 {
            proof {
                lemma_pow256_widths();
                lemma_le_val_bound(b@);
            }
            Ok(decode_le(b) as u16)
        } else {
            Err(CandyError::Decode)
        }
    }
}

impl Codec for u32 {
    open spec fn enc_ok(v: u32) -> bool {
        true
    }

    open spec fn enc_of(v: u32) -> Seq<u8> {
        le_bytes_of(v as nat, 4)
    }

    open spec fn dec_of(b: Seq<u8>) -> Option<u32> {
        if b.len() == 4 {
            Some(le_val(b) as u32)
        } else {
            None
        }
    }

    proof fn lemma_round_trip(v: u32) {
        lemma_pow256_widths();
        lemma_le_bytes_len(v as nat, 4);
        lemma_le_round_trip(v as nat, 4);
    }

    fn encode(&self) -> (r: Vec<u8>) {
        encode_le(*self as u128, 4)
    }

    fn decode(b: &[u8]) -> (r: Result<u32, CandyError>) {
        if b.len() == 4 {
            proof {
                lemma_pow256_widths();
                lemma_le_val_bound(b@);
            }
            Ok(decode_le(b) as u32)
        } else {
            Err(CandyError::Decode)
        }
    }
}

impl Codec for u64 {
    open spec fn enc_ok(v: u64) -> bool {
        true
    }

    open spec fn enc_of(v: u64) -> Seq<u8> {
        le_bytes_of(v as nat, 8)
    }

    open spec fn dec_of(b: Seq<u8>) -> Option<u64> {
        if b.len() == 8 {
            Some(le_val(b) as u64)
        } else {
            None
        }
    }

    proof fn lemma_round_trip(v: u64) {
        lemma_pow256_widths();
        lemma_le_bytes_len(v as nat, 8);
        lemma_le_round_trip(v as nat, 8);
    }

    fn encode(&self) -> (r: Vec<u8>) {
        encode_le(*self as u128, 8)
    }

    fn decode(b: &[u8]) -> (r: Result<u64, CandyError>) {
        if b.len() == 8 {
            proof {
                lemma_pow256_widths();
                lemma_le_val_bound(b@);
            }
            Ok(decode_le(b) as u64)
        } else {
            Err(CandyError::Decode)
        }
    }
}

impl Codec for u128 {
    open spec fn enc_ok(v: u128) -> bool {
        true
    }

    open spec fn enc_of(v: u128) -> Seq<u8> {
        le_bytes_of(v as nat, 16)
    }

    open spec fn dec_of(b: Seq<u8>) -> Option<u128> {
        if b.len() == 16 {
            Some(le_val(b) as u128)
        } else {
            None
        }
    }

    proof fn lemma_round_trip(v: u128) {
        lemma_pow256_widths();
        lemma_le_bytes_len(v as nat, 16);
        lemma_le_round_trip(v as nat, 16);
    }

    fn encode(&self) -> (r: Vec<u8>) {
        encode_le(*self, 16)
    }

    fn decode(b: &[u8]) -> (r: Result<u128, CandyError>) {
        if b.len() == 16 {
            proof {
                lemma_pow256_widths();
                lemma_le_val_bound(b@);
            }
            Ok(decode_le(b))
        } else {
            Err(CandyError::Decode)
        }
    }
}

impl Codec for usize {
    open spec fn enc_ok(v: usize) -> bool {
        true
    }

    open spec fn enc_of(v: usize) -> Seq<u8> {
        le_bytes_of(v as nat, 8)
    }

    open spec fn dec_of(b: Seq<u8>) -> Option<usize> {
        if b.len() == 8 && le_val(b) <= usize::MAX as nat {
            Some(le_val(b) as usize)
        } else {
            None
        }
    }

    proof fn lemma_round_trip(v: usize) {
        lemma_pow256_widths();
        lemma_le_bytes_len(v as nat, 8);
        lemma_le_round_trip(v as nat, 8);
    }

    fn encode(&self) -> (r: Vec<u8>) {
        encode_le(*self as u128, 8)
    }

    fn decode(b: &[u8]) -> (r: Result<usize, CandyError>) {
        if b.len() == 8 {
            proof {
                lemma_pow256_widths();
                lemma_le_val_bound(b@);
            }
            let x = decode_le(b);
            if x <= usize::MAX as u128 {
                Ok(x as usize)
            } else {
                Err(CandyError::Decode)
            }
        } else {
            Err(CandyError::Decode)
        }
    }
}

impl Codec for bool {
    open spec fn enc_ok(v: bool) -> bool {
        true
    }

    open spec fn enc_of(v: bool) -> Seq<u8> {
        if v {
            seq![1u8]
        } else {
            seq![0u8]
        }
    }

    open spec fn dec_of(b: Seq<u8>) -> Option<bool> {
        if b.len() == 1 && b[0] == 0 {
            Some(false)
        } else if b.len() == 1 && b[0] == 1 {
            Some(true)
        } else {
            None
        }
    }

    proof fn lemma_round_trip(v: bool) {
    }

    fn encode(&self) -> (r: Vec<u8>) {
        let mut r: Vec<u8> = Vec::new();
        if *self {
            r.push(1);
        } else {
            r.push(0);
        }
        proof {
            assert(r@ =~= <bool as Codec>::enc_of(self@));
        }
        r
    }

    fn decode(b: &[u8]) -> (r: Result<bool, CandyError>) {
        if b.len() == 1 {
            let x = b[0];
            if x == 0 {
                Ok(false)
            } else if x == 1 {
                Ok(true)
            } else {
                Err(CandyError::Decode)
            }
        } else {
            Err(CandyError::Decode)
        }
    }
}

impl Codec for i8 {
    open spec fn enc_ok(v: i8) -> bool {
        true
    }

    open spec fn enc_of(v: i8) -> Seq<u8> {
        le_bytes_of((v as u8) as nat, 1)
    }

    open spec fn dec_of(b: Seq<u8>) -> Option<i8> {
        if b.len() == 1 {
            Some((le_val(b) as u8) as i8)
        } else {
            None
        }
    }

    proof fn lemma_round_trip(v: i8) {
        lemma_pow256_widths();
        lemma_le_bytes_len((v as u8) as nat, 1);
        lemma_le_round_trip((v as u8) as nat, 1);
        assert((v as u8) as i8 == v) by (bit_vector);
    }

    fn encode(&self) -> (r: Vec<u8>) {
        encode_le((*self as u8) as u128, 1)
    }

    fn decode(b: &[u8]) -> (r: Result<i8, CandyError>) {
        if b.len() == 1 {
            proof {
                lemma_pow256_widths();
                lemma_le_val_bound(b@);
            }
            Ok((decode_le(b) as u8) as i8)
        } else {
            Err(CandyError::Decode)
        }
    }
}

impl Codec for i16 {
    open spec fn enc_ok(v: i16) -> bool {
        true
    }

    open spec fn enc_of(v: i16) -> Seq<u8> {
        le_bytes_of((v as u16) as nat, 2)
    }

    open spec fn dec_of(b: Seq<u8>) -> Option<i16> {
        if b.len() == 2 {
            Some((le_val(b) as u16) as i16)
        } else {
            None
        }
    }

    proof fn lemma_round_trip(v: i16) {
        lemma_pow256_widths();
        lemma_le_bytes_len((v as u16) as nat, 2);
        lemma_le_round_trip((v as u16) as nat, 2);
        assert((v as u16) as i16 == v) by (bit_vector);
    }

    fn encode(&self) -> (r: Vec<u8>) {
        encode_le((*self as u16) as u128, 2)
    }

    fn decode(b: &[u8]) -> (r: Result<i16, CandyError>) {
        if b.len() == 2 {
            proof {
                lemma_pow256_widths();
                lemma_le_val_bound(b@);
            }
            Ok((decode_le(b) as u16) as i16)
        } else {
            Err(CandyError::Decode)
        }
    }
}

impl Codec for i32 {
    open spec fn enc_ok(v: i32) -> bool {
        true
    }

    open spec fn enc_of(v: i32) -> Seq<u8> {
        le_bytes_of((v as u32) as nat, 4)
    }

    open spec fn dec_of(b: Seq<u8>) -> Option<i32> {
        if b.len() == 4 {
            Some((le_val(b) as u32) as i32)
        } else {
            None
        }
    }

    proof fn lemma_round_trip(v: i32) {
        lemma_pow256_widths();
        lemma_le_bytes_len((v as u32) as nat, 4);
        lemma_le_round_trip((v as u32) as nat, 4);
        assert((v as u32) as i32 == v) by (bit_vector);
    }

    fn encode(&self) -> (r: Vec<u8>) {
        encode_le((*self as u32) as u128, 4)
    }

    fn decode(b: &[u8]) -> (r: Result<i32, CandyError>) {
        if b.len() == 4 {
            proof {
                lemma_pow256_widths();
                lemma_le_val_bound(b@);
            }
            Ok((decode_le(b) as u32) as i32)
        } else {
            Err(CandyError::Decode)
        }
    }
}

impl Codec for i64 {
    open spec fn enc_ok(v: i64) -> bool {
        true
    }

    open spec fn enc_of(v: i64) -> Seq<u8> {
        le_bytes_of((v as u64) as nat, 8)
    }

    open spec fn dec_of(b: Seq<u8>) -> Option<i64> {
        if b.len() == 8 {
            Some((le_val(b) as u64) as i64)
        } else {
            None
        }
    }

    proof fn lemma_round_trip(v: i64) {
        lemma_pow256_widths();
        lemma_le_bytes_len((v as u64) as nat, 8);
        lemma_le_round_trip((v as u64) as nat, 8);
        assert((v as u64) as i64 == v) by (bit_vector);
    }

    fn encode(&self) -> (r: Vec<u8>) {
        encode_le((*self as u64) as u128, 8)
    }

    fn decode(b: &[u8]) -> (r: Result<i64, CandyError>) {
        if b.len() == 8 {
            proof {
                lemma_pow256_widths();
                lemma_le_val_bound(b@);
            }
            Ok((decode_le(b) as u64) as i64)
        } else {
            Err(CandyError::Decode)
        }
    }
}

impl Codec for i128 {
    open spec fn enc_ok(v: i128) -> bool {
        true
    }

    open spec fn enc_of(v: i128) -> Seq<u8> {
        le_bytes_of((v as u128) as nat, 16)
    }

    open spec fn dec_of(b: Seq<u8>) -> Option<i128> {
        if b.len() == 16 {
            Some((le_val(b) as u128) as i128)
        } else {
            None
        }
    }

    proof fn lemma_round_trip(v: i128) {
        lemma_pow256_widths();
        lemma_le_bytes_len((v as u128) as nat, 16);
        lemma_le_round_trip((v as u128) as nat, 16);
        assert((v as u128) as i128 == v) by (bit_vector);
    }

    fn encode(&self) -> (r: Vec<u8>) {
        encode_le(*self as u128, 16)
    }

    fn decode(b: &[u8]) -> (r: Result<i128, CandyError>) {
        if b.len() == 16 {
            proof {
                lemma_pow256_widths();
                lemma_le_val_bound(b@);
            }
            Ok(decode_le(b) as i128)
        } else {
            Err(CandyError::Decode)
        }
    }
}

impl Codec for isize {
    open spec fn enc_ok(v: isize) -> bool {
        true
    }

    open spec fn enc_of(v: isize) -> Seq<u8> {
        le_bytes_of((v as u64) as nat, 8)
    }

    open spec fn dec_of(b: Seq<u8>) -> Option<isize> {
        if b.len() == 8 && ((le_val(b) as u64) as isize) as u64 == le_val(b) as u64 {
            Some((le_val(b) as u64) as isize)
        } else {
            None
        }
    }

    proof fn lemma_round_trip(v: isize) {
        lemma_pow256_widths();
        lemma_le_bytes_len((v as u64) as nat, 8);
        lemma_le_round_trip((v as u64) as nat, 8);
        assert((v as u64) as isize == v && ((v as u64) as isize) as u64 == v as u64)
            by (bit_vector);
    }

    fn encode(&self) -> (r: Vec<u8>) {
        encode_le((*self as u64) as u128, 8)
    }

    fn decode(b: &[u8]) -> (r: Result<isize, CandyError>) {
        if b.len() == 8 {
            proof {
                lemma_pow256_widths();
                lemma_le_val_bound(b@);
            }
            let x = (decode_le(b)) as u64;
            let s = x as isize;
            if s as u64 == x {
                Ok(s)
            } else {
                Err(CandyError::Decode)
            }
        } else {
            Err(CandyError::Decode)
        }
    }
}

/// Relies on char::from_u32: yields the character with the given code point
/// for every Unicode scalar value, and nothing otherwise.
#[verifier::external_body]
fn char_from_u32(v: u32) -> (r: Option<char>)
    ensures
        r matches Some(c) ==> c as u32 == v,
        is_scalar(v) ==> r is Some,
{
    char::from_u32(v)
}

impl Codec for char {
    open spec fn enc_ok(v: char) -> bool {
        true
    }

    open spec fn enc_of(v: char) -> Seq<u8> {
        le_bytes_of((v as u32) as nat, 4)
    }

    open spec fn dec_of(b: Seq<u8>) -> Option<char> {
        if b.len() == 4 && is_scalar(le_val(b) as u32) {
            Some((le_val(b) as u32) as char)
        } else {
            None
        }
    }

    proof fn lemma_round_trip(v: char) {
        lemma_pow256_widths();
        lemma_le_bytes_len((v as u32) as nat, 4);
        lemma_le_round_trip((v as u32) as nat, 4);
        vstd::utf8::char_is_scalar(v);
        vstd::utf8::char_u32_cast(v, v as u32);
    }

    fn encode(&self) -> (r: Vec<u8>) {
        encode_le((*self as u32) as u128, 4)
    }

    fn decode(b: &[u8]) -> (r: Result<char, CandyError>) {
        if b.len() == 4 {
            proof {
                lemma_pow256_widths();
                lemma_le_val_bound(b@);
            }
            let x = (decode_le(b)) as u32;
            match char_from_u32(x) {
                Some(c) => {
                    proof {
                        vstd::utf8::char_is_scalar(c);
                        vstd::utf8::char_u32_cast(c, x);
                    }
                    Ok(c)
                },
                None => {
                    proof {
                        if is_scalar(x) {
                            assert(false);
                        }
                    }
                    Err(CandyError::Decode)
                },
            }
        } else {
            Err(CandyError::Decode)
        }
    }
}

/// Relies on String::from_utf8: builds the string whose byte form is exactly
/// `b` when `b` is valid UTF-8, and fails otherwise.
#[verifier::external_body]
fn string_from_utf8(b: &[u8]) -> (r: Option<String>)
    ensures
        r matches Some(s) ==> encode_utf8(s@) == b@,
        valid_utf8(b@) ==> r is Some,
{
    String::from_utf8(b.to_vec()).ok()
}

impl Codec for String {
    open spec fn enc_ok(v: Seq<char>) -> bool {
        encode_utf8(v).len() < 0x40000000
    }

    open spec fn enc_of(v: Seq<char>) -> Seq<u8> {
        beu30_bytes(encode_utf8(v).len()) + encode_utf8(v)
    }

    open spec fn dec_of(b: Seq<u8>) -> Option<Seq<char>> {
        match beu30_dec(b) {
            Some(p) => {
                let data = b.skip(p.1);
                if data.len() == p.0 && valid_utf8(data) {
                    Some(decode_utf8(data))
                } else {
                    None
                }
            },
            None => None,
        }
    }

    proof fn lemma_round_trip(v: Seq<char>) {
        broadcast use vstd::utf8::encode_utf8_valid_utf8, vstd::utf8::encode_utf8_decode_utf8;

        let u = encode_utf8(v);
        lemma_beu30_round_trip(u.len(), u);
        assert((beu30_bytes(u.len()) + u).skip(beu30_bytes(u.len()).len() as int) =~= u);
    }

    fn encode(&self) -> (r: Vec<u8>) {
        let bytes = self.as_str().as_bytes();
        let mut r = encode_beu30(bytes.len() as u32);
        r.extend_from_slice(bytes);
        proof {
            assert(r@ =~= <String as Codec>::enc_of(self@));
        }
        r
    }

    fn decode(b: &[u8]) -> (r: Result<String, CandyError>) {
        match decode_beu30(b) {
            None => Err(CandyError::Decode),
            Some((n, c)) => {
                let data = slice_subrange(b, c, b.len());
                proof {
                    assert(data@ =~= b@.skip(c as int));
                }
                if data.len() as u64 == n as u64 {
                    match string_from_utf8(data) {
                        Some(s) => {
                            proof {
                                broadcast use
                                    vstd::utf8::encode_utf8_valid_utf8,
                                    vstd::utf8::encode_utf8_decode_utf8;

                            }
                            Ok(s)
                        },
                        None => {
                            proof {
                                if valid_utf8(data@) {
                                    assert(false);
                                }
                            }
                            Err(CandyError::Decode)
                        },
                    }
                } else {
                    Err(CandyError::Decode)
                }
            },
        }
    }
}

impl Codec for [u8; 16] {
    open spec fn enc_ok(v: Seq<u8>) -> bool {
        v.len() == 16
    }

    open spec fn enc_of(v: Seq<u8>) -> Seq<u8> {
        v
    }

    open spec fn dec_of(b: Seq<u8>) -> Option<Seq<u8>> {
        if b.len() == 16 {
            Some(b)
        } else {
            None
        }
    }

    proof fn lemma_round_trip(v: Seq<u8>) {
    }

    fn encode(&self) -> (r: Vec<u8>) {
        slice_to_vec(self.as_slice())
    }

    fn decode(b: &[u8]) -> (r: Result<[u8; 16], CandyError>) {
        if b.len() == 16 {
            let a: [u8; 16] = [
                b[0],
                b[1],
                b[2],
                b[3],
                b[4],
                b[5],
                b[6],
                b[7],
                b[8],
                b[9],
                b[10],
                b[11],
                b[12],
                b[13],
                b[14],
                b[15],
            ];
            proof {
                assert(a@ =~= b@);
            }
            Ok(a)
        } else {
            Err(CandyError::Decode)
        }
    }
}

impl Codec for Vec<u8> {
    open spec fn enc_ok(v: Seq<u8>) -> bool {
        v.len() < 0x40000000
    }

    open spec fn enc_of(v: Seq<u8>) -> Seq<u8> {
        beu30_bytes(v.len()) + v
    }

    open spec fn dec_of(b: Seq<u8>) -> Option<Seq<u8>> {
        match beu30_dec(b) {
            Some(p) => {
                let data = b.skip(p.1);
                if data.len() == p.0 {
                    Some(data)
                } else {
                    None
                }
            },
            None => None,
        }
    }

    proof fn lemma_round_trip(v: Seq<u8>) {
        lemma_beu30_round_trip(v.len(), v);
        assert((beu30_bytes(v.len()) + v).skip(beu30_bytes(v.len()).len() as int) =~= v);
    }

    fn encode(&self) -> (r: Vec<u8>) {
        let mut r = encode_beu30(self.len() as u32);
        r.extend_from_slice(self.as_slice());
        proof {
            assert(r@ =~= <Vec<u8> as Codec>::enc_of(self@));
        }
        r
    }

    fn decode(b: &[u8]) -> (r: Result<Vec<u8>, CandyError>) {
        match decode_beu30(b) {
            None => Err(CandyError::Decode),
            Some((n, c)) => {
                let data = slice_subrange(b, c, b.len());
                proof {
                    assert(data@ =~= b@.skip(c as int));
                }
                if data.len() as u64 == n as u64 {
                    Ok(slice_to_vec(data))
                } else {
                    Err(CandyError::Decode)
                }
            },
        }
    }
}

} // verus!
