//! The wire format's primitives: fixed-width little-endian integer bytes and
//! the big-endian variable-length prefix that carries the byte length of
//! strings and byte blobs (one to four bytes, the two top bits of the first
//! byte giving the byte count).

use vstd::prelude::*;
use vstd::arithmetic::div_mod::{lemma_fundamental_div_mod, lemma_multiply_divide_lt};

verus! {

/// 256 to the power `w`: the number of values a `w`-byte field can carry.
pub open spec fn pow256(w: nat) -> nat
    decreases w,
{
    if w == 0 {
        1
    } else {
        256 * pow256((w - 1) as nat)
    }
}

/// The little-endian encoding of `n` in exactly `w` bytes.
pub open spec fn le_bytes_of(n: nat, w: nat) -> Seq<u8>
    decreases w,
{
    if w == 0 {
        Seq::empty()
    } else {
        seq![(n % 256) as u8] + le_bytes_of(n / 256, (w - 1) as nat)
    }
}

/// The value of a little-endian byte string.
pub open spec fn le_val(b: Seq<u8>) -> nat
    decreases b.len(),
{
    if b.len() == 0 {
        0
    } else {
        b[0] as nat + 256 * le_val(b.drop_first())
    }
}

pub proof fn lemma_le_bytes_len(n: nat, w: nat)
    ensures
        le_bytes_of(n, w).len() == w,
    decreases w,
{
    if w > 0 {
        lemma_le_bytes_len(n / 256, (w - 1) as nat);
    }
}

pub proof fn lemma_pow256_mono(w1: nat, w2: nat)
    requires
        w1 <= w2,
    ensures
        pow256(w1) <= pow256(w2),
    decreases w2,
{
    if w1 < w2 && w2 > 0 {
        lemma_pow256_mono(w1, (w2 - 1) as nat);
    }
}

/// Reading back the `w`-byte little-endian form of `n` yields `n` again.
pub proof fn lemma_le_round_trip(n: nat, w: nat)
    requires
        n < pow256(w),
    ensures
        le_val(le_bytes_of(n, w)) == n,
    decreases w,
{
    if w > 0 {
        let b = le_bytes_of(n, w);
        let rest = le_bytes_of(n / 256, (w - 1) as nat);
        assert(b.drop_first() =~= rest);
        lemma_multiply_divide_lt(n as int, 256, pow256((w - 1) as nat) as int);
        lemma_le_round_trip(n / 256, (w - 1) as nat);
        lemma_fundamental_div_mod(n as int, 256);
    }
}

/// A little-endian byte string of length `w` holds a value below 256^w.
pub proof fn lemma_le_val_bound(b: Seq<u8>)
    ensures
        le_val(b) < pow256(b.len()),
    decreases b.len(),
{
    if b.len() > 0 {
        lemma_le_val_bound(b.drop_first());
    }
}

/// Emits the `w`-byte little-endian form of `x`.
pub fn encode_le(x: u128, w: usize) -> (r: Vec<u8>)
    ensures
        r@ == le_bytes_of(x as nat, w as nat),
{
    let mut r: Vec<u8> = Vec::new();
    let mut cur: u128 = x;
    let mut i: usize = 0;
    proof {
        assert(Seq::<u8>::empty() + le_bytes_of(x as nat, w as nat) =~= le_bytes_of(
            x as nat,
            w as nat,
        ));
    }
    while i < w
        invariant
            i <= w,
            r@.len() == i,
            le_bytes_of(x as nat, w as nat) == r@ + le_bytes_of(cur as nat, (w - i) as nat),
        decreases w - i,
    {
        let b: u8 = (cur % 256) as u8;
        proof {
            let tail = le_bytes_of(cur as nat / 256, (w - i - 1) as nat);
            assert(le_bytes_of(cur as nat, (w - i) as nat) =~= seq![b] + tail);
            assert(r@ + (seq![b] + tail) =~= r@.push(b) + tail);
        }
        r.push(b);
        cur = cur / 256;
        i = i + 1;
    }
    proof {
        assert(r@ + le_bytes_of(cur as nat, 0) =~= r@);
    }
    r
}

/// Reads a little-endian byte string of at most sixteen bytes.
pub fn decode_le(b: &[u8]) -> (r: u128)
    requires
        b@.len() <= 16,
    ensures
        r as nat == le_val(b@),
{
    proof {
        assert(pow256(16) == 0x100000000000000000000000000000000) by {
            reveal_with_fuel(pow256, 17);
        }
    }
    let mut r: u128 = 0;
    let mut i: usize = b.len();
    while i > 0
        invariant
            i <= b@.len() <= 16,
            r as nat == le_val(b@.skip(i as int)),
            le_val(b@.skip(i as int)) < pow256((b@.len() - i) as nat),
            pow256(16) == 0x100000000000000000000000000000000,
        decreases i,
    {
        proof {
            assert(b@.skip(i as int - 1).drop_first() =~= b@.skip(i as int));
            lemma_le_val_bound(b@.skip(i as int - 1));
            lemma_pow256_mono((b@.len() - i + 1) as nat, 16);
        }
        i = i - 1;
        r = r * 256 + (b[i] as u128);
    }
    proof {
        assert(b@.skip(0) =~= b@);
    }
    r
}

/// The big-endian variable-length form of a length `n` below 2^30: the two
/// top bits of the first byte give how many bytes follow the leading one.
pub open spec fn beu30_bytes(n: nat) -> Seq<u8> {
    if n < 64 {
        seq![n as u8]
    } else if n < 16384 {
        seq![(64 + n / 256) as u8, (n % 256) as u8]
    } else if n < 4194304 {
        seq![(128 + n / 65536) as u8, ((n / 256) % 256) as u8, (n % 256) as u8]
    } else {
        seq![
            (192 + n / 16777216) as u8,
            ((n / 65536) % 256) as u8,
            ((n / 256) % 256) as u8,
            (n % 256) as u8,
        ]
    }
}

/// Reads a variable-length prefix from the front of `b`: the value carried
/// and the number of bytes it occupied, or nothing if `b` is too short.
pub open spec fn beu30_dec(b: Seq<u8>) -> Option<(nat, int)> {
    if b.len() == 0 {
        None
    } else {
        let b0 = b[0] as nat;
        if b0 < 64 {
            Some((b0, 1))
        } else if b0 < 128 {
            if b.len() >= 2 {
                Some(((((b0 - 64) * 256 + b[1] as nat)) as nat, 2))
            } else {
                None
            }
        } else if b0 < 192 {
            if b.len() >= 3 {
                Some(((((b0 - 128) * 65536 + b[1] as nat * 256 + b[2] as nat)) as nat, 3))
            } else {
                None
            }
        } else {
            if b.len() >= 4 {
                Some((
                    ((b0 - 192) * 16777216 + b[1] as nat * 65536 + b[2] as nat * 256 + b[3]
                        as nat) as nat,
                    4,
                ))
            } else {
                None
            }
        }
    }
}

/// Reading a variable-length prefix back from the front of a longer byte
/// string yields the encoded value and the prefix's own length.
pub proof fn lemma_beu30_round_trip(n: nat, rest: Seq<u8>)
    requires
        n < 0x40000000,
    ensures
        beu30_dec(beu30_bytes(n) + rest) == Some((n, beu30_bytes(n).len() as int)),
{
    let p = beu30_bytes(n);
    let b = p + rest;
    lemma_fundamental_div_mod(n as int, 256);
    lemma_fundamental_div_mod(n as int / 256, 256);
    lemma_fundamental_div_mod(n as int / 65536, 256);
    assert(n as int / 256 / 256 == n as int / 65536) by (nonlinear_arith);
    assert(n as int / 65536 / 256 == n as int / 16777216) by (nonlinear_arith);
    if n < 64 {
        assert(b[0] == p[0]);
    } else if n < 16384 {
        lemma_multiply_divide_lt(n as int, 256, 64);
        assert(b[0] == p[0] && b[1] == p[1]);
    } else if n < 4194304 {
        lemma_multiply_divide_lt(n as int, 65536, 64);
        assert(b[0] == p[0] && b[1] == p[1] && b[2] == p[2]);
    } else {
        lemma_multiply_divide_lt(n as int, 16777216, 64);
        assert(b[0] == p[0] && b[1] == p[1] && b[2] == p[2] && b[3] == p[3]);
    }
}

/// Emits the variable-length form of `n`.
pub fn encode_beu30(n: u32) -> (r: Vec<u8>)
    requires
        n < 0x40000000,
    ensures
        r@ == beu30_bytes(n as nat),
{
    let mut r: Vec<u8> = Vec::new();
    if n < 64 {
        r.push(n as u8);
    } else if n < 16384 {
        proof {
            lemma_multiply_divide_lt(n as int, 256, 64);
        }
        r.push((64 + n / 256) as u8);
        r.push((n % 256) as u8);
    } else if n < 4194304 {
        proof {
            lemma_multiply_divide_lt(n as int, 65536, 64);
        }
        r.push((128 + n / 65536) as u8);
        r.push(((n / 256) % 256) as u8);
        r.push((n % 256) as u8);
    } else {
        proof {
            lemma_multiply_divide_lt(n as int, 16777216, 64);
        }
        r.push((192 + n / 16777216) as u8);
        r.push(((n / 65536) % 256) as u8);
        r.push(((n / 256) % 256) as u8);
        r.push((n % 256) as u8);
    }
    proof {
        assert(r@ =~= beu30_bytes(n as nat));
    }
    r
}

/// Reads a variable-length prefix from the front of a byte string.
pub fn decode_beu30(b: &[u8]) -> (r: Option<(u32, usize)>)
    ensures
        match beu30_dec(b@) {
            Some(p) => r matches Some(q) && q.0 as nat == p.0 && q.1 as int == p.1,
            None => r is None,
        },
{
    if b.len() == 0 {
        return None;
    }
    let b0 = b[0];
    if b0 < 64 {
        Some((b0 as u32, 1))
    } else if b0 < 128 {
        if b.len() >= 2 {
            Some((((b0 - 64) as u32) * 256 + b[1] as u32, 2))
        } else {
            None
        }
    } else if b0 < 192 {
        if b.len() >= 3 {
            Some((((b0 - 128) as u32) * 65536 + (b[1] as u32) * 256 + b[2] as u32, 3))
        } else {
            None
        }
    } else {
        if b.len() >= 4 {
            Some((
                ((b0 - 192) as u32) * 16777216 + (b[1] as u32) * 65536 + (b[2] as u32) * 256 + b[3]
                    as u32,
                4,
            ))
        } else {
            None
        }
    }
}

/// Compares two byte strings.
pub fn bytes_eq(a: &[u8], b: &[u8]) -> (r: bool)
    ensures
        r == (a@ == b@),
{
    if a.len() != b.len() {
        return false;
    }
    let mut i: usize = 0;
    while i < a.len()
        invariant
            i <= a@.len(),
            a@.len() == b@.len(),
            forall|j: int| 0 <= j < i ==> a@[j] == b@[j],
        decreases a@.len() - i,
    {
        if a[i] != b[i] {
            return false;
        }
        i = i + 1;
    }
    proof {
        assert(a@ =~= b@);
    }
    true
}

} // verus!
