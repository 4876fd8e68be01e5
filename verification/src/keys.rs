//! Composite byte keys. A typed key is serialized and then suffixed with the
//! key type's four tag bytes; map keys additionally carry a one-byte
//! namespace marker reserved for typed entries. Distinct tags therefore give
//! disjoint byte-key namespaces, which is what lets independent typed views
//! share one store, and the same composition is used by maps, lists and
//! queues so the disjointness argument holds uniformly.

use vstd::prelude::*;

use crate::codec::{lemma_pow256_widths, Codec};
use crate::wire::{encode_le, le_bytes_of, lemma_le_bytes_len, lemma_le_round_trip};

verus! {

/// The byte every composite map key ends with. It marks typed entries so a
/// generic traversal of the flat store can recognize and skip them; list and
/// queue keys carry no marker and so live in a separate key space.
pub const TYPED_NAMESPACE_SUFFIX: u8 = 2;

/// A key type for typed views: encodable, and carrying a fixed numeric tag
/// that stays the same across builds and processes (unlike a compiler-chosen
/// type identifier). Two distinct logical key types used against one store
/// must never share a tag; the built-in types take the tags below, and a
/// user-defined key type picks a free one.
pub trait CandyTypedKey: Codec {
    /// The tag bound to this key type.
    spec fn spec_type_id() -> u32;

    /// The tag's value at run time.
    fn type_id() -> (r: u32)
        ensures
            r == Self::spec_type_id(),
    ;
}

impl CandyTypedKey for u8 {
    open spec fn spec_type_id() -> u32 {
        1
    }

    fn type_id() -> u32 {
        1
    }
}

impl CandyTypedKey for u16 {
    open spec fn spec_type_id() -> u32 {
        2
    }

    fn type_id() -> u32 {
        2
    }
}

impl CandyTypedKey for u32 {
    open spec fn spec_type_id() -> u32 {
        3
    }

    fn type_id() -> u32 {
        3
    }
}

impl CandyTypedKey for u64 {
    open spec fn spec_type_id() -> u32 {
        4
    }

    fn type_id() -> u32 {
        4
    }
}

impl CandyTypedKey for u128 {
    open spec fn spec_type_id() -> u32 {
        5
    }

    fn type_id() -> u32 {
        5
    }
}

impl CandyTypedKey for i8 {
    open spec fn spec_type_id() -> u32 {
        6
    }

    fn type_id() -> u32 {
        6
    }
}

impl CandyTypedKey for i16 {
    open spec fn spec_type_id() -> u32 {
        7
    }

    fn type_id() -> u32 {
        7
    }
}

impl CandyTypedKey for i32 {
    open spec fn spec_type_id() -> u32 {
        8
    }

    fn type_id() -> u32 {
        8
    }
}

impl CandyTypedKey for i64 {
    open spec fn spec_type_id() -> u32 {
        9
    }

    fn type_id() -> u32 {
        9
    }
}

impl CandyTypedKey for i128 {
    open spec fn spec_type_id() -> u32 {
        10
    }

    fn type_id() -> u32 {
        10
    }
}

impl CandyTypedKey for bool {
    open spec fn spec_type_id() -> u32 {
        11
    }

    fn type_id() -> u32 {
        11
    }
}

impl CandyTypedKey for usize {
    open spec fn spec_type_id() -> u32 {
        12
    }

    fn type_id() -> u32 {
        12
    }
}

impl CandyTypedKey for isize {
    open spec fn spec_type_id() -> u32 {
        13
    }

    fn type_id() -> u32 {
        13
    }
}

impl CandyTypedKey for char {
    open spec fn spec_type_id() -> u32 {
        14
    }

    fn type_id() -> u32 {
        14
    }
}

impl CandyTypedKey for String {
    open spec fn spec_type_id() -> u32 {
        15
    }

    fn type_id() -> u32 {
        15
    }
}

impl CandyTypedKey for Vec<u8> {
    open spec fn spec_type_id() -> u32 {
        16
    }

    fn type_id() -> u32 {
        16
    }
}

impl CandyTypedKey for [u8; 16] {
    open spec fn spec_type_id() -> u32 {
        17
    }

    fn type_id() -> u32 {
        17
    }
}

/// A composite map key: the encoded key, four little-endian tag bytes, and
/// the namespace marker.
pub open spec fn map_key_bytes(kenc: Seq<u8>, tag: u32) -> Seq<u8> {
    kenc + le_bytes_of(tag as nat, 4) + seq![TYPED_NAMESPACE_SUFFIX]
}

/// A composite list or queue key: the encoded identifier and four
/// little-endian tag bytes, with no marker.
pub open spec fn list_key_bytes(kenc: Seq<u8>, tag: u32) -> Seq<u8> {
    kenc + le_bytes_of(tag as nat, 4)
}

/// Builds the composite map key for a typed key.
pub fn build_map_key<K: CandyTypedKey>(key: &K) -> (r: Vec<u8>)
    requires
        K::enc_ok(key@),
    ensures
        r@ == map_key_bytes(K::enc_of(key@), K::spec_type_id()),
{
    let mut r = key.encode();
    let tag = encode_le(K::type_id() as u128, 4);
    r.extend_from_slice(tag.as_slice());
    r.push(TYPED_NAMESPACE_SUFFIX);
    proof {
        assert(r@ =~= map_key_bytes(K::enc_of(key@), K::spec_type_id()));
    }
    r
}

/// Builds the composite list or queue key for a typed identifier.
pub fn build_list_key<L: CandyTypedKey>(key: &L) -> (r: Vec<u8>)
    requires
        L::enc_ok(key@),
    ensures
        r@ == list_key_bytes(L::enc_of(key@), L::spec_type_id()),
{
    let mut r = key.encode();
    let tag = encode_le(L::type_id() as u128, 4);
    r.extend_from_slice(tag.as_slice());
    proof {
        assert(r@ =~= list_key_bytes(L::enc_of(key@), L::spec_type_id()));
    }
    r
}

/// The composite map key of a typed key value.
pub open spec fn typed_map_key<K: CandyTypedKey>(k: K::V) -> Seq<u8> {
    map_key_bytes(K::enc_of(k), K::spec_type_id())
}

/// The composite list or queue key of a typed identifier value.
pub open spec fn typed_list_key<L: CandyTypedKey>(k: L::V) -> Seq<u8> {
    list_key_bytes(L::enc_of(k), L::spec_type_id())
}

/// Tag disjointness: equal composite map keys force equal tags and equal key
/// encodings. In particular, views over distinct key types (distinct tags)
/// never observe each other's entries, even where the raw encoded key bytes
/// coincide before the tag is appended.
pub proof fn lemma_map_key_injective(e1: Seq<u8>, t1: u32, e2: Seq<u8>, t2: u32)
    requires
        map_key_bytes(e1, t1) == map_key_bytes(e2, t2),
    ensures
        t1 == t2,
        e1 == e2,
{
    lemma_le_bytes_len(t1 as nat, 4);
    lemma_le_bytes_len(t2 as nat, 4);
    let k1 = map_key_bytes(e1, t1);
    let k2 = map_key_bytes(e2, t2);
    assert(k1.len() == e1.len() + 5);
    assert(k2.len() == e2.len() + 5);
    assert(e1.len() == e2.len());
    let n = e1.len() as int;
    assert forall|j: int| 0 <= j < 4 implies le_bytes_of(t1 as nat, 4)[j] == le_bytes_of(
        t2 as nat,
        4,
    )[j] by {
        assert(k1[n + j] == le_bytes_of(t1 as nat, 4)[j]);
        assert(k2[n + j] == le_bytes_of(t2 as nat, 4)[j]);
    }
    assert(le_bytes_of(t1 as nat, 4) =~= le_bytes_of(t2 as nat, 4));
    lemma_pow256_widths();
    lemma_le_round_trip(t1 as nat, 4);
    lemma_le_round_trip(t2 as nat, 4);
    assert forall|j: int| 0 <= j < n implies e1[j] == e2[j] by {
        assert(k1[j] == e1[j]);
        assert(k2[j] == e2[j]);
    }
    assert(e1 =~= e2);
}

/// Tag disjointness for list and queue keys: equal composite keys force
/// equal tags and equal identifier encodings.
pub proof fn lemma_list_key_injective(e1: Seq<u8>, t1: u32, e2: Seq<u8>, t2: u32)
    requires
        list_key_bytes(e1, t1) == list_key_bytes(e2, t2),
    ensures
        t1 == t2,
        e1 == e2,
{
    lemma_le_bytes_len(t1 as nat, 4);
    lemma_le_bytes_len(t2 as nat, 4);
    let k1 = list_key_bytes(e1, t1);
    let k2 = list_key_bytes(e2, t2);
    assert(k1.len() == e1.len() + 4);
    assert(k2.len() == e2.len() + 4);
    assert(e1.len() == e2.len());
    let n = e1.len() as int;
    assert forall|j: int| 0 <= j < 4 implies le_bytes_of(t1 as nat, 4)[j] == le_bytes_of(
        t2 as nat,
        4,
    )[j] by {
        assert(k1[n + j] == le_bytes_of(t1 as nat, 4)[j]);
        assert(k2[n + j] == le_bytes_of(t2 as nat, 4)[j]);
    }
    assert(le_bytes_of(t1 as nat, 4) =~= le_bytes_of(t2 as nat, 4));
    lemma_pow256_widths();
    lemma_le_round_trip(t1 as nat, 4);
    lemma_le_round_trip(t2 as nat, 4);
    assert forall|j: int| 0 <= j < n implies e1[j] == e2[j] by {
        assert(k1[j] == e1[j]);
        assert(k2[j] == e2[j]);
    }
    assert(e1 =~= e2);
}

/// Tag disjointness, stated for whole typed views: two typed maps whose key
/// types carry different tags never compose the same byte key, so neither
/// ever observes the other's entries, even over one shared store.
pub proof fn lemma_typed_map_keys_disjoint<K1: CandyTypedKey, K2: CandyTypedKey>(
    k1: K1::V,
    k2: K2::V,
)
    requires
        K1::spec_type_id() != K2::spec_type_id(),
    ensures
        typed_map_key::<K1>(k1) != typed_map_key::<K2>(k2),
{
    if typed_map_key::<K1>(k1) == typed_map_key::<K2>(k2) {
        lemma_map_key_injective(K1::enc_of(k1), K1::spec_type_id(), K2::enc_of(k2), K2::spec_type_id());
    }
}

/// The same disjointness for list and queue identifiers.
pub proof fn lemma_typed_list_keys_disjoint<L1: CandyTypedKey, L2: CandyTypedKey>(
    k1: L1::V,
    k2: L2::V,
)
    requires
        L1::spec_type_id() != L2::spec_type_id(),
    ensures
        typed_list_key::<L1>(k1) != typed_list_key::<L2>(k2),
{
    if typed_list_key::<L1>(k1) == typed_list_key::<L2>(k2) {
        lemma_list_key_injective(L1::enc_of(k1), L1::spec_type_id(), L2::enc_of(k2), L2::spec_type_id());
    }
}

/// Within one key type, distinct key values compose distinct byte keys: the
/// encoding is injective (decoding undoes it), and the composition keeps it
/// so.
pub proof fn lemma_typed_map_key_injective<K: CandyTypedKey>(k1: K::V, k2: K::V)
    requires
        K::enc_ok(k1),
        K::enc_ok(k2),
        typed_map_key::<K>(k1) == typed_map_key::<K>(k2),
    ensures
        k1 == k2,
{
    lemma_map_key_injective(K::enc_of(k1), K::spec_type_id(), K::enc_of(k2), K::spec_type_id());
    K::lemma_round_trip(k1);
    K::lemma_round_trip(k2);
}

/// The same injectivity for list and queue identifiers.
pub proof fn lemma_typed_list_key_injective<L: CandyTypedKey>(k1: L::V, k2: L::V)
    requires
        L::enc_ok(k1),
        L::enc_ok(k2),
        typed_list_key::<L>(k1) == typed_list_key::<L>(k2),
    ensures
        k1 == k2,
{
    lemma_list_key_injective(L::enc_of(k1), L::spec_type_id(), L::enc_of(k2), L::spec_type_id());
    L::lemma_round_trip(k1);
    L::lemma_round_trip(k2);
}

} // verus!
