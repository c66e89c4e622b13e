//! Round-trip theorems: decoding what the encoder produced gives the
//! original value back.
//!
//! The compact integer layer has its own round-trip and canonicality
//! theorems in the wire module; the theorems here lift them to the
//! codec's primitive shapes, for values in the decoder's image (an
//! unsigned shape holds an unsigned integer, a signed shape a signed
//! integer, and so on).

use vstd::prelude::*;
use vstd::utf8::{decode_utf8, encode_utf8};

use crate::ast::PrimitiveType;
use crate::decode::{spec_dec_compact_prim, spec_dec_prim, spec_from_unsigned};
use crate::encode::{
    spec_enc_compact_prim, spec_enc_prim, spec_int_in_range, spec_prim_len, spec_to_unsigned,
    spec_uint_max,
};
use crate::error::ErrorKind;
use crate::value::SpecValue;
use crate::wire::{
    lemma_compact_roundtrip, lemma_le_bytes_len, lemma_le_roundtrip, lemma_pow256_16,
    lemma_pow256_mono, lemma_pow256_pos, pow256, spec_compact_bytes, spec_le_bytes,
};

verus! {

/// The canonical value shape of a primitive: the shape the decoder
/// itself produces.
pub open spec fn spec_prim_canonical(p: PrimitiveType, v: SpecValue) -> bool {
    if p.is_unsigned_int() {
        v is Uint
    } else if p.is_signed_int() {
        v is Int
    } else if p is Bool {
        v is Bool
    } else {
        v is Str
    }
}

/// Law: fixed-width round trip.  For every primitive shape and every
/// canonical value the encoder accepts, decoding the encoding embedded
/// in any buffer yields the value back and consumes exactly the
/// encoding.
pub proof fn lemma_prim_roundtrip(p: PrimitiveType, v: SpecValue, bytes: Seq<u8>, pos: int)
    requires
        spec_prim_canonical(p, v),
        spec_enc_prim(p, v) is Ok,
        0 <= pos,
        pos + spec_enc_prim(p, v)->Ok_0.len() <= bytes.len(),
        bytes.subrange(pos, pos + spec_enc_prim(p, v)->Ok_0.len()) == spec_enc_prim(p, v)->Ok_0,
    ensures
        spec_dec_prim(p, bytes, pos) == Ok::<(SpecValue, int), ErrorKind>(
            (v, pos + spec_enc_prim(p, v)->Ok_0.len()),
        ),
{
    let b = spec_enc_prim(p, v)->Ok_0;
    let l = spec_prim_len(p);
    if p.is_unsigned_int() {
        let n = v->Uint_0;
        lemma_le_bytes_len(n as int, l);
        lemma_le_roundtrip(bytes, pos, n as int, l);
        lemma_pow256_pos(l);
        vstd::arithmetic::div_mod::lemma_small_mod(n as nat, pow256(l) as nat);
    } else if p.is_signed_int() {
        let i = v->Int_0;
        let u = spec_to_unsigned(i, l);
        lemma_le_bytes_len(u, l);
        lemma_le_roundtrip(bytes, pos, u, l);
        lemma_pow256_pos(l);
        vstd::arithmetic::div_mod::lemma_small_mod(u as nat, pow256(l) as nat);
        assert(spec_from_unsigned(u, l) == i);
        lemma_pow256_16();
        lemma_pow256_mono(l, 16);
        assert(spec_from_unsigned(u, l) as i128 == i);
    } else if p is Bool {
        assert(bytes[pos] == b[0]);
    } else {
        let s = v->Str_0;
        let sb = encode_utf8(s);
        let cb = spec_compact_bytes(sb.len() as u128);
        crate::wire::lemma_compact_bytes_len(sb.len() as u128);
        assert(bytes.subrange(pos, pos + cb.len() as int) =~= b.subrange(0, cb.len() as int));
        assert(b.subrange(0, cb.len() as int) =~= cb);
        lemma_compact_roundtrip(sb.len() as u128, bytes, pos);
        let p2 = pos + cb.len() as int;
        assert(bytes.subrange(p2, p2 + sb.len() as int) =~= b.subrange(
            cb.len() as int,
            b.len() as int,
        ));
        assert(b.subrange(cb.len() as int, b.len() as int) =~= sb);
        broadcast use vstd::utf8::encode_utf8_valid_utf8;

        vstd::utf8::encode_utf8_decode_utf8(s);
        assert(decode_utf8(bytes.subrange(p2, p2 + sb.len() as int)) == s);
    }
}

/// Law: compact round trip.  For every unsigned primitive shape and
/// every unsigned value within its width, decoding the compact encoding
/// embedded in any buffer yields the value back and consumes exactly the
/// encoding.
pub proof fn lemma_compact_prim_roundtrip(
    p: PrimitiveType,
    n: u128,
    bytes: Seq<u8>,
    pos: int,
)
    requires
        p.is_unsigned_int(),
        n <= spec_uint_max(p),
        0 <= pos,
        pos + spec_compact_bytes(n).len() <= bytes.len(),
        bytes.subrange(pos, pos + spec_compact_bytes(n).len()) == spec_compact_bytes(n),
    ensures
        spec_enc_compact_prim(p, SpecValue::Uint(n)) == Ok::<Seq<u8>, ErrorKind>(
            spec_compact_bytes(n),
        ),
        spec_dec_compact_prim(p, bytes, pos) == Ok::<(SpecValue, int), ErrorKind>(
            (SpecValue::Uint(n), pos + spec_compact_bytes(n).len()),
        ),
{
    lemma_compact_roundtrip(n, bytes, pos);
}


/// Law: whole-codec round trip at primitive shapes.  When a type
/// reference resolves to a primitive shape, decoding what the encoder
/// produced for a canonical value yields that value back and consumes
/// exactly the encoding, wherever in a buffer it is embedded.
pub proof fn lemma_value_roundtrip_primitive(
    reg: Seq<crate::ast::SpecTypeDef>,
    tid: crate::ast::SpecId,
    p: PrimitiveType,
    v: SpecValue,
    bytes: Seq<u8>,
    pos: int,
    depth: nat,
)
    requires
        depth >= 1,
        crate::registry::spec_resolve(reg, tid, true) == Ok::<
            crate::ast::SpecType,
            ErrorKind,
        >(crate::ast::SpecType::Primitive(p)),
        spec_prim_canonical(p, v),
        spec_enc_prim(p, v) is Ok,
        0 <= pos,
        pos + spec_enc_prim(p, v)->Ok_0.len() <= bytes.len(),
        bytes.subrange(pos, pos + spec_enc_prim(p, v)->Ok_0.len()) == spec_enc_prim(p, v)->Ok_0,
    ensures
        crate::encode::spec_enc_value(reg, tid, v, depth) == Ok::<Seq<u8>, ErrorKind>(
            spec_enc_prim(p, v)->Ok_0,
        ),
        crate::decode::spec_dec_value(reg, tid, bytes, pos, depth) == Ok::<
            (SpecValue, int),
            ErrorKind,
        >((v, pos + spec_enc_prim(p, v)->Ok_0.len())),
{
    lemma_prim_roundtrip(p, v, bytes, pos);
}

} // verus!
