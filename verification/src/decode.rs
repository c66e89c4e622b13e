//! The decoder: a byte buffer and a resolved type shape drive the dynamic
//! value built from the canonical encoding.  The cursor only advances;
//! whenever fewer bytes remain than the current shape requires, decoding
//! fails with a buffer underrun.

use vstd::prelude::*;
use vstd::utf8::{decode_utf8, valid_utf8};

use crate::ast::{
    spec_variant_index_by_tag, Id, PrimitiveType, SpecId, SpecType, SpecTypeDef, Type,
};
use crate::encode::{spec_prim_len, spec_uint_max};
use crate::error::{Error, ErrorKind};
use crate::registry::{spec_resolve, Registry};
use crate::value::{
    entries_view, lemma_entries_view_cons, lemma_values_view_cons, values_view,
    SpecValue, Value,
};
use crate::wire::{
    compact_decode, decode_le, lemma_pow256_16, lemma_pow256_mono, pow256, spec_compact_decode,
    spec_le_read,
};

verus! {

// ---------------------------------------------------------------------------
// primitive decodings
// ---------------------------------------------------------------------------

/// The signed reading of an unsigned word at the given byte width,
/// two's complement.
pub open spec fn spec_from_unsigned(u: int, l: int) -> int {
    if u < pow256(l) / 2 {
        u
    } else {
        u - pow256(l)
    }
}

/// Decodes a fixed-width primitive at `pos`.
pub open spec fn spec_dec_prim(p: PrimitiveType, bytes: Seq<u8>, pos: int) -> Result<
    (SpecValue, int),
    ErrorKind,
> {
    if p.is_unsigned_int() {
        let l = spec_prim_len(p);
        if pos + l > bytes.len() || pos < 0 {
            Err(ErrorKind::BufferUnderrun)
        } else {
            Ok((SpecValue::Uint(spec_le_read(bytes, pos, l) as u128), pos + l))
        }
    } else if p.is_signed_int() {
        let l = spec_prim_len(p);
        if pos + l > bytes.len() || pos < 0 {
            Err(ErrorKind::BufferUnderrun)
        } else {
            Ok(
                (
                    SpecValue::Int(spec_from_unsigned(spec_le_read(bytes, pos, l), l) as i128),
                    pos + l,
                ),
            )
        }
    } else if p is Bool {
        if pos >= bytes.len() || pos < 0 {
            Err(ErrorKind::BufferUnderrun)
        } else if bytes[pos] == 0 {
            Ok((SpecValue::Bool(false), pos + 1))
        } else if bytes[pos] == 1 {
            Ok((SpecValue::Bool(true), pos + 1))
        } else {
            Err(ErrorKind::TypeMismatch)
        }
    } else {
        match spec_compact_decode(bytes, pos) {
            Err(k) => Err(k),
            Ok((n, p2)) => {
                if n > u32::MAX {
                    Err(ErrorKind::TypeMismatch)
                } else if p2 + n > bytes.len() {
                    Err(ErrorKind::BufferUnderrun)
                } else {
                    let sub = bytes.subrange(p2, p2 + n);
                    if valid_utf8(sub) {
                        Ok((SpecValue::Str(decode_utf8(sub)), p2 + n))
                    } else {
                        Err(ErrorKind::TypeMismatch)
                    }
                }
            },
        }
    }
}

/// Decodes a compact integer at an unsigned primitive shape.
pub open spec fn spec_dec_compact_prim(p: PrimitiveType, bytes: Seq<u8>, pos: int) -> Result<
    (SpecValue, int),
    ErrorKind,
> {
    if p.is_unsigned_int() {
        match spec_compact_decode(bytes, pos) {
            Err(k) => Err(k),
            Ok((n, p2)) => if n <= spec_uint_max(p) {
                Ok((SpecValue::Uint(n), p2))
            } else {
                Err(ErrorKind::TypeMismatch)
            },
        }
    } else {
        Err(ErrorKind::TypeMismatch)
    }
}

// ---------------------------------------------------------------------------
// the decoder, as a function
// ---------------------------------------------------------------------------

/// The value decoded at `pos` against the type `tid` resolves to, with
/// the position after it, or the reason decoding fails.
pub open spec fn spec_dec_value(
    reg: Seq<SpecTypeDef>,
    tid: SpecId,
    bytes: Seq<u8>,
    pos: int,
    depth: nat,
) -> Result<(SpecValue, int), ErrorKind>
    decreases depth, 0nat, 0nat,
{
    if depth == 0 {
        Err(ErrorKind::DepthLimit)
    } else {
        match spec_resolve(reg, tid, true) {
            Err(k) => Err(k),
            Ok(t) => match t {
                SpecType::Alias(_) => Err(ErrorKind::Resolution),
                SpecType::Primitive(p) => spec_dec_prim(p, bytes, pos),
                SpecType::Compact(inner) => match spec_resolve(reg, inner, false) {
                    Err(k) => Err(k),
                    Ok(it) => match it {
                        SpecType::Primitive(p) => spec_dec_compact_prim(p, bytes, pos),
                        SpecType::Tuple(ids) => if ids.len() == 0 {
                            Ok((SpecValue::List(Seq::empty()), pos))
                        } else {
                            Err(ErrorKind::TypeMismatch)
                        },
                        _ => Err(ErrorKind::TypeMismatch),
                    },
                },
                SpecType::Sequence(elem) => spec_dec_sequence(
                    reg,
                    elem,
                    bytes,
                    pos,
                    (depth - 1) as nat,
                ),
                SpecType::Tuple(ids) => match spec_dec_tuple(
                    reg,
                    ids,
                    bytes,
                    pos,
                    (depth - 1) as nat,
                ) {
                    Ok((vs, p2)) => Ok((SpecValue::List(vs), p2)),
                    Err(k) => Err(k),
                },
                SpecType::Array(elem, n) => spec_dec_array(
                    reg,
                    elem,
                    n,
                    bytes,
                    pos,
                    (depth - 1) as nat,
                ),
                SpecType::Enum(vs) => spec_dec_enum(reg, vs, bytes, pos, (depth - 1) as nat),
                SpecType::Struct(fields) => match spec_dec_fields(
                    reg,
                    fields,
                    bytes,
                    pos,
                    (depth - 1) as nat,
                ) {
                    Ok((es, p2)) => Ok((SpecValue::Object(es), p2)),
                    Err(k) => Err(k),
                },
            },
        }
    }
}

/// The enum arm of the decoder: one discriminant byte selects the
/// variant, then its payload if it declares one; `depth` is the payload
/// budget.
pub open spec fn spec_dec_enum(
    reg: Seq<SpecTypeDef>,
    vs: Seq<crate::ast::SpecVariant>,
    bytes: Seq<u8>,
    pos: int,
    depth: nat,
) -> Result<(SpecValue, int), ErrorKind>
    decreases depth, 2nat, 0nat,
{
    if !(0 <= pos < bytes.len()) {
        Err(ErrorKind::BufferUnderrun)
    } else {
        let tag = bytes[pos];
        match spec_variant_index_by_tag(vs, tag) {
            None => Err(ErrorKind::TypeMismatch),
            Some(k) => match vs[k].payload {
                Some(ptid) => match spec_dec_value(reg, ptid, bytes, pos + 1, depth) {
                    Ok((pv, p2)) => Ok((SpecValue::Object(seq![(vs[k].name, pv)]), p2)),
                    Err(k2) => Err(k2),
                },
                None => Ok((SpecValue::Object(seq![(vs[k].name, SpecValue::Null)]), pos + 1)),
            },
        }
    }
}

/// The sequence arm of the decoder: a length-prefixed byte buffer for
/// `u8` elements, else a compact count and that many elements.
pub open spec fn spec_dec_sequence(
    reg: Seq<SpecTypeDef>,
    elem: SpecId,
    bytes: Seq<u8>,
    pos: int,
    depth: nat,
) -> Result<(SpecValue, int), ErrorKind>
    decreases depth, 2nat, 0nat,
{
    match spec_resolve(reg, elem, false) {
        Err(k) => Err(k),
        Ok(et) => {
            match spec_compact_decode(bytes, pos) {
                Err(k) => Err(k),
                Ok((n, p2)) => {
                    if n > u32::MAX {
                        Err(ErrorKind::TypeMismatch)
                    } else if et == SpecType::Primitive(PrimitiveType::U8) {
                        if p2 + n > bytes.len() {
                            Err(ErrorKind::BufferUnderrun)
                        } else {
                            Ok((SpecValue::Bytes(bytes.subrange(p2, p2 + n)), p2 + n))
                        }
                    } else {
                        match spec_dec_list(reg, elem, bytes, p2, n as int, depth) {
                            Ok((vs, p3)) => Ok((SpecValue::List(vs), p3)),
                            Err(k) => Err(k),
                        }
                    }
                },
            }
        },
    }
}

/// The array arm of the decoder: exactly `n` raw bytes for `u8`
/// elements, else `n` elements positionally.
pub open spec fn spec_dec_array(
    reg: Seq<SpecTypeDef>,
    elem: SpecId,
    n: u32,
    bytes: Seq<u8>,
    pos: int,
    depth: nat,
) -> Result<(SpecValue, int), ErrorKind>
    decreases depth, 2nat, 0nat,
{
    match spec_resolve(reg, elem, false) {
        Err(k) => Err(k),
        Ok(et) => {
            if et == SpecType::Primitive(PrimitiveType::U8) {
                if pos < 0 || pos + n > bytes.len() {
                    Err(ErrorKind::BufferUnderrun)
                } else {
                    Ok((SpecValue::Bytes(bytes.subrange(pos, pos + n)), pos + n))
                }
            } else {
                match spec_dec_list(reg, elem, bytes, pos, n as int, depth) {
                    Ok((vs, p2)) => Ok((SpecValue::List(vs), p2)),
                    Err(k) => Err(k),
                }
            }
        },
    }
}

/// `count` homogeneous elements, one after another.
pub open spec fn spec_dec_list(
    reg: Seq<SpecTypeDef>,
    elem: SpecId,
    bytes: Seq<u8>,
    pos: int,
    count: int,
    depth: nat,
) -> Result<(Seq<SpecValue>, int), ErrorKind>
    decreases depth, 1nat, count,
{
    if count <= 0 {
        Ok((Seq::empty(), pos))
    } else {
        match spec_dec_value(reg, elem, bytes, pos, depth) {
            Err(k) => Err(k),
            Ok((v, p2)) => match spec_dec_list(reg, elem, bytes, p2, count - 1, depth) {
                Ok((rest, p3)) => Ok((seq![v] + rest, p3)),
                Err(k) => Err(k),
            },
        }
    }
}

/// Positional members of a tuple.
pub open spec fn spec_dec_tuple(
    reg: Seq<SpecTypeDef>,
    ids: Seq<SpecId>,
    bytes: Seq<u8>,
    pos: int,
    depth: nat,
) -> Result<(Seq<SpecValue>, int), ErrorKind>
    decreases depth, 1nat, ids.len(),
{
    if ids.len() == 0 {
        Ok((Seq::empty(), pos))
    } else {
        match spec_dec_value(reg, ids[0], bytes, pos, depth) {
            Err(k) => Err(k),
            Ok((v, p2)) => match spec_dec_tuple(reg, ids.drop_first(), bytes, p2, depth) {
                Ok((rest, p3)) => Ok((seq![v] + rest, p3)),
                Err(k) => Err(k),
            },
        }
    }
}

/// Declared fields in order, keyed by field name.
pub open spec fn spec_dec_fields(
    reg: Seq<SpecTypeDef>,
    fields: Seq<crate::ast::SpecField>,
    bytes: Seq<u8>,
    pos: int,
    depth: nat,
) -> Result<(Seq<(Seq<char>, SpecValue)>, int), ErrorKind>
    decreases depth, 1nat, fields.len(),
{
    if fields.len() == 0 {
        Ok((Seq::empty(), pos))
    } else {
        match spec_dec_value(reg, fields[0].id, bytes, pos, depth) {
            Err(k) => Err(k),
            Ok((v, p2)) => match spec_dec_fields(reg, fields.drop_first(), bytes, p2, depth) {
                Ok((rest, p3)) => Ok((seq![(fields[0].name, v)] + rest, p3)),
                Err(k) => Err(k),
            },
        }
    }
}


// ---------------------------------------------------------------------------
// executable decoder
// ---------------------------------------------------------------------------

fn under_run() -> (r: Error)
    ensures
        r.kind == ErrorKind::BufferUnderrun,
{
    Error::from_text(ErrorKind::BufferUnderrun, "unexpected end of buffer")
}

fn bad_data(msg: &str) -> (r: Error)
    ensures
        r.kind == ErrorKind::TypeMismatch,
{
    Error::from_text(ErrorKind::TypeMismatch, msg)
}

/// Copies `bytes[from..from + n]` into a fresh buffer.
fn take_bytes(bytes: &[u8], from: usize, n: usize) -> (r: Vec<u8>)
    requires
        from + n <= bytes@.len(),
    ensures
        r@ == bytes@.subrange(from as int, from as int + n as int),
{
    let blen = bytes.len();
    let mut out: Vec<u8> = Vec::new();
    let mut i: usize = 0;
    while i < n
        invariant
            0 <= i <= n,
            blen == bytes@.len(),
            from + n <= blen,
            out@.len() == i,
            forall|j: int| 0 <= j < i ==> out@[j] == bytes@[from + j],
        decreases n - i,
    {
        out.push(bytes[from + i]);
        i += 1;
    }
    proof {
        assert(out@ =~= bytes@.subrange(from as int, from as int + n as int));
    }
    out
}

/// Decodes a fixed-width unsigned integer.
fn dec_uint_fixed(bytes: &[u8], pos: usize, l: usize) -> (r: Result<(Value, usize), Error>)
    requires
        pos <= bytes@.len(),
        1 <= l <= 16,
    ensures
        ({
            let lv = l as int;
            if pos + lv > bytes@.len() {
                r matches Err(e) && e.kind == ErrorKind::BufferUnderrun
            } else {
                r matches Ok(rp) && rp.0@ == SpecValue::Uint(
                    spec_le_read(bytes@, pos as int, lv) as u128,
                ) && rp.1 as int == pos + lv && rp.1 <= bytes@.len()
            }
        }),
{
    let blen = bytes.len();
    if blen - pos < l {
        return Err(under_run());
    }
    let u = decode_le(bytes, pos, l);
    proof {
        crate::wire::lemma_le_read_bound(bytes@, pos as int, l as int);
    }
    Ok((Value::Uint(u), pos + l))
}

/// Decodes a fixed-width signed integer, two's complement.
fn dec_int_fixed(bytes: &[u8], pos: usize, l: usize) -> (r: Result<(Value, usize), Error>)
    requires
        pos <= bytes@.len(),
        1 <= l <= 16,
    ensures
        ({
            let lv = l as int;
            if pos + lv > bytes@.len() {
                r matches Err(e) && e.kind == ErrorKind::BufferUnderrun
            } else {
                r matches Ok(rp) && rp.0@ == SpecValue::Int(
                    spec_from_unsigned(spec_le_read(bytes@, pos as int, lv), lv) as i128,
                ) && rp.1 as int == pos + lv && rp.1 <= bytes@.len()
            }
        }),
{
    let blen = bytes.len();
    if blen - pos < l {
        return Err(under_run());
    }
    let u = decode_le(bytes, pos, l);
    proof {
        crate::wire::lemma_le_read_bound(bytes@, pos as int, l as int);
        lemma_pow256_16();
    }
    let i: i128 = if l == 16 {
        proof {
            assert(pow256(16) / 2 == 0x80000000000000000000000000000000);
        }
        if u < 0x80000000000000000000000000000000 {
            u as i128
        } else {
            let m: u128 = u128::MAX - u;
            -(m as i128) - 1
        }
    } else {
        let range: u128 = crate::wire::pow256_u128(l);
        let half: u128 = range / 2;
        proof {
            crate::wire::lemma_pow256_pos(l as int);
            crate::wire::lemma_pow256_mono(l as int, 15);
            assert(half as int == pow256(l as int) / 2);
        }
        if u < half {
            u as i128
        } else {
            (u as i128) - (range as i128)
        }
    };
    Ok((Value::Int(i), pos + l))
}

/// Decodes a value at a primitive shape.
fn decode_prim(bytes: &[u8], pos: usize, p: PrimitiveType) -> (r: Result<(Value, usize), Error>)
    requires
        pos <= bytes@.len(),
    ensures
        match spec_dec_prim(p, bytes@, pos as int) {
            Ok((v, p2)) => r matches Ok(rp) && rp.0@ == v && rp.1 as int == p2 && rp.1
                <= bytes@.len(),
            Err(k) => r matches Err(e) && e.kind == k,
        },
{
    let blen = bytes.len();
    match p {
        PrimitiveType::U8 => dec_uint_fixed(bytes, pos, 1),
        PrimitiveType::U16 => dec_uint_fixed(bytes, pos, 2),
        PrimitiveType::U32 => dec_uint_fixed(bytes, pos, 4),
        PrimitiveType::U64 => dec_uint_fixed(bytes, pos, 8),
        PrimitiveType::U128 => dec_uint_fixed(bytes, pos, 16),
        PrimitiveType::I8 => dec_int_fixed(bytes, pos, 1),
        PrimitiveType::I16 => dec_int_fixed(bytes, pos, 2),
        PrimitiveType::I32 => dec_int_fixed(bytes, pos, 4),
        PrimitiveType::I64 => dec_int_fixed(bytes, pos, 8),
        PrimitiveType::I128 => dec_int_fixed(bytes, pos, 16),
        PrimitiveType::Bool => {
            if pos >= blen {
                return Err(under_run());
            }
            let b = bytes[pos];
            if b == 0 {
                Ok((Value::Bool(false), pos + 1))
            } else if b == 1 {
                Ok((Value::Bool(true), pos + 1))
            } else {
                Err(bad_data("invalid boolean byte"))
            }
        },
        PrimitiveType::Str => {
            match compact_decode(bytes, pos) {
                Err(e) => Err(e),
                Ok((n, p2)) => {
                    if n > 0xffffffff {
                        return Err(bad_data("string length out of range"));
                    }
                    let nu = n as usize;
                    if blen - p2 < nu {
                        return Err(under_run());
                    }
                    let sub = take_bytes(bytes, p2, nu);
                    let ghost subg = sub@;
                    match crate::strutil::string_from_utf8(sub) {
                        Some(st) => {
                            proof {
                                vstd::utf8::decode_utf8_encode_utf8(subg);
                                crate::strutil::lemma_encode_utf8_injective(
                                    st@,
                                    decode_utf8(subg),
                                );
                            }
                            Ok((Value::Str(st), p2 + nu))
                        },
                        None => Err(bad_data("string bytes are not valid text")),
                    }
                },
            }
        },
    }
}

/// Decodes a compact integer at an unsigned primitive shape.
fn decode_compact_prim(bytes: &[u8], pos: usize, p: PrimitiveType) -> (r: Result<
    (Value, usize),
    Error,
>)
    requires
        pos <= bytes@.len(),
    ensures
        match spec_dec_compact_prim(p, bytes@, pos as int) {
            Ok((v, p2)) => r matches Ok(rp) && rp.0@ == v && rp.1 as int == p2 && rp.1
                <= bytes@.len(),
            Err(k) => r matches Err(e) && e.kind == k,
        },
{
    proof {
        vstd::arithmetic::div_mod::lemma_fundamental_div_mod(0, 1);
        crate::wire::lemma_pow256_16();
        reveal_with_fuel(pow256, 17);
    }
    let max: u128 = match p {
        PrimitiveType::U8 => 0xff,
        PrimitiveType::U16 => 0xffff,
        PrimitiveType::U32 => 0xffffffff,
        PrimitiveType::U64 => 0xffffffffffffffff,
        PrimitiveType::U128 => 0xffffffffffffffffffffffffffffffff,
        _ => {
            return Err(bad_data("a number or () is needed for compact"));
        },
    };
    match compact_decode(bytes, pos) {
        Err(e) => Err(e),
        Ok((n, p2)) => {
            if n <= max {
                Ok((Value::Uint(n), p2))
            } else {
                Err(bad_data("integer too large for its width"))
            }
        },
    }
}

/// Decodes a value at `pos` against a type reference, returning the
/// value and the position after the bytes it consumed.
#[verifier::rlimit(100)]
pub fn decode_value(
    bytes: &[u8],
    pos: usize,
    tid: &Id,
    registry: &Registry,
    depth: u32,
) -> (r: Result<(Value, usize), Error>)
    requires
        pos <= bytes@.len(),
    ensures
        match spec_dec_value(registry@, tid@, bytes@, pos as int, depth as nat) {
            Ok((v, p2)) => r matches Ok(rp) && rp.0@ == v && rp.1 as int == p2 && rp.1
                <= bytes@.len(),
            Err(k) => r matches Err(e) && e.kind == k,
        },
    decreases depth, 0int, 0int,
{
    if depth == 0 {
        return Err(Error::from_text(ErrorKind::DepthLimit, "value nesting too deep"));
    }
    let blen = bytes.len();
    let t = match registry.resolve_type(tid, true) {
        Ok(t) => t,
        Err(e) => {
            return Err(e);
        },
    };
    match t {
        Type::Alias(_) => Err(
            Error::from_text(ErrorKind::Resolution, "alias reached the decoder unresolved"),
        ),
        Type::Primitive(p) => decode_prim(bytes, pos, p),
        Type::Compact(inner) => {
            match registry.resolve_type(&inner, false) {
                Err(e) => Err(e),
                Ok(it) => match it {
                    Type::Primitive(p) => decode_compact_prim(bytes, pos, p),
                    Type::Tuple(ids) => {
                        proof {
                            crate::ast::lemma_ids_view_index(ids@);
                        }
                        if ids.len() == 0 {
                            let empty: Vec<Value> = Vec::new();
                            proof {
                                assert(values_view(empty@) =~= Seq::<SpecValue>::empty());
                            }
                            Ok((Value::List(empty), pos))
                        } else {
                            Err(bad_data("a number or () is needed for compact"))
                        }
                    },
                    _ => Err(bad_data("a number or () is needed for compact")),
                },
            }
        },
        Type::Sequence(elem) => decode_sequence_body(bytes, pos, &elem, registry, depth - 1),
        Type::Tuple(ids) => {
            proof {
                crate::ast::lemma_ids_view_index(ids@);
                assert(crate::ast::ids_view(ids@).skip(0) =~= crate::ast::ids_view(ids@));
            }
            match decode_tuple_from(bytes, pos, &ids, 0, registry, depth - 1) {
                Ok((vs, p2)) => Ok((Value::List(vs), p2)),
                Err(e) => Err(e),
            }
        },
        Type::Array(elem, n) => decode_array_body(bytes, pos, &elem, n, registry, depth - 1),
        Type::Enum(en) => decode_enum_body(bytes, pos, &en, registry, depth - 1),
        Type::Struct(fields) => {
            proof {
                crate::ast::lemma_fields_view_index(fields@);
                assert(crate::ast::fields_view(fields@).skip(0) =~= crate::ast::fields_view(
                    fields@,
                ));
            }
            match decode_fields_from(bytes, pos, &fields, 0, registry, depth - 1) {
                Ok((es, p2)) => Ok((Value::Object(es), p2)),
                Err(e) => Err(e),
            }
        },
    }
}

fn decode_enum_body(
    bytes: &[u8],
    pos: usize,
    en: &crate::ast::Enum,
    registry: &Registry,
    depth: u32,
) -> (r: Result<(Value, usize), Error>)
    requires
        pos <= bytes@.len(),
    ensures
        match spec_dec_enum(registry@, en@, bytes@, pos as int, depth as nat) {
            Ok((v, p2)) => r matches Ok(rp) && rp.0@ == v && rp.1 as int == p2 && rp.1
                <= bytes@.len(),
            Err(k) => r matches Err(e) && e.kind == k,
        },
    decreases depth, 2int, 0int,
{
    let blen = bytes.len();
    if pos >= blen {
        return Err(under_run());
    }
    let tag = bytes[pos];
    let (vname, payload) = match en.get_variant_by_index(tag) {
        Ok(vp) => vp,
        Err(e) => return Err(e),
    };
    match payload {
        Some(ptid) => {
            let (pv, p2) = match decode_value(bytes, pos + 1, &ptid, registry, depth) {
                Ok(x) => x,
                Err(e) => return Err(e),
            };
            let ghost pvg = pv@;
            let ghost vn = vname@;
            let mut es: Vec<(String, Value)> = Vec::new();
            es.push((vname, pv));
            proof {
                crate::value::lemma_entries_view_index(es@);
                assert(entries_view(es@) =~= seq![(vn, pvg)]);
            }
            Ok((Value::Object(es), p2))
        },
        None => {
            let ghost vn = vname@;
            let mut es: Vec<(String, Value)> = Vec::new();
            es.push((vname, Value::Null));
            proof {
                crate::value::lemma_entries_view_index(es@);
                assert(entries_view(es@) =~= seq![(vn, SpecValue::Null)]);
            }
            Ok((Value::Object(es), pos + 1))
        },
    }
}

fn decode_sequence_body(
    bytes: &[u8],
    pos: usize,
    elem: &Id,
    registry: &Registry,
    depth: u32,
) -> (r: Result<(Value, usize), Error>)
    requires
        pos <= bytes@.len(),
    ensures
        match spec_dec_sequence(registry@, elem@, bytes@, pos as int, depth as nat) {
            Ok((v, p2)) => r matches Ok(rp) && rp.0@ == v && rp.1 as int == p2 && rp.1
                <= bytes@.len(),
            Err(k) => r matches Err(e) && e.kind == k,
        },
    decreases depth, 2int, 0int,
{
    let blen = bytes.len();
    let et = match registry.resolve_type(elem, false) {
        Ok(et) => et,
        Err(e) => {
            return Err(e);
        },
    };
    let is_u8 = matches!(et, Type::Primitive(PrimitiveType::U8));
    match compact_decode(bytes, pos) {
        Err(e) => Err(e),
        Ok((n, p2)) => {
            if n > 0xffffffff {
                return Err(bad_data("sequence length out of range"));
            }
            if is_u8 {
                let nu = n as usize;
                if blen - p2 < nu {
                    return Err(under_run());
                }
                let sub = take_bytes(bytes, p2, nu);
                Ok((Value::Bytes(sub), p2 + nu))
            } else {
                match decode_list_count(bytes, p2, elem, n as u32, registry, depth) {
                    Ok((vs, p3)) => Ok((Value::List(vs), p3)),
                    Err(e) => Err(e),
                }
            }
        },
    }
}

fn decode_array_body(
    bytes: &[u8],
    pos: usize,
    elem: &Id,
    n: u32,
    registry: &Registry,
    depth: u32,
) -> (r: Result<(Value, usize), Error>)
    requires
        pos <= bytes@.len(),
    ensures
        match spec_dec_array(registry@, elem@, n, bytes@, pos as int, depth as nat) {
            Ok((v, p2)) => r matches Ok(rp) && rp.0@ == v && rp.1 as int == p2 && rp.1
                <= bytes@.len(),
            Err(k) => r matches Err(e) && e.kind == k,
        },
    decreases depth, 2int, 0int,
{
    let blen = bytes.len();
    let et = match registry.resolve_type(elem, false) {
        Ok(et) => et,
        Err(e) => {
            return Err(e);
        },
    };
    let is_u8 = matches!(et, Type::Primitive(PrimitiveType::U8));
    if is_u8 {
        let nu = n as usize;
        if blen - pos < nu {
            return Err(under_run());
        }
        let sub = take_bytes(bytes, pos, nu);
        Ok((Value::Bytes(sub), pos + nu))
    } else {
        match decode_list_count(bytes, pos, elem, n, registry, depth) {
            Ok((vs, p2)) => Ok((Value::List(vs), p2)),
            Err(e) => Err(e),
        }
    }
}

fn decode_list_count(
    bytes: &[u8],
    pos: usize,
    elem: &Id,
    count: u32,
    registry: &Registry,
    depth: u32,
) -> (r: Result<(Vec<Value>, usize), Error>)
    requires
        pos <= bytes@.len(),
    ensures
        match spec_dec_list(registry@, elem@, bytes@, pos as int, count as int, depth as nat) {
            Ok((vs, p2)) => r matches Ok(rp) && values_view(rp.0@) == vs && rp.1 as int == p2
                && rp.1 <= bytes@.len(),
            Err(k) => r matches Err(e) && e.kind == k,
        },
    decreases depth, 1int, count,
{
    if count == 0 {
        let out: Vec<Value> = Vec::new();
        proof {
            assert(values_view(out@) =~= Seq::<SpecValue>::empty());
        }
        return Ok((out, pos));
    }
    match decode_value(bytes, pos, elem, registry, depth) {
        Err(e) => Err(e),
        Ok((v, p2)) => {
            match decode_list_count(bytes, p2, elem, count - 1, registry, depth) {
                Err(e) => Err(e),
                Ok((mut rest, p3)) => {
                    let ghost vg = v;
                    let ghost restg = rest@;
                    let mut out: Vec<Value> = Vec::new();
                    out.push(v);
                    out.append(&mut rest);
                    proof {
                        assert(out@ =~= seq![vg] + restg);
                        lemma_values_view_cons(vg, restg);
                    }
                    Ok((out, p3))
                },
            }
        },
    }
}

fn decode_tuple_from(
    bytes: &[u8],
    pos: usize,
    ids: &Vec<Id>,
    from: usize,
    registry: &Registry,
    depth: u32,
) -> (r: Result<(Vec<Value>, usize), Error>)
    requires
        pos <= bytes@.len(),
        from <= ids@.len(),
    ensures
        match spec_dec_tuple(
            registry@,
            crate::ast::ids_view(ids@).skip(from as int),
            bytes@,
            pos as int,
            depth as nat,
        ) {
            Ok((vs, p2)) => r matches Ok(rp) && values_view(rp.0@) == vs && rp.1 as int == p2
                && rp.1 <= bytes@.len(),
            Err(k) => r matches Err(e) && e.kind == k,
        },
    decreases depth, 1int, ids@.len() - from,
{
    proof {
        crate::ast::lemma_ids_view_index(ids@);
    }
    if from == ids.len() {
        let out: Vec<Value> = Vec::new();
        proof {
            assert(crate::ast::ids_view(ids@).skip(from as int).len() == 0);
            assert(values_view(out@) =~= Seq::<SpecValue>::empty());
        }
        return Ok((out, pos));
    }
    proof {
        assert(crate::ast::ids_view(ids@).skip(from as int)[0] == crate::ast::id_view(
            ids@[from as int],
        ));
        assert(crate::ast::ids_view(ids@).skip(from as int).drop_first()
            =~= crate::ast::ids_view(ids@).skip(from as int + 1));
    }
    match decode_value(bytes, pos, &ids[from], registry, depth) {
        Err(e) => Err(e),
        Ok((v, p2)) => {
            match decode_tuple_from(bytes, p2, ids, from + 1, registry, depth) {
                Err(e) => Err(e),
                Ok((mut rest, p3)) => {
                    let ghost vg = v;
                    let ghost restg = rest@;
                    let mut out: Vec<Value> = Vec::new();
                    out.push(v);
                    out.append(&mut rest);
                    proof {
                        assert(out@ =~= seq![vg] + restg);
                        lemma_values_view_cons(vg, restg);
                    }
                    Ok((out, p3))
                },
            }
        },
    }
}

fn decode_fields_from(
    bytes: &[u8],
    pos: usize,
    fields: &Vec<(String, Id)>,
    from: usize,
    registry: &Registry,
    depth: u32,
) -> (r: Result<(Vec<(String, Value)>, usize), Error>)
    requires
        pos <= bytes@.len(),
        from <= fields@.len(),
    ensures
        match spec_dec_fields(
            registry@,
            crate::ast::fields_view(fields@).skip(from as int),
            bytes@,
            pos as int,
            depth as nat,
        ) {
            Ok((es, p2)) => r matches Ok(rp) && entries_view(rp.0@) == es && rp.1 as int == p2
                && rp.1 <= bytes@.len(),
            Err(k) => r matches Err(e) && e.kind == k,
        },
    decreases depth, 1int, fields@.len() - from,
{
    proof {
        crate::ast::lemma_fields_view_index(fields@);
    }
    if from == fields.len() {
        let out: Vec<(String, Value)> = Vec::new();
        proof {
            assert(crate::ast::fields_view(fields@).skip(from as int).len() == 0);
            assert(entries_view(out@) =~= Seq::<(Seq<char>, SpecValue)>::empty());
        }
        return Ok((out, pos));
    }
    proof {
        assert(crate::ast::fields_view(fields@).skip(from as int)[0] == (crate::ast::SpecField {
            name: fields@[from as int].0@,
            id: crate::ast::id_view(fields@[from as int].1),
        }));
        assert(crate::ast::fields_view(fields@).skip(from as int).drop_first()
            =~= crate::ast::fields_view(fields@).skip(from as int + 1));
    }
    let (name, ftid) = &fields[from];
    match decode_value(bytes, pos, ftid, registry, depth) {
        Err(e) => Err(e),
        Ok((v, p2)) => {
            match decode_fields_from(bytes, p2, fields, from + 1, registry, depth) {
                Err(e) => Err(e),
                Ok((mut rest, p3)) => {
                    let entry = (name.clone(), v);
                    let ghost eg = entry;
                    let ghost restg = rest@;
                    let mut out: Vec<(String, Value)> = Vec::new();
                    out.push(entry);
                    out.append(&mut rest);
                    proof {
                        assert(out@ =~= seq![eg] + restg);
                        lemma_entries_view_cons(eg, restg);
                    }
                    Ok((out, p3))
                },
            }
        },
    }
}

} // verus!
