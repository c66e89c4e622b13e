//! The encoder: a dynamic value and a resolved type shape drive the
//! canonical bytes appended to the output buffer.
//!
//! Resolution uses the literal fallback at the top level of each value and
//! disables it when a nested element type is resolved for the byte
//! fast-path check.  A depth budget bounds the recursion; the default
//! budget is `DEPTH_LIMIT`.

use vstd::prelude::*;
use vstd::utf8::encode_utf8;

use crate::ast::{
    spec_variant_disc, spec_variant_index_by_name, Id, PrimitiveType, SpecId, SpecType,
    SpecTypeDef, SpecVariant, SpecField, Type,
};
use crate::error::{Error, ErrorKind};
use crate::registry::{spec_resolve, Registry};
use crate::value::{
    spec_as_int, spec_as_uint, spec_byte_input, spec_get_prop, SpecValue, Value,
    lemma_values_view_index, lemma_entries_view_index,
};
use crate::wire::{
    compact_encode, encode_le, pow256, spec_compact_bytes, spec_le_bytes, lemma_pow256_16,
};

verus! {

/// The default nesting budget of the encoder and the decoder.
pub const DEPTH_LIMIT: u32 = 256;

// ---------------------------------------------------------------------------
// primitive encodings
// ---------------------------------------------------------------------------

/// Byte width of a fixed-size primitive integer.
pub open spec fn spec_prim_len(p: PrimitiveType) -> int {
    (p.width_bits() / 8) as int
}

/// Largest value of an unsigned primitive.
pub open spec fn spec_uint_max(p: PrimitiveType) -> u128 {
    (pow256(spec_prim_len(p)) - 1) as u128
}

/// The two's-complement unsigned reading of a signed value at the given
/// byte width.
pub open spec fn spec_to_unsigned(i: i128, l: int) -> int {
    if i >= 0 {
        i as int
    } else {
        i + pow256(l)
    }
}

/// Bounds of a signed primitive of the given byte width.
pub open spec fn spec_int_in_range(i: i128, l: int) -> bool {
    -(pow256(l) / 2) <= i < pow256(l) / 2
}

/// The fixed-width encoding of a value at a primitive shape.
pub open spec fn spec_enc_prim(p: PrimitiveType, v: SpecValue) -> Result<Seq<u8>, ErrorKind> {
    if p.is_unsigned_int() {
        match spec_as_uint(v) {
            Some(n) => if n <= spec_uint_max(p) {
                Ok(spec_le_bytes(n as int, spec_prim_len(p)))
            } else {
                Err(ErrorKind::TypeMismatch)
            },
            None => Err(ErrorKind::TypeMismatch),
        }
    } else if p.is_signed_int() {
        match spec_as_int(v) {
            Some(i) => if spec_int_in_range(i, spec_prim_len(p)) {
                Ok(spec_le_bytes(spec_to_unsigned(i, spec_prim_len(p)), spec_prim_len(p)))
            } else {
                Err(ErrorKind::TypeMismatch)
            },
            None => Err(ErrorKind::TypeMismatch),
        }
    } else if p is Bool {
        match v {
            SpecValue::Bool(b) => Ok(seq![if b { 1u8 } else { 0u8 }]),
            _ => Err(ErrorKind::TypeMismatch),
        }
    } else {
        match v {
            SpecValue::Str(s) => {
                let bs = encode_utf8(s);
                if bs.len() <= u32::MAX {
                    Ok(spec_compact_bytes(bs.len() as u128) + bs)
                } else {
                    Err(ErrorKind::TypeMismatch)
                }
            },
            _ => Err(ErrorKind::TypeMismatch),
        }
    }
}

/// The compact encoding of a value at an unsigned primitive shape; only
/// unsigned integers can be compact.
pub open spec fn spec_enc_compact_prim(p: PrimitiveType, v: SpecValue) -> Result<
    Seq<u8>,
    ErrorKind,
> {
    if p.is_unsigned_int() {
        match spec_as_uint(v) {
            Some(n) => if n <= spec_uint_max(p) {
                Ok(spec_compact_bytes(n))
            } else {
                Err(ErrorKind::TypeMismatch)
            },
            None => Err(ErrorKind::TypeMismatch),
        }
    } else {
        Err(ErrorKind::TypeMismatch)
    }
}

// ---------------------------------------------------------------------------
// the encoder, as a function
// ---------------------------------------------------------------------------

/// The sequence arm of the encoder: the byte fast path when the element
/// type is `u8` and the value reads as bytes, else a compact length
/// prefix and the elements; `depth` is the element budget.
pub open spec fn spec_enc_sequence(
    reg: Seq<SpecTypeDef>,
    elem: SpecId,
    v: SpecValue,
    depth: nat,
) -> Result<Seq<u8>, ErrorKind>
    decreases depth, 2nat, 0nat,
{
    match spec_resolve(reg, elem, false) {
        Err(k) => Err(k),
        Ok(et) => {
            if et == SpecType::Primitive(PrimitiveType::U8) && spec_byte_input(v) is Some {
                match spec_byte_input(v) {
                    Some(Ok(bs)) => if bs.len() <= u32::MAX {
                        Ok(spec_compact_bytes(bs.len() as u128) + bs)
                    } else {
                        Err(ErrorKind::TypeMismatch)
                    },
                    Some(Err(k)) => Err(k),
                    None => Err(ErrorKind::TypeMismatch),
                }
            } else {
                match v {
                    SpecValue::List(elems) => if elems.len() <= u32::MAX {
                        match spec_enc_list(reg, elem, elems, depth) {
                            Ok(b) => Ok(spec_compact_bytes(elems.len() as u128) + b),
                            Err(k) => Err(k),
                        }
                    } else {
                        Err(ErrorKind::TypeMismatch)
                    },
                    _ => Err(ErrorKind::TypeMismatch),
                }
            }
        },
    }
}

/// The array arm of the encoder: the byte fast path with a strict length
/// check and no prefix, else the elements positionally; `depth` is the
/// element budget.
pub open spec fn spec_enc_array(
    reg: Seq<SpecTypeDef>,
    elem: SpecId,
    n: u32,
    v: SpecValue,
    depth: nat,
) -> Result<Seq<u8>, ErrorKind>
    decreases depth, 2nat, 0nat,
{
    match spec_resolve(reg, elem, false) {
        Err(k) => Err(k),
        Ok(et) => {
            if et == SpecType::Primitive(PrimitiveType::U8) && spec_byte_input(v) is Some {
                match spec_byte_input(v) {
                    Some(Ok(bs)) => if bs.len() == n {
                        Ok(bs)
                    } else {
                        Err(ErrorKind::TypeMismatch)
                    },
                    Some(Err(k)) => Err(k),
                    None => Err(ErrorKind::TypeMismatch),
                }
            } else {
                match v {
                    SpecValue::List(elems) => if elems.len() == n {
                        spec_enc_list(reg, elem, elems, depth)
                    } else {
                        Err(ErrorKind::TypeMismatch)
                    },
                    _ => Err(ErrorKind::TypeMismatch),
                }
            }
        },
    }
}

/// The canonical bytes of `v` at the type `tid` resolves to, or the
/// reason encoding fails.
pub open spec fn spec_enc_value(
    reg: Seq<SpecTypeDef>,
    tid: SpecId,
    v: SpecValue,
    depth: nat,
) -> Result<Seq<u8>, ErrorKind>
    decreases depth, 0nat, 0nat,
{
    if depth == 0 {
        Err(ErrorKind::DepthLimit)
    } else {
        match spec_resolve(reg, tid, true) {
            Err(k) => Err(k),
            Ok(t) => match t {
                SpecType::Alias(_) => Err(ErrorKind::Resolution),
                SpecType::Primitive(p) => spec_enc_prim(p, v),
                SpecType::Compact(inner) => match spec_resolve(reg, inner, false) {
                    Err(k) => Err(k),
                    Ok(it) => match it {
                        SpecType::Primitive(p) => spec_enc_compact_prim(p, v),
                        SpecType::Tuple(ids) => if ids.len() == 0 {
                            Ok(Seq::empty())
                        } else {
                            Err(ErrorKind::TypeMismatch)
                        },
                        _ => Err(ErrorKind::TypeMismatch),
                    },
                },
                SpecType::Sequence(elem) => spec_enc_sequence(reg, elem, v, (depth - 1) as nat),
                SpecType::Tuple(ids) => match v {
                    SpecValue::List(elems) => spec_enc_tuple(reg, ids, elems, (depth - 1) as nat),
                    _ => Err(ErrorKind::TypeMismatch),
                },
                SpecType::Array(elem, n) => spec_enc_array(reg, elem, n, v, (depth - 1) as nat),
                SpecType::Enum(vs) => match v {
                    SpecValue::Object(entries) => spec_enc_enum(reg, vs, entries, (depth - 1) as nat),
                    _ => Err(ErrorKind::TypeMismatch),
                },
                SpecType::Struct(fields) => match v {
                    SpecValue::Object(entries) => spec_enc_struct(
                        reg,
                        fields,
                        entries,
                        (depth - 1) as nat,
                    ),
                    _ => Err(ErrorKind::TypeMismatch),
                },
            },
        }
    }
}

/// Homogeneous elements, one after another.
pub open spec fn spec_enc_list(
    reg: Seq<SpecTypeDef>,
    elem: SpecId,
    elems: Seq<SpecValue>,
    depth: nat,
) -> Result<Seq<u8>, ErrorKind>
    decreases depth, 1nat, elems.len(),
{
    if elems.len() == 0 {
        Ok(Seq::empty())
    } else {
        match spec_enc_value(reg, elem, elems[0], depth) {
            Err(k) => Err(k),
            Ok(b) => match spec_enc_list(reg, elem, elems.drop_first(), depth) {
                Ok(rest) => Ok(b + rest),
                Err(k) => Err(k),
            },
        }
    }
}

/// Positional members of a tuple; the value must have at least as many
/// elements as the shape has members, and extra elements are ignored.
pub open spec fn spec_enc_tuple(
    reg: Seq<SpecTypeDef>,
    ids: Seq<SpecId>,
    elems: Seq<SpecValue>,
    depth: nat,
) -> Result<Seq<u8>, ErrorKind>
    decreases depth, 1nat, ids.len(),
{
    if ids.len() == 0 {
        Ok(Seq::empty())
    } else if elems.len() == 0 {
        Err(ErrorKind::TypeMismatch)
    } else {
        match spec_enc_value(reg, ids[0], elems[0], depth) {
            Err(k) => Err(k),
            Ok(b) => match spec_enc_tuple(
                reg,
                ids.drop_first(),
                elems.drop_first(),
                depth,
            ) {
                Ok(rest) => Ok(b + rest),
                Err(k) => Err(k),
            },
        }
    }
}

/// The first entry of the value whose key names a variant selects it:
/// one discriminant byte, then the payload if the variant declares one.
pub open spec fn spec_enc_enum(
    reg: Seq<SpecTypeDef>,
    vs: Seq<SpecVariant>,
    entries: Seq<(Seq<char>, SpecValue)>,
    depth: nat,
) -> Result<Seq<u8>, ErrorKind>
    decreases depth, 1nat, entries.len(),
{
    if entries.len() == 0 {
        Err(ErrorKind::TypeMismatch)
    } else {
        match spec_variant_index_by_name(vs, entries[0].0) {
            Some(k) => {
                let d = spec_variant_disc(vs, k);
                if d > 255 {
                    Err(ErrorKind::TypeMismatch)
                } else {
                    match vs[k].payload {
                        Some(ptid) => match spec_enc_value(reg, ptid, entries[0].1, depth) {
                            Ok(b) => Ok(seq![d as u8] + b),
                            Err(k2) => Err(k2),
                        },
                        None => Ok(seq![d as u8]),
                    }
                }
            },
            None => spec_enc_enum(reg, vs, entries.drop_first(), depth),
        }
    }
}

/// Declared fields in order, each read from the value by name.
pub open spec fn spec_enc_struct(
    reg: Seq<SpecTypeDef>,
    fields: Seq<SpecField>,
    entries: Seq<(Seq<char>, SpecValue)>,
    depth: nat,
) -> Result<Seq<u8>, ErrorKind>
    decreases depth, 1nat, fields.len(),
{
    if fields.len() == 0 {
        Ok(Seq::empty())
    } else {
        match spec_get_prop(entries, fields[0].name) {
            None => Err(ErrorKind::TypeMismatch),
            Some(fv) => match spec_enc_value(reg, fields[0].id, fv, depth) {
                Err(k) => Err(k),
                Ok(b) => match spec_enc_struct(
                    reg,
                    fields.drop_first(),
                    entries,
                    depth,
                ) {
                    Ok(rest) => Ok(b + rest),
                    Err(k) => Err(k),
                },
            },
        }
    }
}


// ---------------------------------------------------------------------------
// executable encoder
// ---------------------------------------------------------------------------

/// Appends all bytes of `bs` to `out`.
pub fn append_bytes(out: &mut Vec<u8>, bs: &Vec<u8>)
    ensures
        final(out)@ == old(out)@ + bs@,
{
    let ghost init = out@;
    let n = bs.len();
    let mut i: usize = 0;
    while i < n
        invariant
            0 <= i <= n,
            n == bs@.len(),
            out@ == init + bs@.take(i as int),
        decreases n - i,
    {
        out.push(bs[i]);
        proof {
            assert(out@ =~= init + bs@.take(i as int + 1));
        }
        i += 1;
    }
    proof {
        assert(out@ =~= init + bs@);
    }
}

fn type_mismatch(msg: &str) -> (r: Error)
    ensures
        r.kind == ErrorKind::TypeMismatch,
{
    Error::from_text(ErrorKind::TypeMismatch, msg)
}

/// Encodes an unsigned-integer value at a fixed width.
fn enc_uint_fixed(value: &Value, l: usize, max: u128, out: &mut Vec<u8>) -> (r: Result<(), Error>)
    requires
        1 <= l <= 16,
        max as int == pow256(l as int) - 1,
    ensures
        match spec_as_uint(value@) {
            Some(n) => if n <= max {
                r is Ok && final(out)@ == old(out)@ + spec_le_bytes(n as int, l as int)
            } else {
                r matches Err(e) && e.kind == ErrorKind::TypeMismatch && final(out)@ == old(out)@
            },
            None => r matches Err(e) && e.kind == ErrorKind::TypeMismatch && final(out)@ == old(
                out,
            )@,
        },
{
    match value.as_uint() {
        Some(n) => {
            if n <= max {
                encode_le(n, l, out);
                Ok(())
            } else {
                Err(type_mismatch("integer too large for its width"))
            }
        },
        None => Err(type_mismatch("expected an unsigned integer")),
    }
}

/// Encodes a signed-integer value at a fixed width, two's complement.
fn enc_int_fixed(value: &Value, l: usize, out: &mut Vec<u8>) -> (r: Result<(), Error>)
    requires
        1 <= l <= 16,
    ensures
        match spec_as_int(value@) {
            Some(i) => if spec_int_in_range(i, l as int) {
                r is Ok && final(out)@ == old(out)@ + spec_le_bytes(
                    spec_to_unsigned(i, l as int),
                    l as int,
                )
            } else {
                r matches Err(e) && e.kind == ErrorKind::TypeMismatch && final(out)@ == old(out)@
            },
            None => r matches Err(e) && e.kind == ErrorKind::TypeMismatch && final(out)@ == old(
                out,
            )@,
        },
{
    proof {
        lemma_pow256_16();
    }
    match value.as_int() {
        Some(i) => {
            if l == 16 {
                proof {
                    assert(pow256(16) / 2 == 0x80000000000000000000000000000000);
                }
                let u: u128 = if i >= 0 {
                    i as u128
                } else {
                    let m: i128 = -(i + 1);
                    u128::MAX - (m as u128)
                };
                proof {
                    assert(u as int == spec_to_unsigned(i, 16));
                }
                encode_le(u, l, out);
                Ok(())
            } else {
                let range: u128 = crate::wire::pow256_u128(l);
                let half: u128 = range / 2;
                proof {
                    crate::wire::lemma_pow256_pos(l as int);
                    crate::wire::lemma_pow256_mono(l as int, 15);
                    assert(half as int == pow256(l as int) / 2);
                }
                if i >= 0 {
                    if (i as u128) < half {
                        encode_le(i as u128, l, out);
                        Ok(())
                    } else {
                        Err(type_mismatch("integer too large for its width"))
                    }
                } else {
                    if i >= -(half as i128) {
                        let u: u128 = (i + range as i128) as u128;
                        encode_le(u, l, out);
                        Ok(())
                    } else {
                        Err(type_mismatch("integer too small for its width"))
                    }
                }
            }
        },
        None => Err(type_mismatch("expected a signed integer")),
    }
}

/// Encodes a value at a primitive shape.
fn encode_prim(value: &Value, p: PrimitiveType, out: &mut Vec<u8>) -> (r: Result<(), Error>)
    ensures
        match spec_enc_prim(p, value@) {
            Ok(b) => r is Ok && final(out)@ == old(out)@ + b,
            Err(k) => r matches Err(e) && e.kind == k,
        },
{
    proof {
        lemma_pow256_16();
        reveal_with_fuel(pow256, 17);
    }
    match p {
        PrimitiveType::U8 => enc_uint_fixed(value, 1, 0xff, out),
        PrimitiveType::U16 => enc_uint_fixed(value, 2, 0xffff, out),
        PrimitiveType::U32 => enc_uint_fixed(value, 4, 0xffffffff, out),
        PrimitiveType::U64 => enc_uint_fixed(value, 8, 0xffffffffffffffff, out),
        PrimitiveType::U128 => enc_uint_fixed(value, 16, 0xffffffffffffffffffffffffffffffff, out),
        PrimitiveType::I8 => enc_int_fixed(value, 1, out),
        PrimitiveType::I16 => enc_int_fixed(value, 2, out),
        PrimitiveType::I32 => enc_int_fixed(value, 4, out),
        PrimitiveType::I64 => enc_int_fixed(value, 8, out),
        PrimitiveType::I128 => enc_int_fixed(value, 16, out),
        PrimitiveType::Bool => {
            match value.as_bool() {
                Some(b) => {
                    out.push(if b { 1 } else { 0 });
                    proof {
                        assert(final(out)@ =~= old(out)@ + seq![if b { 1u8 } else { 0u8 }]);
                    }
                    Ok(())
                },
                None => Err(type_mismatch("expected a boolean")),
            }
        },
        PrimitiveType::Str => {
            match value {
                Value::Str(s) => {
                    let bs = s.as_str().as_bytes_vec();
                    if bs.len() <= 0xffffffff {
                        compact_encode(bs.len() as u128, out);
                        append_bytes(out, &bs);
                        Ok(())
                    } else {
                        Err(type_mismatch("string too long"))
                    }
                },
                _ => Err(type_mismatch("expected a string")),
            }
        },
    }
}

/// Encodes a value compactly at an unsigned primitive shape.
fn encode_compact_prim(value: &Value, p: PrimitiveType, out: &mut Vec<u8>) -> (r: Result<
    (),
    Error,
>)
    ensures
        match spec_enc_compact_prim(p, value@) {
            Ok(b) => r is Ok && final(out)@ == old(out)@ + b,
            Err(k) => r matches Err(e) && e.kind == k,
        },
{
    proof {
        reveal_with_fuel(pow256, 17);
    }
    let max: u128 = match p {
        PrimitiveType::U8 => 0xff,
        PrimitiveType::U16 => 0xffff,
        PrimitiveType::U32 => 0xffffffff,
        PrimitiveType::U64 => 0xffffffffffffffff,
        PrimitiveType::U128 => 0xffffffffffffffffffffffffffffffff,
        _ => {
            return Err(type_mismatch("a number or () is needed for compact"));
        },
    };
    match value.as_uint() {
        Some(n) => {
            if n <= max {
                compact_encode(n, out);
                Ok(())
            } else {
                Err(type_mismatch("integer too large for its width"))
            }
        },
        None => Err(type_mismatch("a number or () is needed for compact")),
    }
}

/// Encodes a value against a type reference, appending the canonical
/// bytes to `out`.  On an error the buffer may hold a partial prefix; no
/// partial output is valid.
#[verifier::rlimit(100)]
pub fn encode_value(
    value: &Value,
    tid: &Id,
    registry: &Registry,
    out: &mut Vec<u8>,
    depth: u32,
) -> (r: Result<(), Error>)
    ensures
        match spec_enc_value(registry@, tid@, value@, depth as nat) {
            Ok(b) => r is Ok && final(out)@ == old(out)@ + b,
            Err(k) => r matches Err(e) && e.kind == k,
        },
    decreases depth, 0int, 0int,
{
    if depth == 0 {
        return Err(Error::from_text(ErrorKind::DepthLimit, "value nesting too deep"));
    }
    let t = match registry.resolve_type(tid, true) {
        Ok(t) => t,
        Err(e) => {
            return Err(e);
        },
    };
    match t {
        Type::Alias(_) => Err(
            Error::from_text(ErrorKind::Resolution, "alias reached the encoder unresolved"),
        ),
        Type::Primitive(p) => encode_prim(value, p, out),
        Type::Compact(inner) => {
            match registry.resolve_type(&inner, false) {
                Err(e) => Err(e),
                Ok(it) => match it {
                    Type::Primitive(p) => encode_compact_prim(value, p, out),
                    Type::Tuple(ids) => {
                        if ids.len() == 0 {
                            proof {
                                crate::ast::lemma_ids_view_index(ids@);
                                assert(final(out)@ =~= old(out)@ + Seq::<u8>::empty());
                            }
                            Ok(())
                        } else {
                            proof {
                                crate::ast::lemma_ids_view_index(ids@);
                            }
                            Err(type_mismatch("a number or () is needed for compact"))
                        }
                    },
                    _ => Err(type_mismatch("a number or () is needed for compact")),
                },
            }
        },
        Type::Sequence(elem) => encode_sequence_body(value, &elem, registry, out, depth - 1),
        Type::Tuple(ids) => {
            match value {
                Value::List(elems) => {
                    proof {
                        crate::ast::lemma_ids_view_index(ids@);
                        lemma_values_view_index(elems@);
                        assert(crate::ast::ids_view(ids@).skip(0) =~= crate::ast::ids_view(ids@));
                        assert(crate::value::values_view(elems@).skip(0)
                            =~= crate::value::values_view(elems@));
                    }
                    encode_tuple_from(&ids, elems, 0, registry, out, depth - 1)
                },
                _ => Err(type_mismatch("expected positional elements for a tuple")),
            }
        },
        Type::Array(elem, n) => encode_array_body(value, &elem, n, registry, out, depth - 1),
        Type::Enum(en) => {
            match value {
                Value::Object(entries) => {
                    proof {
                        lemma_entries_view_index(entries@);
                        assert(crate::value::entries_view(entries@).skip(0)
                            =~= crate::value::entries_view(entries@));
                    }
                    encode_enum_from(&en, entries, 0, registry, out, depth - 1)
                },
                _ => Err(type_mismatch("expected a single-key mapping for an enum")),
            }
        },
        Type::Struct(fields) => {
            match value {
                Value::Object(_) => {
                    proof {
                        crate::ast::lemma_fields_view_index(fields@);
                        assert(crate::ast::fields_view(fields@).skip(0)
                            =~= crate::ast::fields_view(fields@));
                    }
                    encode_struct_from(&fields, 0, value, registry, out, depth - 1)
                },
                _ => Err(type_mismatch("expected named properties for a struct")),
            }
        },
    }
}


fn encode_sequence_body(
    value: &Value,
    elem: &Id,
    registry: &Registry,
    out: &mut Vec<u8>,
    depth: u32,
) -> (r: Result<(), Error>)
    ensures
        match spec_enc_sequence(registry@, elem@, value@, depth as nat) {
            Ok(b) => r is Ok && final(out)@ == old(out)@ + b,
            Err(k) => r matches Err(e) && e.kind == k,
        },
    decreases depth, 2int, 0int,
{
    let et = match registry.resolve_type(elem, false) {
        Ok(et) => et,
        Err(e) => return Err(e),
    };
    let is_u8 = matches!(et, Type::Primitive(PrimitiveType::U8));
    if is_u8 {
        let bi = value.byte_input();
        if let Some(res) = bi {
            let bs = match res {
                Ok(bs) => bs,
                Err(e) => return Err(e),
            };
            if bs.len() > 0xffffffff {
                return Err(type_mismatch("byte buffer too long"));
            }
            compact_encode(bs.len() as u128, out);
            append_bytes(out, &bs);
            proof {
                let cb = spec_compact_bytes(bs@.len() as u128);
                assert(out@ =~= old(out)@ + (cb + bs@));
            }
            return Ok(());
        }
    }
    let elems = match value {
        Value::List(elems) => elems,
        _ => return Err(type_mismatch("expected a sequence of elements")),
    };
    proof {
        lemma_values_view_index(elems@);
    }
    if elems.len() > 0xffffffff {
        return Err(type_mismatch("sequence too long"));
    }
    compact_encode(elems.len() as u128, out);
    proof {
        lemma_values_view_index(elems@);
        let vv0 = crate::value::values_view(elems@);
        assert(vv0.skip(0) =~= vv0);
    }
    let ghost vv = crate::value::values_view(elems@);
    let r = encode_list_from(elems, 0, elem, registry, out, depth);
    proof {
        let lr = spec_enc_list(registry@, elem@, vv, depth as nat);
        if lr is Ok {
            let b = lr->Ok_0;
            let cb = spec_compact_bytes(vv.len() as u128);
            assert(out@ =~= old(out)@ + (cb + b));
        }
    }
    r
}

fn encode_array_body(
    value: &Value,
    elem: &Id,
    n: u32,
    registry: &Registry,
    out: &mut Vec<u8>,
    depth: u32,
) -> (r: Result<(), Error>)
    ensures
        match spec_enc_array(registry@, elem@, n, value@, depth as nat) {
            Ok(b) => r is Ok && final(out)@ == old(out)@ + b,
            Err(k) => r matches Err(e) && e.kind == k,
        },
    decreases depth, 2int, 0int,
{
    let et = match registry.resolve_type(elem, false) {
        Ok(et) => et,
        Err(e) => return Err(e),
    };
    let is_u8 = matches!(et, Type::Primitive(PrimitiveType::U8));
    if is_u8 {
        let bi = value.byte_input();
        if let Some(res) = bi {
            let bs = match res {
                Ok(bs) => bs,
                Err(e) => return Err(e),
            };
            if bs.len() != n as usize {
                return Err(type_mismatch("byte array has the wrong length"));
            }
            append_bytes(out, &bs);
            return Ok(());
        }
    }
    let elems = match value {
        Value::List(elems) => elems,
        _ => return Err(type_mismatch("expected positional elements for an array")),
    };
    proof {
        lemma_values_view_index(elems@);
    }
    if elems.len() != n as usize {
        return Err(type_mismatch("array value has the wrong length"));
    }
    proof {
        lemma_values_view_index(elems@);
        let vv0 = crate::value::values_view(elems@);
        assert(vv0.skip(0) =~= vv0);
    }
    encode_list_from(elems, 0, elem, registry, out, depth)
}

fn encode_list_from(
    elems: &Vec<Value>,
    from: usize,
    elem: &Id,
    registry: &Registry,
    out: &mut Vec<u8>,
    depth: u32,
) -> (r: Result<(), Error>)
    requires
        from <= elems@.len(),
    ensures
        match spec_enc_list(
            registry@,
            elem@,
            crate::value::values_view(elems@).skip(from as int),
            depth as nat,
        ) {
            Ok(b) => r is Ok && final(out)@ == old(out)@ + b,
            Err(k) => r matches Err(e) && e.kind == k,
        },
    decreases depth, 1int, elems@.len() - from,
{
    proof {
        lemma_values_view_index(elems@);
    }
    if from == elems.len() {
        proof {
            assert(crate::value::values_view(elems@).skip(from as int).len() == 0);
            assert(final(out)@ =~= old(out)@ + Seq::<u8>::empty());
        }
        return Ok(());
    }
    proof {
        assert(crate::value::values_view(elems@).skip(from as int)[0]
            == crate::value::value_view(elems@[from as int]));
        assert(crate::value::values_view(elems@).skip(from as int).drop_first()
            =~= crate::value::values_view(elems@).skip(from as int + 1));
    }
    let ghost before = out@;
    match encode_value(&elems[from], elem, registry, out, depth) {
        Err(e) => Err(e),
        Ok(()) => {
            let r = encode_list_from(elems, from + 1, elem, registry, out, depth);
            proof {
                if r is Ok {
                    assert(final(out)@ =~= before + (spec_enc_value(
                        registry@,
                        elem@,
                        crate::value::value_view(elems@[from as int]),
                        depth as nat,
                    )->Ok_0 + spec_enc_list(
                        registry@,
                        elem@,
                        crate::value::values_view(elems@).skip(from as int + 1),
                        depth as nat,
                    )->Ok_0));
                }
            }
            r
        },
    }
}

#[verifier::rlimit(80)]
fn encode_tuple_from(
    ids: &Vec<Id>,
    elems: &Vec<Value>,
    from: usize,
    registry: &Registry,
    out: &mut Vec<u8>,
    depth: u32,
) -> (r: Result<(), Error>)
    requires
        from <= ids@.len(),
        from <= elems@.len(),
    ensures
        match spec_enc_tuple(
            registry@,
            crate::ast::ids_view(ids@).skip(from as int),
            crate::value::values_view(elems@).skip(from as int),
            depth as nat,
        ) {
            Ok(b) => r is Ok && final(out)@ == old(out)@ + b,
            Err(k) => r matches Err(e) && e.kind == k,
        },
    decreases depth, 1int, ids@.len() - from,
{
    proof {
        lemma_values_view_index(elems@);
        crate::ast::lemma_ids_view_index(ids@);
    }
    if from == ids.len() {
        proof {
            assert(crate::ast::ids_view(ids@).skip(from as int).len() == 0);
            assert(final(out)@ =~= old(out)@ + Seq::<u8>::empty());
        }
        return Ok(());
    }
    if from == elems.len() {
        proof {
            assert(crate::value::values_view(elems@).skip(from as int).len() == 0);
            assert(crate::ast::ids_view(ids@).skip(from as int).len() > 0);
        }
        return Err(type_mismatch("tuple value has too few elements"));
    }
    proof {
        assert(crate::ast::ids_view(ids@).skip(from as int)[0] == crate::ast::id_view(
            ids@[from as int],
        ));
        assert(crate::ast::ids_view(ids@).skip(from as int).drop_first()
            =~= crate::ast::ids_view(ids@).skip(from as int + 1));
        assert(crate::value::values_view(elems@).skip(from as int)[0]
            == crate::value::value_view(elems@[from as int]));
        assert(crate::value::values_view(elems@).skip(from as int).drop_first()
            =~= crate::value::values_view(elems@).skip(from as int + 1));
    }
    let ghost before = out@;
    match encode_value(&elems[from], &ids[from], registry, out, depth) {
        Err(e) => Err(e),
        Ok(()) => {
            let r = encode_tuple_from(ids, elems, from + 1, registry, out, depth);
            proof {
                if r is Ok {
                    assert(final(out)@ =~= before + (spec_enc_value(
                        registry@,
                        crate::ast::id_view(ids@[from as int]),
                        crate::value::value_view(elems@[from as int]),
                        depth as nat,
                    )->Ok_0 + spec_enc_tuple(
                        registry@,
                        crate::ast::ids_view(ids@).skip(from as int + 1),
                        crate::value::values_view(elems@).skip(from as int + 1),
                        depth as nat,
                    )->Ok_0));
                }
            }
            r
        },
    }
}


/// Whether any variant has the given name.
fn has_variant_named(en: &crate::ast::Enum, name: &str) -> (r: bool)
    ensures
        r == (spec_variant_index_by_name(en@, name@) is Some),
{
    proof {
        crate::ast::lemma_variants_view_index(en.variants@);
        crate::ast::lemma_variant_index_by_name_props(en@, name@);
    }
    let n = en.variants.len();
    let mut i: usize = 0;
    while i < n
        invariant
            0 <= i <= n,
            n == en.variants@.len(),
            en@.len() == n,
            forall|j: int| 0 <= j < i ==> en@[j].name != name@,
            forall|j: int|
                0 <= j < n ==> en@[j].name == en.variants@[j].0@,
        decreases n - i,
    {
        let (vname, _, _) = &en.variants[i];
        if crate::strutil::str_eq(vname.as_str(), name) {
            proof {
                crate::ast::lemma_variant_index_by_name_props(en@, name@);
                match spec_variant_index_by_name(en@, name@) {
                    Some(_) => {},
                    None => {
                        assert(en@[i as int].name != name@);
                        assert(false);
                    },
                }
            }
            return true;
        }
        i += 1;
    }
    proof {
        crate::ast::lemma_variant_index_by_name_props(en@, name@);
        match spec_variant_index_by_name(en@, name@) {
            Some(k) => {
                assert(en@[k].name == name@);
                assert(false);
            },
            None => {},
        }
    }
    false
}

#[verifier::rlimit(80)]
fn encode_enum_from(
    en: &crate::ast::Enum,
    entries: &Vec<(String, Value)>,
    from: usize,
    registry: &Registry,
    out: &mut Vec<u8>,
    depth: u32,
) -> (r: Result<(), Error>)
    requires
        from <= entries@.len(),
    ensures
        match spec_enc_enum(
            registry@,
            en@,
            crate::value::entries_view(entries@).skip(from as int),
            depth as nat,
        ) {
            Ok(b) => r is Ok && final(out)@ == old(out)@ + b,
            Err(k) => r matches Err(e) && e.kind == k,
        },
    decreases depth, 1int, entries@.len() - from,
{
    proof {
        lemma_entries_view_index(entries@);
    }
    if from == entries.len() {
        proof {
            assert(crate::value::entries_view(entries@).skip(from as int).len() == 0);
        }
        return Err(type_mismatch("no key of the value names an enum variant"));
    }
    proof {
        assert(crate::value::entries_view(entries@).skip(from as int)[0] == (
            entries@[from as int].0@,
            crate::value::value_view(entries@[from as int].1),
        ));
        assert(crate::value::entries_view(entries@).skip(from as int).drop_first()
            =~= crate::value::entries_view(entries@).skip(from as int + 1));
    }
    let (key, pv) = &entries[from];
    if !has_variant_named(en, key.as_str()) {
        proof {
            crate::ast::lemma_variant_index_by_name_props(en@, key@);
        }
        return encode_enum_from(en, entries, from + 1, registry, out, depth);
    }
    match en.get_variant_by_name(key.as_str()) {
        Ok((_vname, payload, d)) => {
            proof {
                crate::ast::lemma_variant_index_by_name_props(en@, key@);
            }
            if d > 255 {
                return Err(type_mismatch("variant discriminant does not fit one byte"));
            }
            out.push(d as u8);
            match payload {
                Some(ptid) => {
                    let r = encode_value(pv, &ptid, registry, out, depth);
                    proof {
                        let k = spec_variant_index_by_name(en@, key@)->Some_0;
                        let dd = spec_variant_disc(en@, k);
                        if r is Ok {
                            assert(final(out)@ =~= old(out)@ + (seq![dd as u8] + spec_enc_value(
                                registry@,
                                crate::ast::id_view(ptid),
                                crate::value::value_view(entries@[from as int].1),
                                depth as nat,
                            )->Ok_0));
                        }
                    }
                    r
                },
                None => {
                    proof {
                        let k = spec_variant_index_by_name(en@, key@)->Some_0;
                        let dd = spec_variant_disc(en@, k);
                        assert(final(out)@ =~= old(out)@ + seq![dd as u8]);
                    }
                    Ok(())
                },
            }
        },
        Err(e) => {
            proof {
                crate::ast::lemma_variant_index_by_name_props(en@, key@);
            }
            Err(e)
        },
    }
}

fn encode_struct_from(
    fields: &Vec<(String, Id)>,
    from: usize,
    value: &Value,
    registry: &Registry,
    out: &mut Vec<u8>,
    depth: u32,
) -> (r: Result<(), Error>)
    requires
        from <= fields@.len(),
        value@ is Object,
    ensures
        match spec_enc_struct(
            registry@,
            crate::ast::fields_view(fields@).skip(from as int),
            value@->Object_0,
            depth as nat,
        ) {
            Ok(b) => r is Ok && final(out)@ == old(out)@ + b,
            Err(k) => r matches Err(e) && e.kind == k,
        },
    decreases depth, 1int, fields@.len() - from,
{
    proof {
        crate::ast::lemma_fields_view_index(fields@);
    }
    if from == fields.len() {
        proof {
            assert(crate::ast::fields_view(fields@).skip(from as int).len() == 0);
            assert(final(out)@ =~= old(out)@ + Seq::<u8>::empty());
        }
        return Ok(());
    }
    proof {
        assert(crate::ast::fields_view(fields@).skip(from as int)[0] == (crate::ast::SpecField {
            name: fields@[from as int].0@,
            id: crate::ast::id_view(fields@[from as int].1),
        }));
        assert(crate::ast::fields_view(fields@).skip(from as int).drop_first()
            =~= crate::ast::fields_view(fields@).skip(from as int + 1));
    }
    let (name, ftid) = &fields[from];
    match value.get_property(name.as_str()) {
        None => Err(type_mismatch("a struct field is missing from the value")),
        Some(fv) => {
            let ghost before = out@;
            match encode_value(fv, ftid, registry, out, depth) {
                Err(e) => Err(e),
                Ok(()) => {
                    let r = encode_struct_from(fields, from + 1, value, registry, out, depth);
                    proof {
                        if r is Ok {
                            assert(final(out)@ =~= before + (spec_enc_value(
                                registry@,
                                crate::ast::id_view(fields@[from as int].1),
                                spec_get_prop(value@->Object_0, fields@[from as int].0@)->Some_0,
                                depth as nat,
                            )->Ok_0 + spec_enc_struct(
                                registry@,
                                crate::ast::fields_view(fields@).skip(from as int + 1),
                                value@->Object_0,
                                depth as nat,
                            )->Ok_0));
                        }
                    }
                    r
                },
            }
        },
    }
}


/// Law: the byte fast path.  Against a fixed-length byte array the
/// encoder emits exactly the buffer's bytes, with no length prefix, and
/// rejects a buffer of the wrong length; against a byte sequence it
/// emits a compact length prefix followed by exactly the buffer's bytes.
pub proof fn lemma_byte_fast_path(
    reg: Seq<SpecTypeDef>,
    elem: SpecId,
    n: u32,
    bs: Seq<u8>,
    depth: nat,
)
    requires
        spec_resolve(reg, elem, false) == Ok::<SpecType, ErrorKind>(
            SpecType::Primitive(PrimitiveType::U8),
        ),
    ensures
        bs.len() == n ==> spec_enc_array(reg, elem, n, SpecValue::Bytes(bs), depth)
            == Ok::<Seq<u8>, ErrorKind>(bs),
        bs.len() != n ==> spec_enc_array(reg, elem, n, SpecValue::Bytes(bs), depth)
            == Err::<Seq<u8>, ErrorKind>(ErrorKind::TypeMismatch),
        bs.len() <= u32::MAX ==> spec_enc_sequence(reg, elem, SpecValue::Bytes(bs), depth)
            == Ok::<Seq<u8>, ErrorKind>(spec_compact_bytes(bs.len() as u128) + bs),
{
    assert(spec_byte_input(SpecValue::Bytes(bs)) == Some(Ok::<Seq<u8>, ErrorKind>(bs)));
}

} // verus!
