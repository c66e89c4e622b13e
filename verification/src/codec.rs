//! The public face of the codec: building registries from
//! type-definition text, encoding values to bytes and decoding bytes to
//! values, singly or against a positional list of types, and a reusable
//! codec handle bound to a fixed type and registry.

use vstd::prelude::*;
use vstd::utf8::encode_utf8;

use crate::ast::{ids_view, Id, SpecId, SpecTypeDef};
use crate::decode::{decode_value, spec_dec_value};
use crate::encode::{encode_value, spec_enc_value, DEPTH_LIMIT};
use crate::error::{Error, ErrorKind};
use crate::parser::spec_parse_types;
use crate::registry::{defs_view, Registry};
use crate::value::{SpecValue, Value};

verus! {

/// Parses type-definition-language text into a fresh registry.
pub fn parse_types_str(typelist: &str) -> (r: Result<Registry, Error>)
    ensures
        match spec_parse_types(encode_utf8(typelist@)) {
            Ok(sds) => r matches Ok(reg) && reg@ == sds,
            Err(k) => r matches Err(e) && e.kind == k,
        },
{
    match crate::parser::parse_types(typelist) {
        Err(e) => Err(e),
        Ok(defs) => {
            let ghost dv = defs@;
            let mut reg = Registry::new();
            reg.append(defs);
            proof {
                match spec_parse_types(encode_utf8(typelist@)) {
                    Ok(sds) => {
                        assert(reg@ =~= defs_view(dv));
                        assert(defs_view(dv) =~= sds);
                    },
                    Err(_) => {},
                }
            }
            Ok(reg)
        },
    }
}

/// Parses type-definition-language text and appends the definitions to
/// an existing registry.
pub fn append_types(registry: &mut Registry, typelist: &str) -> (r: Result<(), Error>)
    ensures
        match spec_parse_types(encode_utf8(typelist@)) {
            Ok(sds) => r is Ok && final(registry)@ == old(registry)@ + sds,
            Err(k) => r matches Err(e) && e.kind == k && final(registry)@ == old(registry)@,
        },
{
    match crate::parser::parse_types(typelist) {
        Err(e) => Err(e),
        Ok(defs) => {
            let ghost dv = defs@;
            registry.append(defs);
            proof {
                match spec_parse_types(encode_utf8(typelist@)) {
                    Ok(sds) => {
                        assert(defs_view(dv) =~= sds);
                    },
                    Err(_) => {},
                }
            }
            Ok(())
        },
    }
}

/// Encodes one value against one type reference into canonical bytes.
pub fn encode(value: &Value, tid: &Id, registry: &Registry) -> (r: Result<Vec<u8>, Error>)
    ensures
        match spec_enc_value(registry@, tid@, value@, DEPTH_LIMIT as nat) {
            Ok(b) => r matches Ok(v) && v@ == b,
            Err(k) => r matches Err(e) && e.kind == k,
        },
{
    let mut out: Vec<u8> = Vec::new();
    match encode_value(value, tid, registry, &mut out, DEPTH_LIMIT) {
        Ok(()) => {
            proof {
                match spec_enc_value(registry@, tid@, value@, DEPTH_LIMIT as nat) {
                    Ok(b) => {
                        assert(out@ =~= b);
                    },
                    Err(_) => {},
                }
            }
            Ok(out)
        },
        Err(e) => Err(e),
    }
}

/// The bytes of several values, one per type reference, joined in
/// order; each value is taken positionally from the value list.
pub open spec fn spec_enc_all(
    reg: Seq<SpecTypeDef>,
    tids: Seq<SpecId>,
    vals: Seq<SpecValue>,
    depth: nat,
) -> Result<Seq<u8>, ErrorKind>
    decreases tids.len(),
{
    if tids.len() == 0 {
        Ok(Seq::empty())
    } else if vals.len() == 0 {
        Err(ErrorKind::TypeMismatch)
    } else {
        match spec_enc_value(reg, tids[0], vals[0], depth) {
            Err(k) => Err(k),
            Ok(b) => match spec_enc_all(reg, tids.drop_first(), vals.drop_first(), depth) {
                Ok(rest) => Ok(b + rest),
                Err(k) => Err(k),
            },
        }
    }
}

fn encode_all_from(
    values: &Vec<Value>,
    tids: &Vec<Id>,
    from: usize,
    registry: &Registry,
    out: &mut Vec<u8>,
) -> (r: Result<(), Error>)
    requires
        from <= tids@.len(),
        from <= values@.len(),
    ensures
        match spec_enc_all(
            registry@,
            ids_view(tids@).skip(from as int),
            crate::value::values_view(values@).skip(from as int),
            DEPTH_LIMIT as nat,
        ) {
            Ok(b) => r is Ok && final(out)@ == old(out)@ + b,
            Err(k) => r matches Err(e) && e.kind == k,
        },
    decreases tids@.len() - from,
{
    proof {
        crate::ast::lemma_ids_view_index(tids@);
        crate::value::lemma_values_view_index(values@);
    }
    if from == tids.len() {
        proof {
            assert(ids_view(tids@).skip(from as int).len() == 0);
            assert(final(out)@ =~= old(out)@ + Seq::<u8>::empty());
        }
        return Ok(());
    }
    if from == values.len() {
        proof {
            assert(crate::value::values_view(values@).skip(from as int).len() == 0);
            assert(ids_view(tids@).skip(from as int).len() > 0);
        }
        return Err(
            Error::from_text(ErrorKind::TypeMismatch, "missing value for one of the types"),
        );
    }
    proof {
        assert(ids_view(tids@).skip(from as int)[0] == crate::ast::id_view(tids@[from as int]));
        assert(ids_view(tids@).skip(from as int).drop_first() =~= ids_view(tids@).skip(
            from as int + 1,
        ));
        assert(crate::value::values_view(values@).skip(from as int)[0]
            == crate::value::value_view(values@[from as int]));
        assert(crate::value::values_view(values@).skip(from as int).drop_first()
            =~= crate::value::values_view(values@).skip(from as int + 1));
    }
    let ghost before = out@;
    match encode_value(&values[from], &tids[from], registry, out, DEPTH_LIMIT) {
        Err(e) => Err(e),
        Ok(()) => {
            let r = encode_all_from(values, tids, from + 1, registry, out);
            proof {
                if r is Ok {
                    assert(final(out)@ =~= before + (spec_enc_value(
                        registry@,
                        crate::ast::id_view(tids@[from as int]),
                        crate::value::value_view(values@[from as int]),
                        DEPTH_LIMIT as nat,
                    )->Ok_0 + spec_enc_all(
                        registry@,
                        ids_view(tids@).skip(from as int + 1),
                        crate::value::values_view(values@).skip(from as int + 1),
                        DEPTH_LIMIT as nat,
                    )->Ok_0));
                }
            }
            r
        },
    }
}

/// Encodes several values positionally, one per type reference, into
/// one joined buffer.
pub fn encode_all(values: &Vec<Value>, tids: &Vec<Id>, registry: &Registry) -> (r: Result<
    Vec<u8>,
    Error,
>)
    ensures
        match spec_enc_all(
            registry@,
            ids_view(tids@),
            crate::value::values_view(values@),
            DEPTH_LIMIT as nat,
        ) {
            Ok(b) => r matches Ok(v) && v@ == b,
            Err(k) => r matches Err(e) && e.kind == k,
        },
{
    proof {
        assert(ids_view(tids@).skip(0) =~= ids_view(tids@));
        assert(crate::value::values_view(values@).skip(0) =~= crate::value::values_view(
            values@,
        ));
    }
    if values.len() < tids.len() {
        proof {
            crate::ast::lemma_ids_view_index(tids@);
            crate::value::lemma_values_view_index(values@);
        }
    }
    let mut out: Vec<u8> = Vec::new();
    match encode_all_from(values, tids, 0, registry, &mut out) {
        Ok(()) => {
            proof {
                match spec_enc_all(
                    registry@,
                    ids_view(tids@),
                    crate::value::values_view(values@),
                    DEPTH_LIMIT as nat,
                ) {
                    Ok(b) => {
                        assert(out@ =~= b);
                    },
                    Err(_) => {},
                }
            }
            Ok(out)
        },
        Err(e) => Err(e),
    }
}

/// Decodes one value from the front of the buffer against one type
/// reference; trailing bytes are ignored.
pub fn decode(bytes: &[u8], tid: &Id, registry: &Registry) -> (r: Result<Value, Error>)
    ensures
        match spec_dec_value(registry@, tid@, bytes@, 0, DEPTH_LIMIT as nat) {
            Ok((v, p)) => r matches Ok(rv) && rv@ == v,
            Err(k) => r matches Err(e) && e.kind == k,
        },
{
    match decode_value(bytes, 0, tid, registry, DEPTH_LIMIT) {
        Ok((v, _)) => Ok(v),
        Err(e) => Err(e),
    }
}

/// The values decoded sequentially from one buffer, one per type
/// reference.
pub open spec fn spec_dec_all(
    reg: Seq<SpecTypeDef>,
    tids: Seq<SpecId>,
    bytes: Seq<u8>,
    pos: int,
    depth: nat,
) -> Result<(Seq<SpecValue>, int), ErrorKind>
    decreases tids.len(),
{
    if tids.len() == 0 {
        Ok((Seq::empty(), pos))
    } else {
        match spec_dec_value(reg, tids[0], bytes, pos, depth) {
            Err(k) => Err(k),
            Ok((v, p2)) => match spec_dec_all(reg, tids.drop_first(), bytes, p2, depth) {
                Ok((rest, p3)) => Ok((seq![v] + rest, p3)),
                Err(k) => Err(k),
            },
        }
    }
}

fn decode_all_from(
    bytes: &[u8],
    pos: usize,
    tids: &Vec<Id>,
    from: usize,
    registry: &Registry,
) -> (r: Result<(Vec<Value>, usize), Error>)
    requires
        pos <= bytes@.len(),
        from <= tids@.len(),
    ensures
        match spec_dec_all(
            registry@,
            ids_view(tids@).skip(from as int),
            bytes@,
            pos as int,
            DEPTH_LIMIT as nat,
        ) {
            Ok((vs, p2)) => r matches Ok(rp) && crate::value::values_view(rp.0@) == vs
                && rp.1 as int == p2 && rp.1 <= bytes@.len(),
            Err(k) => r matches Err(e) && e.kind == k,
        },
    decreases tids@.len() - from,
{
    proof {
        crate::ast::lemma_ids_view_index(tids@);
    }
    if from == tids.len() {
        let out: Vec<Value> = Vec::new();
        proof {
            assert(ids_view(tids@).skip(from as int).len() == 0);
            assert(crate::value::values_view(out@) =~= Seq::<SpecValue>::empty());
        }
        return Ok((out, pos));
    }
    proof {
        assert(ids_view(tids@).skip(from as int)[0] == crate::ast::id_view(tids@[from as int]));
        assert(ids_view(tids@).skip(from as int).drop_first() =~= ids_view(tids@).skip(
            from as int + 1,
        ));
    }
    match decode_value(bytes, pos, &tids[from], registry, DEPTH_LIMIT) {
        Err(e) => Err(e),
        Ok((v, p2)) => {
            match decode_all_from(bytes, p2, tids, from + 1, registry) {
                Err(e) => Err(e),
                Ok((mut rest, p3)) => {
                    let ghost vg = v;
                    let ghost restg = rest@;
                    let mut out: Vec<Value> = Vec::new();
                    out.push(v);
                    out.append(&mut rest);
                    proof {
                        assert(out@ =~= seq![vg] + restg);
                        crate::value::lemma_values_view_cons(vg, restg);
                    }
                    Ok((out, p3))
                },
            }
        },
    }
}

/// Decodes several values sequentially from one buffer, one per type
/// reference; trailing bytes are ignored.
pub fn decode_all(bytes: &[u8], tids: &Vec<Id>, registry: &Registry) -> (r: Result<
    Vec<Value>,
    Error,
>)
    ensures
        match spec_dec_all(registry@, ids_view(tids@), bytes@, 0, DEPTH_LIMIT as nat) {
            Ok((vs, p)) => r matches Ok(rv) && crate::value::values_view(rv@) == vs,
            Err(k) => r matches Err(e) && e.kind == k,
        },
{
    proof {
        assert(ids_view(tids@).skip(0) =~= ids_view(tids@));
    }
    match decode_all_from(bytes, 0, tids, 0, registry) {
        Ok((vs, _)) => Ok(vs),
        Err(e) => Err(e),
    }
}

/// One type reference, or a positional list of them for the multi-value
/// path.
pub enum TypeIds {
    One(Id),
    Many(Vec<Id>),
}

/// A reusable encode/decode pair bound to a fixed type reference and a
/// registry; the multi-value path is selected when the reference is a
/// list.
pub struct Codec<'a> {
    pub ids: TypeIds,
    pub registry: &'a Registry,
}

/// Builds a codec handle bound to a type reference and a registry.
pub fn codec<'a>(ids: TypeIds, registry: &'a Registry) -> (r: Codec<'a>)
    ensures
        r.ids == ids,
        r.registry == registry,
{
    Codec { ids, registry }
}

impl<'a> Codec<'a> {
    /// Encodes a value with the bound type and registry; for the
    /// multi-value path the value supplies one element per type.
    pub fn encode(&self, value: &Value) -> (r: Result<Vec<u8>, Error>)
        ensures
            match self.ids {
                TypeIds::One(tid) => match spec_enc_value(
                    self.registry@,
                    tid@,
                    value@,
                    DEPTH_LIMIT as nat,
                ) {
                    Ok(b) => r matches Ok(v) && v@ == b,
                    Err(k) => r matches Err(e) && e.kind == k,
                },
                TypeIds::Many(tids) => match value@ {
                    SpecValue::List(vals) => match spec_enc_all(
                        self.registry@,
                        ids_view(tids@),
                        vals,
                        DEPTH_LIMIT as nat,
                    ) {
                        Ok(b) => r matches Ok(v) && v@ == b,
                        Err(k) => r matches Err(e) && e.kind == k,
                    },
                    _ => r matches Err(e) && e.kind == ErrorKind::TypeMismatch,
                },
            },
    {
        match &self.ids {
            TypeIds::One(tid) => encode(value, tid, self.registry),
            TypeIds::Many(tids) => match value {
                Value::List(vals) => encode_all(vals, tids, self.registry),
                _ => Err(
                    Error::from_text(
                        ErrorKind::TypeMismatch,
                        "the multi-value path needs a list of values",
                    ),
                ),
            },
        }
    }

    /// Decodes bytes with the bound type and registry; the multi-value
    /// path yields a list value.
    pub fn decode(&self, bytes: &[u8]) -> (r: Result<Value, Error>)
        ensures
            match self.ids {
                TypeIds::One(tid) => match spec_dec_value(
                    self.registry@,
                    tid@,
                    bytes@,
                    0,
                    DEPTH_LIMIT as nat,
                ) {
                    Ok((v, p)) => r matches Ok(rv) && rv@ == v,
                    Err(k) => r matches Err(e) && e.kind == k,
                },
                TypeIds::Many(tids) => match spec_dec_all(
                    self.registry@,
                    ids_view(tids@),
                    bytes@,
                    0,
                    DEPTH_LIMIT as nat,
                ) {
                    Ok((vs, p)) => r matches Ok(rv) && rv@ == SpecValue::List(vs),
                    Err(k) => r matches Err(e) && e.kind == k,
                },
            },
    {
        match &self.ids {
            TypeIds::One(tid) => decode(bytes, tid, self.registry),
            TypeIds::Many(tids) => match decode_all(bytes, tids, self.registry) {
                Ok(vs) => Ok(Value::List(vs)),
                Err(e) => Err(e),
            },
        }
    }
}

} // verus!
