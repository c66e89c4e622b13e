//! The type registry: an append-only, ordered list of type definitions,
//! with name lookup (last write per name wins), transitive alias
//! resolution bounded against cycles, and generic instantiation by
//! substitution.

use vstd::prelude::*;
use vstd::utf8::encode_utf8;

use crate::ast::{
    clone_type, fields_view, id_view, ids_view, lemma_fields_view_index, lemma_ids_view_index,
    lemma_variants_view_index, opt_id_view, spec_primitive_of_name, type_view, variants_view,
    Enum, Id, PrimitiveType, SpecField, SpecId, SpecType, SpecTypeDef, SpecVariant, Type, TypeDef,
};
use crate::error::{Error, ErrorKind};
use crate::parser::spec_parse_type_src;
use crate::strutil::str_eq;

verus! {

/// The registry: the ordered definition list.  Name lookup is derived
/// from it by a backward scan, so the last definition of a name wins.
#[derive(Debug)]
pub struct Registry {
    pub types: Vec<TypeDef>,
}

pub open spec fn defs_view(ds: Seq<TypeDef>) -> Seq<SpecTypeDef> {
    Seq::new(ds.len(), |i: int| ds[i]@)
}

impl View for Registry {
    type V = Seq<SpecTypeDef>;

    open spec fn view(&self) -> Seq<SpecTypeDef> {
        defs_view(self.types@)
    }
}

// ---------------------------------------------------------------------------
// name lookup
// ---------------------------------------------------------------------------

/// The index of the newest definition with the given name.
pub open spec fn spec_lookup(reg: Seq<SpecTypeDef>, name: Seq<char>) -> Option<int>
    decreases reg.len(),
{
    if reg.len() == 0 {
        None
    } else if reg.last().name == Some(name) {
        Some(reg.len() - 1)
    } else {
        spec_lookup(reg.drop_last(), name)
    }
}

pub proof fn lemma_lookup_props(reg: Seq<SpecTypeDef>, name: Seq<char>)
    ensures
        match spec_lookup(reg, name) {
            Some(k) => 0 <= k < reg.len() && reg[k].name == Some(name) && forall|j: int|
                k < j < reg.len() ==> reg[j].name != Some(name),
            None => forall|j: int| 0 <= j < reg.len() ==> reg[j].name != Some(name),
        },
    decreases reg.len(),
{
    if reg.len() > 0 && reg.last().name != Some(name) {
        let head = reg.drop_last();
        lemma_lookup_props(head, name);
        assert(forall|j: int| 0 <= j < head.len() ==> head[j] == reg[j]);
    }
}

// ---------------------------------------------------------------------------
// generic substitution
// ---------------------------------------------------------------------------

/// The index of the newest type parameter with the given name.
pub open spec fn spec_param_index(params: Seq<Seq<char>>, name: Seq<char>) -> Option<int>
    decreases params.len(),
{
    if params.len() == 0 {
        None
    } else if params.last() == name {
        Some(params.len() - 1)
    } else {
        spec_param_index(params.drop_last(), name)
    }
}

pub proof fn lemma_param_index_props(params: Seq<Seq<char>>, name: Seq<char>)
    ensures
        match spec_param_index(params, name) {
            Some(k) => 0 <= k < params.len() && params[k] == name && forall|j: int|
                k < j < params.len() ==> params[j] != name,
            None => forall|j: int| 0 <= j < params.len() ==> params[j] != name,
        },
    decreases params.len(),
{
    if params.len() > 0 && params.last() != name {
        let head = params.drop_last();
        lemma_param_index_props(head, name);
        assert(forall|j: int| 0 <= j < head.len() ==> head[j] == params[j]);
    }
}

/// Rewrites one type reference under a parameter binding: a bare
/// parameter name becomes its argument; other names have their own type
/// arguments rewritten; a parameter name used with type arguments is an
/// error.
pub open spec fn spec_subst_id(params: Seq<Seq<char>>, args: Seq<SpecId>, tid: SpecId) -> Result<
    SpecId,
    ErrorKind,
>
    decreases tid,
{
    match tid {
        SpecId::Name(nm, targs) => {
            match spec_param_index(params, nm) {
                Some(j) => {
                    if targs.len() != 0 {
                        Err(ErrorKind::Resolution)
                    } else if 0 <= j < args.len() {
                        Ok(args[j])
                    } else {
                        Err(ErrorKind::Resolution)
                    }
                },
                None => match spec_subst_ids(params, args, targs) {
                    Ok(ts) => Ok(SpecId::Name(nm, ts)),
                    Err(k) => Err(k),
                },
            }
        },
        SpecId::Num(n) => Ok(SpecId::Num(n)),
        SpecId::Type(t) => match spec_subst_type(params, args, *t) {
            Ok(t2) => Ok(SpecId::Type(Box::new(t2))),
            Err(k) => Err(k),
        },
    }
}

pub open spec fn spec_subst_ids(params: Seq<Seq<char>>, args: Seq<SpecId>, tids: Seq<SpecId>) -> Result<
    Seq<SpecId>,
    ErrorKind,
>
    decreases tids,
{
    if tids.len() == 0 {
        Ok(Seq::empty())
    } else {
        match spec_subst_id(params, args, tids[0]) {
            Err(k) => Err(k),
            Ok(t) => match spec_subst_ids(params, args, tids.drop_first()) {
                Ok(rest) => Ok(seq![t] + rest),
                Err(k) => Err(k),
            },
        }
    }
}

pub open spec fn spec_subst_variants(
    params: Seq<Seq<char>>,
    args: Seq<SpecId>,
    vs: Seq<SpecVariant>,
) -> Result<Seq<SpecVariant>, ErrorKind>
    decreases vs,
{
    if vs.len() == 0 {
        Ok(Seq::empty())
    } else {
        let payload_res: Result<Option<SpecId>, ErrorKind> = match vs[0].payload {
            Some(id) => match spec_subst_id(params, args, id) {
                Ok(t) => Ok(Some(t)),
                Err(k) => Err(k),
            },
            None => Ok(None),
        };
        match payload_res {
            Err(k) => Err(k),
            Ok(payload) => match spec_subst_variants(params, args, vs.drop_first()) {
                Ok(rest) => Ok(
                    seq![SpecVariant { name: vs[0].name, payload, disc: vs[0].disc }] + rest,
                ),
                Err(k) => Err(k),
            },
        }
    }
}

pub open spec fn spec_subst_fields(
    params: Seq<Seq<char>>,
    args: Seq<SpecId>,
    fs: Seq<SpecField>,
) -> Result<Seq<SpecField>, ErrorKind>
    decreases fs,
{
    if fs.len() == 0 {
        Ok(Seq::empty())
    } else {
        match spec_subst_id(params, args, fs[0].id) {
            Err(k) => Err(k),
            Ok(t) => match spec_subst_fields(params, args, fs.drop_first()) {
                Ok(rest) => Ok(seq![SpecField { name: fs[0].name, id: t }] + rest),
                Err(k) => Err(k),
            },
        }
    }
}

/// Rewrites every parameter occurrence in a shape.  `Primitive` and
/// `Compact` are returned unchanged; the other constructs are rewritten
/// recursively.
pub open spec fn spec_subst_type(params: Seq<Seq<char>>, args: Seq<SpecId>, t: SpecType) -> Result<
    SpecType,
    ErrorKind,
>
    decreases t,
{
    match t {
        SpecType::Primitive(p) => Ok(SpecType::Primitive(p)),
        SpecType::Compact(id) => Ok(SpecType::Compact(id)),
        SpecType::Sequence(id) => match spec_subst_id(params, args, id) {
            Ok(t2) => Ok(SpecType::Sequence(t2)),
            Err(k) => Err(k),
        },
        SpecType::Tuple(ids) => match spec_subst_ids(params, args, ids) {
            Ok(ts) => Ok(SpecType::Tuple(ts)),
            Err(k) => Err(k),
        },
        SpecType::Array(id, n) => match spec_subst_id(params, args, id) {
            Ok(t2) => Ok(SpecType::Array(t2, n)),
            Err(k) => Err(k),
        },
        SpecType::Enum(vs) => match spec_subst_variants(params, args, vs) {
            Ok(vs2) => Ok(SpecType::Enum(vs2)),
            Err(k) => Err(k),
        },
        SpecType::Struct(fs) => match spec_subst_fields(params, args, fs) {
            Ok(fs2) => Ok(SpecType::Struct(fs2)),
            Err(k) => Err(k),
        },
        SpecType::Alias(id) => match spec_subst_id(params, args, id) {
            Ok(t2) => Ok(SpecType::Alias(t2)),
            Err(k) => Err(k),
        },
    }
}

/// Instantiates a definition with the given arguments: the parameter
/// count must match exactly; a definition without parameters is returned
/// unchanged.
pub open spec fn spec_resolve_generic(def: SpecTypeDef, args: Seq<SpecId>) -> Result<
    SpecType,
    ErrorKind,
> {
    if def.type_params.len() != args.len() {
        Err(ErrorKind::Resolution)
    } else if args.len() == 0 {
        Ok(def.ty)
    } else {
        spec_subst_type(def.type_params, args, def.ty)
    }
}

// ---------------------------------------------------------------------------
// resolution
// ---------------------------------------------------------------------------

/// One resolution step: a name through the registry (falling back to the
/// builtin primitives), an index into the definition list, or an inline
/// shape as itself.
pub open spec fn spec_get_shallow(reg: Seq<SpecTypeDef>, tid: SpecId) -> Result<
    SpecType,
    ErrorKind,
> {
    match tid {
        SpecId::Name(nm, args) => match spec_lookup(reg, nm) {
            Some(i) => spec_resolve_generic(reg[i], args),
            None => match spec_primitive_of_name(nm) {
                Some(p) => if args.len() == 0 {
                    Ok(SpecType::Primitive(p))
                } else {
                    Err(ErrorKind::Resolution)
                },
                None => Err(ErrorKind::Resolution),
            },
        },
        SpecId::Num(i) => if i < reg.len() {
            spec_resolve_generic(reg[i as int], Seq::empty())
        } else {
            Err(ErrorKind::Resolution)
        },
        SpecId::Type(t) => Ok(*t),
    }
}

/// Shallow re-resolution of aliases, at most `n` steps; a chain longer
/// than the registry must revisit a definition, so running out of steps
/// reports an alias cycle.
pub open spec fn spec_chase(reg: Seq<SpecTypeDef>, t: SpecType, n: nat) -> Result<
    SpecType,
    ErrorKind,
>
    decreases n,
{
    match t {
        SpecType::Alias(id) => {
            if n == 0 {
                Err(ErrorKind::Resolution)
            } else {
                match spec_get_shallow(reg, id) {
                    Ok(t2) => spec_chase(reg, t2, (n - 1) as nat),
                    Err(k) => Err(k),
                }
            }
        },
        _ => Ok(t),
    }
}

/// Full resolution of a reference to a non-alias shape.
pub open spec fn spec_get_type(reg: Seq<SpecTypeDef>, tid: SpecId) -> Result<
    SpecType,
    ErrorKind,
> {
    match spec_get_shallow(reg, tid) {
        Ok(t) => spec_chase(reg, t, (reg.len() + 1) as nat),
        Err(k) => Err(k),
    }
}

/// Resolution with the literal fallback: if a name fails to resolve and
/// the fallback is enabled, the name text itself is re-parsed as an
/// inline type expression; an alias obtained this way is resolved one
/// further level without fallback.
pub open spec fn spec_resolve(reg: Seq<SpecTypeDef>, tid: SpecId, fallback: bool) -> Result<
    SpecType,
    ErrorKind,
> {
    let r = spec_get_type(reg, tid);
    if r is Ok || !fallback {
        r
    } else {
        match tid {
            SpecId::Name(nm, _) => match spec_parse_type_src(encode_utf8(nm)) {
                Err(k) => Err(k),
                Ok(ty) => match ty {
                    SpecType::Alias(id2) => spec_get_type(reg, id2),
                    _ => Ok(ty),
                },
            },
            _ => r,
        }
    }
}

/// A successful resolution never returns an alias.
pub proof fn lemma_chase_not_alias(reg: Seq<SpecTypeDef>, t: SpecType, n: nat)
    ensures
        spec_chase(reg, t, n) matches Ok(t2) ==> !(t2 is Alias),
    decreases n,
{
    match t {
        SpecType::Alias(id) => {
            if n > 0 {
                match spec_get_shallow(reg, id) {
                    Ok(t2) => {
                        lemma_chase_not_alias(reg, t2, (n - 1) as nat);
                    },
                    Err(_) => {},
                }
            }
        },
        _ => {},
    }
}

/// Every shape that resolution hands out is alias-free at the top: the
/// dedicated alias-chasing step keeps aliases out of the encoder and the
/// decoder.
pub proof fn lemma_resolve_not_alias(reg: Seq<SpecTypeDef>, tid: SpecId, fallback: bool)
    ensures
        spec_resolve(reg, tid, fallback) matches Ok(t) ==> !(t is Alias),
{
    match spec_get_shallow(reg, tid) {
        Ok(t) => {
            lemma_chase_not_alias(reg, t, (reg.len() + 1) as nat);
        },
        Err(_) => {},
    }
    if !(spec_get_type(reg, tid) is Ok) && fallback {
        match tid {
            SpecId::Name(nm, _) => {
                match spec_parse_type_src(encode_utf8(nm)) {
                    Ok(ty) => match ty {
                        SpecType::Alias(id2) => {
                            match spec_get_shallow(reg, id2) {
                                Ok(t) => {
                                    lemma_chase_not_alias(reg, t, (reg.len() + 1) as nat);
                                },
                                Err(_) => {},
                            }
                        },
                        _ => {},
                    },
                    Err(_) => {},
                }
            },
            _ => {},
        }
    }
}

// ---------------------------------------------------------------------------
// executable registry
// ---------------------------------------------------------------------------

fn param_index(params: &Vec<String>, name: &String) -> (r: Option<usize>)
    ensures
        ({
            let ps = Seq::new(params@.len(), |i: int| params@[i]@);
            match spec_param_index(ps, name@) {
                Some(k) => r matches Some(i) && i as int == k,
                None => r is None,
            }
        }),
{
    let ghost ps = Seq::new(params@.len(), |i: int| params@[i]@);
    proof {
        lemma_param_index_props(ps, name@);
    }
    let n = params.len();
    let mut i: usize = n;
    while i > 0
        invariant
            0 <= i <= n,
            n == params@.len(),
            ps == Seq::new(params@.len(), |j: int| params@[j]@),
            forall|j: int| i <= j < n ==> ps[j] != name@,
        decreases i,
    {
        i -= 1;
        if str_eq(params[i].as_str(), name.as_str()) {
            proof {
                lemma_param_index_props(ps, name@);
                match spec_param_index(ps, name@) {
                    Some(k) => {
                        if k < i as int {
                            assert(ps[i as int] != name@);
                            assert(false);
                        }
                        if k > i as int {
                            assert(ps[k] != name@);
                            assert(false);
                        }
                    },
                    None => {
                        assert(ps[i as int] != name@);
                        assert(false);
                    },
                }
            }
            return Some(i);
        }
    }
    proof {
        lemma_param_index_props(ps, name@);
        match spec_param_index(ps, name@) {
            Some(k) => {
                assert(ps[k] != name@);
                assert(false);
            },
            None => {},
        }
    }
    None
}

pub fn subst_id(params: &Vec<String>, args: &Vec<Id>, tid: &Id) -> (r: Result<Id, Error>)
    ensures
        ({
            let ps = Seq::new(params@.len(), |i: int| params@[i]@);
            match spec_subst_id(ps, ids_view(args@), tid@) {
                Ok(t) => r matches Ok(v) && v@ == t,
                Err(k) => r matches Err(e) && e.kind == k,
            }
        }),
    decreases *tid, 0int,
{
    proof {
        lemma_ids_view_index(args@);
    }
    match tid {
        Id::Name(nm, targs) => {
            match param_index(params, nm) {
                Some(j) => {
                    if targs.len() != 0 {
                        proof {
                            lemma_ids_view_index(targs@);
                        }
                        Err(
                            Error::from_text(
                                ErrorKind::Resolution,
                                "a generic type parameter cannot take type arguments",
                            ),
                        )
                    } else if j < args.len() {
                        proof {
                            lemma_ids_view_index(targs@);
                        }
                        Ok(crate::ast::clone_id(&args[j]))
                    } else {
                        Err(Error::from_text(ErrorKind::Resolution, "type argument missing"))
                    }
                },
                None => {
                    match subst_ids(params, args, targs) {
                        Ok(ts) => Ok(Id::Name(nm.clone(), ts)),
                        Err(e) => Err(e),
                    }
                },
            }
        },
        Id::Num(n) => Ok(Id::Num(*n)),
        Id::Type(t) => {
            match subst_type(params, args, &**t) {
                Ok(t2) => Ok(Id::Type(Box::new(t2))),
                Err(e) => Err(e),
            }
        },
    }
}

pub fn subst_ids(params: &Vec<String>, args: &Vec<Id>, tids: &Vec<Id>) -> (r: Result<
    Vec<Id>,
    Error,
>)
    ensures
        ({
            let ps = Seq::new(params@.len(), |i: int| params@[i]@);
            match spec_subst_ids(ps, ids_view(args@), ids_view(tids@)) {
                Ok(ts) => r matches Ok(v) && ids_view(v@) == ts,
                Err(k) => r matches Err(e) && e.kind == k,
            }
        }),
    decreases *tids, tids@.len() + 1,
{
    proof {
        assert(ids_view(tids@).skip(0) =~= ids_view(tids@));
    }
    subst_ids_from(params, args, tids, 0)
}

fn subst_ids_from(params: &Vec<String>, args: &Vec<Id>, tids: &Vec<Id>, from: usize) -> (r: Result<
    Vec<Id>,
    Error,
>)
    requires
        from <= tids@.len(),
    ensures
        ({
            let ps = Seq::new(params@.len(), |i: int| params@[i]@);
            match spec_subst_ids(ps, ids_view(args@), ids_view(tids@).skip(from as int)) {
                Ok(ts) => r matches Ok(v) && ids_view(v@) == ts,
                Err(k) => r matches Err(e) && e.kind == k,
            }
        }),
    decreases *tids, tids@.len() - from,
{
    proof {
        lemma_ids_view_index(tids@);
    }
    if from == tids.len() {
        let out: Vec<Id> = Vec::new();
        proof {
            assert(ids_view(tids@).skip(from as int).len() == 0);
            assert(ids_view(out@) =~= Seq::<SpecId>::empty());
        }
        return Ok(out);
    }
    proof {
        assert(ids_view(tids@).skip(from as int)[0] == id_view(tids@[from as int]));
        assert(ids_view(tids@).skip(from as int).drop_first() =~= ids_view(tids@).skip(
            from as int + 1,
        ));
    }
    match subst_id(params, args, &tids[from]) {
        Err(e) => Err(e),
        Ok(t) => {
            match subst_ids_from(params, args, tids, from + 1) {
                Err(e) => Err(e),
                Ok(mut rest) => {
                    let ghost tg = t;
                    let ghost restg = rest@;
                    let mut out: Vec<Id> = Vec::new();
                    out.push(t);
                    out.append(&mut rest);
                    proof {
                        assert(out@ =~= seq![tg] + restg);
                        crate::ast::lemma_ids_view_cons(tg, restg);
                    }
                    Ok(out)
                },
            }
        },
    }
}

fn subst_variants_from(
    params: &Vec<String>,
    args: &Vec<Id>,
    vs: &Vec<(String, Option<Id>, Option<u32>)>,
    from: usize,
) -> (r: Result<Vec<(String, Option<Id>, Option<u32>)>, Error>)
    requires
        from <= vs@.len(),
    ensures
        ({
            let ps = Seq::new(params@.len(), |i: int| params@[i]@);
            match spec_subst_variants(ps, ids_view(args@), variants_view(vs@).skip(from as int)) {
                Ok(ts) => r matches Ok(v) && variants_view(v@) == ts,
                Err(k) => r matches Err(e) && e.kind == k,
            }
        }),
    decreases *vs, vs@.len() - from,
{
    proof {
        lemma_variants_view_index(vs@);
    }
    if from == vs.len() {
        let out: Vec<(String, Option<Id>, Option<u32>)> = Vec::new();
        proof {
            assert(variants_view(vs@).skip(from as int).len() == 0);
            assert(variants_view(out@) =~= Seq::<SpecVariant>::empty());
        }
        return Ok(out);
    }
    proof {
        assert(variants_view(vs@).skip(from as int)[0] == variants_view(vs@)[from as int]);
        assert(variants_view(vs@).skip(from as int).drop_first() =~= variants_view(vs@).skip(
            from as int + 1,
        ));
    }
    let (name, payload, disc) = &vs[from];
    let payload_res: Result<Option<Id>, Error> = match payload {
        Some(id) => match subst_id(params, args, id) {
            Ok(t) => Ok(Some(t)),
            Err(e) => Err(e),
        },
        None => Ok(None),
    };
    match payload_res {
        Err(e) => Err(e),
        Ok(payload2) => {
            match subst_variants_from(params, args, vs, from + 1) {
                Err(e) => Err(e),
                Ok(mut rest) => {
                    let v = (name.clone(), payload2, *disc);
                    let ghost vg = v;
                    let ghost restg = rest@;
                    let mut out: Vec<(String, Option<Id>, Option<u32>)> = Vec::new();
                    out.push(v);
                    out.append(&mut rest);
                    proof {
                        assert(out@ =~= seq![vg] + restg);
                        crate::ast::lemma_variants_view_cons(vg, restg);
                    }
                    Ok(out)
                },
            }
        },
    }
}

fn subst_fields_from(
    params: &Vec<String>,
    args: &Vec<Id>,
    fs: &Vec<(String, Id)>,
    from: usize,
) -> (r: Result<Vec<(String, Id)>, Error>)
    requires
        from <= fs@.len(),
    ensures
        ({
            let ps = Seq::new(params@.len(), |i: int| params@[i]@);
            match spec_subst_fields(ps, ids_view(args@), fields_view(fs@).skip(from as int)) {
                Ok(ts) => r matches Ok(v) && fields_view(v@) == ts,
                Err(k) => r matches Err(e) && e.kind == k,
            }
        }),
    decreases *fs, fs@.len() - from,
{
    proof {
        lemma_fields_view_index(fs@);
    }
    if from == fs.len() {
        let out: Vec<(String, Id)> = Vec::new();
        proof {
            assert(fields_view(fs@).skip(from as int).len() == 0);
            assert(fields_view(out@) =~= Seq::<SpecField>::empty());
        }
        return Ok(out);
    }
    proof {
        assert(fields_view(fs@).skip(from as int)[0] == fields_view(fs@)[from as int]);
        assert(fields_view(fs@).skip(from as int).drop_first() =~= fields_view(fs@).skip(
            from as int + 1,
        ));
    }
    let (name, id) = &fs[from];
    match subst_id(params, args, id) {
        Err(e) => Err(e),
        Ok(t) => {
            match subst_fields_from(params, args, fs, from + 1) {
                Err(e) => Err(e),
                Ok(mut rest) => {
                    let f = (name.clone(), t);
                    let ghost fg = f;
                    let ghost restg = rest@;
                    let mut out: Vec<(String, Id)> = Vec::new();
                    out.push(f);
                    out.append(&mut rest);
                    proof {
                        assert(out@ =~= seq![fg] + restg);
                        crate::ast::lemma_fields_view_cons(fg, restg);
                    }
                    Ok(out)
                },
            }
        },
    }
}

/// Rewrites every parameter occurrence in a shape into the matching
/// argument.
pub fn subst_type(params: &Vec<String>, args: &Vec<Id>, t: &Type) -> (r: Result<Type, Error>)
    ensures
        ({
            let ps = Seq::new(params@.len(), |i: int| params@[i]@);
            match spec_subst_type(ps, ids_view(args@), t@) {
                Ok(t2) => r matches Ok(v) && v@ == t2,
                Err(k) => r matches Err(e) && e.kind == k,
            }
        }),
    decreases *t, 0int,
{
    match t {
        Type::Primitive(p) => Ok(Type::Primitive(*p)),
        Type::Compact(id) => Ok(Type::Compact(crate::ast::clone_id(id))),
        Type::Sequence(id) => match subst_id(params, args, id) {
            Ok(t2) => Ok(Type::Sequence(t2)),
            Err(e) => Err(e),
        },
        Type::Tuple(ids) => match subst_ids(params, args, ids) {
            Ok(ts) => Ok(Type::Tuple(ts)),
            Err(e) => Err(e),
        },
        Type::Array(id, n) => match subst_id(params, args, id) {
            Ok(t2) => Ok(Type::Array(t2, *n)),
            Err(e) => Err(e),
        },
        Type::Enum(e) => {
            proof {
                assert(variants_view(e.variants@).skip(0) =~= variants_view(e.variants@));
            }
            match subst_variants_from(params, args, &e.variants, 0) {
                Ok(vs) => Ok(Type::Enum(Enum { variants: vs })),
                Err(er) => Err(er),
            }
        },
        Type::Struct(fs) => {
            proof {
                assert(fields_view(fs@).skip(0) =~= fields_view(fs@));
            }
            match subst_fields_from(params, args, fs, 0) {
                Ok(fs2) => Ok(Type::Struct(fs2)),
                Err(e) => Err(e),
            }
        },
        Type::Alias(id) => match subst_id(params, args, id) {
            Ok(t2) => Ok(Type::Alias(t2)),
            Err(e) => Err(e),
        },
    }
}

impl Registry {
    /// A fresh, empty registry.
    pub fn new() -> (r: Registry)
        ensures
            r@ == Seq::<SpecTypeDef>::empty(),
    {
        let r = Registry { types: Vec::new() };
        proof {
            assert(r@ =~= Seq::<SpecTypeDef>::empty());
        }
        r
    }

    /// Appends definitions in order; existing entries are never removed
    /// or changed, and a re-used name shadows the older definition.
    pub fn append(&mut self, defs: Vec<TypeDef>)
        ensures
            final(self)@ == old(self)@ + defs_view(defs@),
    {
        let ghost dv = defs@;
        let mut d = defs;
        self.types.append(&mut d);
        proof {
            assert(final(self)@ =~= old(self)@ + defs_view(dv));
        }
    }

    /// The index of the newest definition with the given name.
    pub fn lookup_name(&self, name: &String) -> (r: Option<usize>)
        ensures
            match spec_lookup(self@, name@) {
                Some(k) => r matches Some(i) && i as int == k,
                None => r is None,
            },
    {
        proof {
            lemma_lookup_props(self@, name@);
        }
        let n = self.types.len();
        let mut i: usize = n;
        while i > 0
            invariant
                0 <= i <= n,
                n == self.types@.len(),
                self@.len() == n,
                forall|j: int| i <= j < n ==> self@[j].name != Some(name@),
                forall|j: int| 0 <= j < n ==> self@[j] == self.types@[j]@,
            decreases i,
        {
            i -= 1;
            let hit = match &self.types[i].name {
                Some(nm) => str_eq(nm.as_str(), name.as_str()),
                None => false,
            };
            if hit {
                proof {
                    lemma_lookup_props(self@, name@);
                    assert(self@[i as int].name == Some(name@));
                    match spec_lookup(self@, name@) {
                        Some(k) => {
                            if k < i as int {
                                assert(self@[i as int].name != Some(name@));
                                assert(false);
                            }
                            if k > i as int {
                                assert(self@[k].name != Some(name@));
                                assert(false);
                            }
                        },
                        None => {
                            assert(self@[i as int].name != Some(name@));
                            assert(false);
                        },
                    }
                }
                return Some(i);
            }
        }
        proof {
            lemma_lookup_props(self@, name@);
            match spec_lookup(self@, name@) {
                Some(k) => {
                    assert(self@[k].name != Some(name@));
                    assert(false);
                },
                None => {},
            }
        }
        None
    }

    /// Instantiates a definition with the arguments carried by a
    /// reference; the parameter count must match exactly.
    pub fn resolve_generic(&self, def: &TypeDef, args: &Vec<Id>) -> (r: Result<Type, Error>)
        ensures
            match spec_resolve_generic(def@, ids_view(args@)) {
                Ok(t) => r matches Ok(v) && v@ == t,
                Err(k) => r matches Err(e) && e.kind == k,
            },
    {
        proof {
            lemma_ids_view_index(args@);
        }
        if def.type_params.len() != args.len() {
            return Err(
                Error::from_text(
                    ErrorKind::Resolution,
                    "a generic type was used with the wrong number of type parameters",
                ),
            );
        }
        if args.len() == 0 {
            return Ok(clone_type(&def.ty));
        }
        subst_type(&def.type_params, args, &def.ty)
    }

    /// One resolution step of a reference.
    pub fn get_type_shallow(&self, tid: &Id) -> (r: Result<Type, Error>)
        ensures
            match spec_get_shallow(self@, tid@) {
                Ok(t) => r matches Ok(v) && v@ == t,
                Err(k) => r matches Err(e) && e.kind == k,
            },
    {
        proof {
            assert(forall|j: int| 0 <= j < self@.len() ==> self@[j] == self.types@[j]@);
        }
        match tid {
            Id::Name(nm, args) => {
                proof {
                    lemma_ids_view_index(args@);
                    lemma_lookup_props(self@, nm@);
                }
                match self.lookup_name(nm) {
                    Some(i) => self.resolve_generic(&self.types[i], args),
                    None => {
                        match PrimitiveType::from_str(nm.as_str()) {
                            Some(p) => {
                                if args.len() == 0 {
                                    Ok(Type::Primitive(p))
                                } else {
                                    Err(
                                        Error::from_text(
                                            ErrorKind::Resolution,
                                            "a primitive type takes no type parameters",
                                        ),
                                    )
                                }
                            },
                            None => Err(Error::from_text(ErrorKind::Resolution, "unknown type")),
                        }
                    },
                }
            },
            Id::Num(i) => {
                if (*i as usize) < self.types.len() {
                    let empty_args: Vec<Id> = Vec::new();
                    proof {
                        assert(ids_view(empty_args@) =~= Seq::<SpecId>::empty());
                    }
                    self.resolve_generic(&self.types[*i as usize], &empty_args)
                } else {
                    Err(Error::from_text(ErrorKind::Resolution, "unknown type index"))
                }
            },
            Id::Type(t) => Ok(clone_type(&**t)),
        }
    }

    /// Full resolution of a reference: one shallow step, then aliases are
    /// re-resolved shallowly until a non-alias shape is reached.  A chain
    /// longer than the registry must revisit a definition, so it is
    /// reported as an alias cycle.
    pub fn get_type(&self, tid: &Id) -> (r: Result<Type, Error>)
        ensures
            match spec_get_type(self@, tid@) {
                Ok(t) => r matches Ok(v) && v@ == t,
                Err(k) => r matches Err(e) && e.kind == k,
            },
    {
        let mut t = match self.get_type_shallow(tid) {
            Ok(t) => t,
            Err(e) => {
                return Err(e);
            },
        };
        let mut budget: u128 = self.types.len() as u128 + 1;
        proof {
            assert(spec_chase(self@, spec_get_shallow(self@, tid@)->Ok_0, (self@.len()
                + 1) as nat) == spec_chase(self@, t@, budget as nat));
        }
        loop
            invariant
                spec_get_type(self@, tid@) == spec_chase(self@, t@, budget as nat),
            ensures
                spec_get_type(self@, tid@) matches Ok(t2) && t@ == t2,
            decreases budget,
        {
            let is_alias = t.is_alias();
            if !is_alias {
                break;
            }
            if budget == 0 {
                return Err(Error::from_text(ErrorKind::Resolution, "type alias cycle"));
            }
            let id2 = match t {
                Type::Alias(id) => id,
                _ => {
                    proof {
                        assert(false);
                    }
                    return Err(Error::from_text(ErrorKind::Resolution, "type alias cycle"));
                },
            };
            match self.get_type_shallow(&id2) {
                Ok(t2) => {
                    t = t2;
                    budget -= 1;
                },
                Err(e) => {
                    return Err(e);
                },
            }
        }
        Ok(t)
    }

    /// Resolution with the literal fallback: a name that fails to resolve
    /// is re-parsed as an inline type expression when the fallback is
    /// enabled; an alias obtained that way is resolved one further level
    /// without fallback.
    pub fn resolve_type(&self, tid: &Id, fallback: bool) -> (r: Result<Type, Error>)
        ensures
            match spec_resolve(self@, tid@, fallback) {
                Ok(t) => r matches Ok(v) && v@ == t,
                Err(k) => r matches Err(e) && e.kind == k,
            },
    {
        let r = self.get_type(tid);
        let failed = match &r {
            Ok(_) => false,
            Err(_) => true,
        };
        if !failed || !fallback {
            return r;
        }
        match tid {
            Id::Name(nm, _) => {
                match crate::parser::parse_type(nm.as_str()) {
                    Err(e) => Err(e),
                    Ok(ty) => {
                        match ty {
                            Type::Alias(id2) => self.get_type(&id2),
                            _ => Ok(ty),
                        }
                    },
                }
            },
            _ => r,
        }
    }
}

} // verus!
