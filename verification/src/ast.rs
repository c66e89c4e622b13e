//! The type model: primitive kinds, type references, type shapes and type
//! definitions, together with their mathematical views.
//!
//! Each executable node has a ghost mirror (`SpecId`, `SpecType`, ...) whose
//! text is a `Seq<char>` and whose lists are `Seq`s; every contract in the
//! crate speaks about those mirrors.

use vstd::prelude::*;

use crate::error::{Error, ErrorKind};
use crate::strutil::str_eq;

verus! {

/// The builtin primitive kinds of the wire format.
#[derive(Clone, Copy, PartialEq, Eq, Structural, Debug)]
pub enum PrimitiveType {
    U8,
    U16,
    U32,
    U64,
    U128,
    I8,
    I16,
    I32,
    I64,
    I128,
    Bool,
    Str,
}

impl PrimitiveType {
    /// Width in bits of the fixed integer encoding; 0 for `bool`/`str`.
    pub open spec fn width_bits(self) -> nat {
        match self {
            PrimitiveType::U8 => 8,
            PrimitiveType::U16 => 16,
            PrimitiveType::U32 => 32,
            PrimitiveType::U64 => 64,
            PrimitiveType::U128 => 128,
            PrimitiveType::I8 => 8,
            PrimitiveType::I16 => 16,
            PrimitiveType::I32 => 32,
            PrimitiveType::I64 => 64,
            PrimitiveType::I128 => 128,
            PrimitiveType::Bool => 0,
            PrimitiveType::Str => 0,
        }
    }

    pub open spec fn is_unsigned_int(self) -> bool {
        match self {
            PrimitiveType::U8
            | PrimitiveType::U16
            | PrimitiveType::U32
            | PrimitiveType::U64
            | PrimitiveType::U128 => true,
            _ => false,
        }
    }

    pub open spec fn is_signed_int(self) -> bool {
        match self {
            PrimitiveType::I8
            | PrimitiveType::I16
            | PrimitiveType::I32
            | PrimitiveType::I64
            | PrimitiveType::I128 => true,
            _ => false,
        }
    }
}

/// The primitive kind a builtin name denotes, if any.
pub open spec fn spec_primitive_of_name(name: Seq<char>) -> Option<PrimitiveType> {
    if name == "u8"@ {
        Some(PrimitiveType::U8)
    } else if name == "u16"@ {
        Some(PrimitiveType::U16)
    } else if name == "u32"@ {
        Some(PrimitiveType::U32)
    } else if name == "u64"@ {
        Some(PrimitiveType::U64)
    } else if name == "u128"@ {
        Some(PrimitiveType::U128)
    } else if name == "i8"@ {
        Some(PrimitiveType::I8)
    } else if name == "i16"@ {
        Some(PrimitiveType::I16)
    } else if name == "i32"@ {
        Some(PrimitiveType::I32)
    } else if name == "i64"@ {
        Some(PrimitiveType::I64)
    } else if name == "i128"@ {
        Some(PrimitiveType::I128)
    } else if name == "bool"@ {
        Some(PrimitiveType::Bool)
    } else if name == "str"@ {
        Some(PrimitiveType::Str)
    } else {
        None
    }
}

impl PrimitiveType {
    /// Looks a builtin primitive kind up by its name.
    pub fn from_str(s: &str) -> (r: Option<PrimitiveType>)
        ensures
            r == spec_primitive_of_name(s@),
    {
        if str_eq(s, "u8") {
            Some(PrimitiveType::U8)
        } else if str_eq(s, "u16") {
            Some(PrimitiveType::U16)
        } else if str_eq(s, "u32") {
            Some(PrimitiveType::U32)
        } else if str_eq(s, "u64") {
            Some(PrimitiveType::U64)
        } else if str_eq(s, "u128") {
            Some(PrimitiveType::U128)
        } else if str_eq(s, "i8") {
            Some(PrimitiveType::I8)
        } else if str_eq(s, "i16") {
            Some(PrimitiveType::I16)
        } else if str_eq(s, "i32") {
            Some(PrimitiveType::I32)
        } else if str_eq(s, "i64") {
            Some(PrimitiveType::I64)
        } else if str_eq(s, "i128") {
            Some(PrimitiveType::I128)
        } else if str_eq(s, "bool") {
            Some(PrimitiveType::Bool)
        } else if str_eq(s, "str") {
            Some(PrimitiveType::Str)
        } else {
            None
        }
    }
}

// ---------------------------------------------------------------------------
// ghost mirrors
// ---------------------------------------------------------------------------

/// Ghost mirror of a type reference.
pub enum SpecId {
    /// A reference by name, with the type arguments of a generic
    /// instantiation (empty for a plain name).
    Name(Seq<char>, Seq<SpecId>),
    /// A positional reference into the registry's definition list.
    Num(u32),
    /// An inline anonymous type expression.
    Type(Box<SpecType>),
}

/// Ghost mirror of one enum variant: name, optional payload reference,
/// optional explicit discriminant.
pub struct SpecVariant {
    pub name: Seq<char>,
    pub payload: Option<SpecId>,
    pub disc: Option<u32>,
}

/// Ghost mirror of one struct field.
pub struct SpecField {
    pub name: Seq<char>,
    pub id: SpecId,
}

/// Ghost mirror of a type shape.
pub enum SpecType {
    Primitive(PrimitiveType),
    Compact(SpecId),
    Sequence(SpecId),
    Tuple(Seq<SpecId>),
    Array(SpecId, u32),
    Enum(Seq<SpecVariant>),
    Struct(Seq<SpecField>),
    Alias(SpecId),
}

/// Ghost mirror of a type definition.
pub struct SpecTypeDef {
    pub name: Option<Seq<char>>,
    pub type_params: Seq<Seq<char>>,
    pub ty: SpecType,
}

// ---------------------------------------------------------------------------
// executable nodes
// ---------------------------------------------------------------------------

/// A type reference: by registered name (with type arguments of a generic
/// instantiation), by positional index, or an inline anonymous shape.
#[derive(Debug)]
pub enum Id {
    Name(String, Vec<Id>),
    Num(u32),
    Type(Box<Type>),
}

/// The ordered variant list of an enum shape.  Each variant has a name, an
/// optional payload type reference and an optional explicit discriminant.
#[derive(Debug)]
pub struct Enum {
    pub variants: Vec<(String, Option<Id>, Option<u32>)>,
}

/// A type shape.
#[derive(Debug)]
pub enum Type {
    Primitive(PrimitiveType),
    Compact(Id),
    Sequence(Id),
    Tuple(Vec<Id>),
    Array(Id, u32),
    Enum(Enum),
    Struct(Vec<(String, Id)>),
    Alias(Id),
}

/// A named or anonymous, possibly generic type definition.
#[derive(Debug)]
pub struct TypeDef {
    pub name: Option<String>,
    pub type_params: Vec<String>,
    pub ty: Type,
}

// ---------------------------------------------------------------------------
// views
// ---------------------------------------------------------------------------

pub open spec fn id_view(id: Id) -> SpecId
    decreases id,
{
    match id {
        Id::Name(name, args) => SpecId::Name(name@, ids_view(args@)),
        Id::Num(n) => SpecId::Num(n),
        Id::Type(t) => SpecId::Type(Box::new(type_view(*t))),
    }
}

pub open spec fn ids_view(ids: Seq<Id>) -> Seq<SpecId>
    decreases ids,
{
    if ids.len() == 0 {
        Seq::empty()
    } else {
        seq![id_view(ids[0])] + ids_view(ids.drop_first())
    }
}

pub open spec fn variants_view(vs: Seq<(String, Option<Id>, Option<u32>)>) -> Seq<SpecVariant>
    decreases vs,
{
    if vs.len() == 0 {
        Seq::empty()
    } else {
        let payload = match vs[0].1 {
            Some(id) => Some(id_view(id)),
            None => None,
        };
        seq![SpecVariant { name: vs[0].0@, payload, disc: vs[0].2 }] + variants_view(
            vs.drop_first(),
        )
    }
}

pub open spec fn fields_view(fs: Seq<(String, Id)>) -> Seq<SpecField>
    decreases fs,
{
    if fs.len() == 0 {
        Seq::empty()
    } else {
        seq![SpecField { name: fs[0].0@, id: id_view(fs[0].1) }] + fields_view(fs.drop_first())
    }
}

pub open spec fn type_view(t: Type) -> SpecType
    decreases t,
{
    match t {
        Type::Primitive(p) => SpecType::Primitive(p),
        Type::Compact(id) => SpecType::Compact(id_view(id)),
        Type::Sequence(id) => SpecType::Sequence(id_view(id)),
        Type::Tuple(ids) => SpecType::Tuple(ids_view(ids@)),
        Type::Array(id, n) => SpecType::Array(id_view(id), n),
        Type::Enum(e) => SpecType::Enum(variants_view(e.variants@)),
        Type::Struct(fields) => SpecType::Struct(fields_view(fields@)),
        Type::Alias(id) => SpecType::Alias(id_view(id)),
    }
}

impl View for Id {
    type V = SpecId;

    open spec fn view(&self) -> SpecId {
        id_view(*self)
    }
}

impl View for Type {
    type V = SpecType;

    open spec fn view(&self) -> SpecType {
        type_view(*self)
    }
}

impl View for Enum {
    type V = Seq<SpecVariant>;

    open spec fn view(&self) -> Seq<SpecVariant> {
        variants_view(self.variants@)
    }
}

impl View for TypeDef {
    type V = SpecTypeDef;

    open spec fn view(&self) -> SpecTypeDef {
        SpecTypeDef {
            name: match self.name {
                Some(n) => Some(n@),
                None => None,
            },
            type_params: Seq::new(self.type_params@.len(), |i: int| self.type_params@[i]@),
            ty: type_view(self.ty),
        }
    }
}

/// The view of a list is the list of views, element by element.
pub proof fn lemma_ids_view_index(ids: Seq<Id>)
    ensures
        ids_view(ids).len() == ids.len(),
        forall|i: int| 0 <= i < ids.len() ==> ids_view(ids)[i] == id_view(ids[i]),
    decreases ids,
{
    if ids.len() > 0 {
        lemma_ids_view_index(ids.drop_first());
    }
}

pub proof fn lemma_variants_view_index(vs: Seq<(String, Option<Id>, Option<u32>)>)
    ensures
        variants_view(vs).len() == vs.len(),
        forall|i: int|
            0 <= i < vs.len() ==> variants_view(vs)[i] == (SpecVariant {
                name: vs[i].0@,
                payload: match vs[i].1 {
                    Some(id) => Some(id_view(id)),
                    None => None,
                },
                disc: vs[i].2,
            }),
    decreases vs,
{
    if vs.len() > 0 {
        lemma_variants_view_index(vs.drop_first());
    }
}

pub proof fn lemma_fields_view_index(fs: Seq<(String, Id)>)
    ensures
        fields_view(fs).len() == fs.len(),
        forall|i: int|
            0 <= i < fs.len() ==> fields_view(fs)[i] == (SpecField {
                name: fs[i].0@,
                id: id_view(fs[i].1),
            }),
    decreases fs,
{
    if fs.len() > 0 {
        lemma_fields_view_index(fs.drop_first());
    }
}

/// View of an optional type reference.
pub open spec fn opt_id_view(o: Option<Id>) -> Option<SpecId> {
    match o {
        Some(id) => Some(id_view(id)),
        None => None,
    }
}

pub proof fn lemma_ids_view_cons(el: Id, rest: Seq<Id>)
    ensures
        ids_view(seq![el] + rest) == seq![id_view(el)] + ids_view(rest),
{
    assert((seq![el] + rest).drop_first() =~= rest);
    assert((seq![el] + rest)[0] == el);
}

pub proof fn lemma_variants_view_cons(el: (String, Option<Id>, Option<u32>), rest: Seq<
    (String, Option<Id>, Option<u32>),
>)
    ensures
        variants_view(seq![el] + rest) == seq![
            SpecVariant {
                name: el.0@,
                payload: opt_id_view(el.1),
                disc: el.2,
            },
        ] + variants_view(rest),
{
    assert((seq![el] + rest).drop_first() =~= rest);
    assert((seq![el] + rest)[0] == el);
}

pub proof fn lemma_fields_view_cons(el: (String, Id), rest: Seq<(String, Id)>)
    ensures
        fields_view(seq![el] + rest) == seq![
            SpecField { name: el.0@, id: id_view(el.1) },
        ] + fields_view(rest),
{
    assert((seq![el] + rest).drop_first() =~= rest);
    assert((seq![el] + rest)[0] == el);
}

// ---------------------------------------------------------------------------
// deep clones
// ---------------------------------------------------------------------------

pub fn clone_id(id: &Id) -> (r: Id)
    ensures
        r@ == id@,
    decreases *id,
{
    match id {
        Id::Name(name, args) => Id::Name(name.clone(), clone_ids(args)),
        Id::Num(n) => Id::Num(*n),
        Id::Type(t) => Id::Type(Box::new(clone_type(&**t))),
    }
}

pub fn clone_ids(ids: &Vec<Id>) -> (r: Vec<Id>)
    ensures
        r@.len() == ids@.len(),
        forall|i: int| 0 <= i < ids@.len() ==> r@[i]@ == ids@[i]@,
        ids_view(r@) == ids_view(ids@),
    decreases *ids,
{
    let mut out: Vec<Id> = Vec::new();
    let n = ids.len();
    let mut i: usize = 0;
    while i < n
        invariant
            n == ids@.len(),
            0 <= i <= n,
            out@.len() == i,
            forall|j: int| 0 <= j < i ==> out@[j]@ == ids@[j]@,
        decreases n - i,
    {
        let c = clone_id(&ids[i]);
        out.push(c);
        i += 1;
    }
    proof {
        lemma_ids_view_index(out@);
        lemma_ids_view_index(ids@);
        assert(ids_view(out@) =~= ids_view(ids@));
    }
    out
}

pub fn clone_type(t: &Type) -> (r: Type)
    ensures
        r@ == t@,
    decreases *t,
{
    match t {
        Type::Primitive(p) => Type::Primitive(*p),
        Type::Compact(id) => Type::Compact(clone_id(id)),
        Type::Sequence(id) => Type::Sequence(clone_id(id)),
        Type::Tuple(ids) => Type::Tuple(clone_ids(ids)),
        Type::Array(id, n) => Type::Array(clone_id(id), *n),
        Type::Enum(e) => Type::Enum(Enum { variants: clone_variants(&e.variants) }),
        Type::Struct(fields) => Type::Struct(clone_fields(fields)),
        Type::Alias(id) => Type::Alias(clone_id(id)),
    }
}

pub fn clone_variants(vs: &Vec<(String, Option<Id>, Option<u32>)>) -> (r: Vec<
    (String, Option<Id>, Option<u32>),
>)
    ensures
        r@.len() == vs@.len(),
        forall|i: int|
            0 <= i < vs@.len() ==> r@[i].0@ == vs@[i].0@ && opt_id_view(r@[i].1) == opt_id_view(
                vs@[i].1,
            ) && r@[i].2 == vs@[i].2,
        variants_view(r@) == variants_view(vs@),
    decreases *vs,
{
    let mut out: Vec<(String, Option<Id>, Option<u32>)> = Vec::new();
    let n = vs.len();
    let mut i: usize = 0;
    while i < n
        invariant
            n == vs@.len(),
            0 <= i <= n,
            out@.len() == i,
            forall|j: int|
                0 <= j < i ==> out@[j].0@ == vs@[j].0@ && opt_id_view(out@[j].1) == opt_id_view(
                    vs@[j].1,
                ) && out@[j].2 == vs@[j].2,
        decreases n - i,
    {
        let (name, payload, disc) = &vs[i];
        let payload_c = match payload {
            Some(id) => Some(clone_id(id)),
            None => None,
        };
        out.push((name.clone(), payload_c, *disc));
        i += 1;
    }
    proof {
        lemma_variants_view_index(out@);
        lemma_variants_view_index(vs@);
        assert(variants_view(out@) =~= variants_view(vs@));
    }
    out
}

pub fn clone_fields(fs: &Vec<(String, Id)>) -> (r: Vec<(String, Id)>)
    ensures
        r@.len() == fs@.len(),
        forall|i: int| 0 <= i < fs@.len() ==> r@[i].0@ == fs@[i].0@ && r@[i].1@ == fs@[i].1@,
        fields_view(r@) == fields_view(fs@),
    decreases *fs,
{
    let mut out: Vec<(String, Id)> = Vec::new();
    let n = fs.len();
    let mut i: usize = 0;
    while i < n
        invariant
            n == fs@.len(),
            0 <= i <= n,
            out@.len() == i,
            forall|j: int| 0 <= j < i ==> out@[j].0@ == fs@[j].0@ && out@[j].1@ == fs@[j].1@,
        decreases n - i,
    {
        let (name, id) = &fs[i];
        out.push((name.clone(), clone_id(id)));
        i += 1;
    }
    proof {
        lemma_fields_view_index(out@);
        lemma_fields_view_index(fs@);
        assert(fields_view(out@) =~= fields_view(fs@));
    }
    out
}

impl Clone for Id {
    fn clone(&self) -> (r: Id)
        ensures
            r@ == self@,
    {
        clone_id(self)
    }
}

impl Clone for Type {
    fn clone(&self) -> (r: Type)
        ensures
            r@ == self@,
    {
        clone_type(self)
    }
}

impl Clone for Enum {
    fn clone(&self) -> (r: Enum)
        ensures
            r@ == self@,
    {
        Enum { variants: clone_variants(&self.variants) }
    }
}

impl Clone for TypeDef {
    fn clone(&self) -> (r: TypeDef)
        ensures
            r@ == self@,
    {
        let name = match &self.name {
            Some(n) => Some(n.clone()),
            None => None,
        };
        let mut params: Vec<String> = Vec::new();
        let np = self.type_params.len();
        let mut i: usize = 0;
        while i < np
            invariant
                np == self.type_params@.len(),
                0 <= i <= np,
                params@.len() == i,
                forall|j: int| 0 <= j < i ==> params@[j]@ == self.type_params@[j]@,
            decreases np - i,
        {
            params.push(self.type_params[i].clone());
            i += 1;
        }
        let r = TypeDef { name, type_params: params, ty: clone_type(&self.ty) };
        proof {
            assert(r@.type_params =~= self@.type_params);
        }
        r
    }
}

// ---------------------------------------------------------------------------
// variant lookup
// ---------------------------------------------------------------------------

/// Index of the first variant with the given name.
pub open spec fn spec_variant_index_by_name(vs: Seq<SpecVariant>, name: Seq<char>) -> Option<int>
    decreases vs.len(),
{
    if vs.len() == 0 {
        None
    } else if vs[0].name == name {
        Some(0)
    } else {
        match spec_variant_index_by_name(vs.drop_first(), name) {
            Some(i) => Some(i + 1),
            None => None,
        }
    }
}

/// The wire discriminant of variant `k`: its explicit discriminant if it
/// has one, else its zero-based declaration index.
pub open spec fn spec_variant_disc(vs: Seq<SpecVariant>, k: int) -> int {
    match vs[k].disc {
        Some(d) => d as int,
        None => k,
    }
}

/// Index of the first variant with the given explicit discriminant.
pub open spec fn spec_variant_scan_by_disc(vs: Seq<SpecVariant>, tag: u8) -> Option<int>
    decreases vs.len(),
{
    if vs.len() == 0 {
        None
    } else if vs[0].disc == Some(tag as u32) {
        Some(0)
    } else {
        match spec_variant_scan_by_disc(vs.drop_first(), tag) {
            Some(i) => Some(i + 1),
            None => None,
        }
    }
}

/// The variant a decoded discriminant byte selects: the position-matching
/// index first, then a linear scan over explicit discriminants.
pub open spec fn spec_variant_index_by_tag(vs: Seq<SpecVariant>, tag: u8) -> Option<int> {
    if tag < vs.len() && (vs[tag as int].disc is None || vs[tag as int].disc == Some(tag as u32)) {
        Some(tag as int)
    } else {
        spec_variant_scan_by_disc(vs, tag)
    }
}

pub proof fn lemma_variant_index_by_name_props(vs: Seq<SpecVariant>, name: Seq<char>)
    ensures
        match spec_variant_index_by_name(vs, name) {
            Some(k) => 0 <= k < vs.len() && vs[k].name == name && forall|j: int|
                0 <= j < k ==> vs[j].name != name,
            None => forall|j: int| 0 <= j < vs.len() ==> vs[j].name != name,
        },
    decreases vs.len(),
{
    if vs.len() > 0 {
        let rest = vs.drop_first();
        lemma_variant_index_by_name_props(rest, name);
        assert(forall|j: int| 0 <= j < rest.len() ==> rest[j] == vs[j + 1]);
        if vs[0].name == name {
            assert(spec_variant_index_by_name(vs, name) == Some(0int));
        } else {
            match spec_variant_index_by_name(rest, name) {
                Some(i) => {
                    assert(spec_variant_index_by_name(vs, name) == Some(i + 1));
                    assert(vs[i + 1].name == name);
                    assert forall|j: int| 0 <= j < i + 1 implies vs[j].name != name by {
                        if j > 0 {
                            assert(rest[j - 1] == vs[j]);
                            assert(rest[j - 1].name != name);
                        }
                    }
                },
                None => {
                    assert(spec_variant_index_by_name(vs, name) is None);
                    assert forall|j: int| 0 <= j < vs.len() implies vs[j].name != name by {
                        if j > 0 {
                            assert(rest[j - 1] == vs[j]);
                            assert(rest[j - 1].name != name);
                        }
                    }
                },
            }
        }
    }
}

pub proof fn lemma_variant_scan_by_disc_props(vs: Seq<SpecVariant>, tag: u8)
    ensures
        match spec_variant_scan_by_disc(vs, tag) {
            Some(k) => 0 <= k < vs.len() && vs[k].disc == Some(tag as u32) && forall|j: int|
                0 <= j < k ==> vs[j].disc != Some(tag as u32),
            None => forall|j: int| 0 <= j < vs.len() ==> vs[j].disc != Some(tag as u32),
        },
    decreases vs.len(),
{
    if vs.len() > 0 {
        let rest = vs.drop_first();
        lemma_variant_scan_by_disc_props(rest, tag);
        assert(forall|j: int| 0 <= j < rest.len() ==> rest[j] == vs[j + 1]);
        if vs[0].disc == Some(tag as u32) {
            assert(spec_variant_scan_by_disc(vs, tag) == Some(0int));
        } else {
            match spec_variant_scan_by_disc(rest, tag) {
                Some(i) => {
                    assert(spec_variant_scan_by_disc(vs, tag) == Some(i + 1));
                    assert(vs[i + 1].disc == Some(tag as u32));
                    assert forall|j: int| 0 <= j < i + 1 implies vs[j].disc != Some(tag as u32) by {
                        if j > 0 {
                            assert(rest[j - 1] == vs[j]);
                            assert(rest[j - 1].disc != Some(tag as u32));
                        }
                    }
                },
                None => {
                    assert(spec_variant_scan_by_disc(vs, tag) is None);
                    assert forall|j: int| 0 <= j < vs.len() implies vs[j].disc != Some(tag as u32) by {
                        if j > 0 {
                            assert(rest[j - 1] == vs[j]);
                            assert(rest[j - 1].disc != Some(tag as u32));
                        }
                    }
                },
            }
        }
    }
}

impl Enum {
    /// Finds the first variant with the given name, returning its name, its
    /// payload reference and its wire discriminant.
    pub fn get_variant_by_name(&self, name: &str) -> (r: Result<(String, Option<Id>, u32), Error>)
        ensures
            match spec_variant_index_by_name(self@, name@) {
                Some(k) => {
                    if spec_variant_disc(self@, k) <= u32::MAX {
                        &&& r matches Ok(v)
                        &&& v.0@ == self@[k].name
                        &&& opt_id_view(v.1) == self@[k].payload
                        &&& v.2 == spec_variant_disc(self@, k)
                    } else {
                        r matches Err(e) && e.kind == ErrorKind::TypeMismatch
                    }
                },
                None => r matches Err(e) && e.kind == ErrorKind::TypeMismatch,
            },
    {
        proof {
            lemma_variants_view_index(self.variants@);
        }
        let n = self.variants.len();
        let mut i: usize = 0;
        while i < n
            invariant
                n == self.variants@.len(),
                self@.len() == n,
                0 <= i <= n,
                forall|j: int| 0 <= j < i ==> self@[j].name != name@,
                forall|j: int|
                    0 <= j < n ==> self@[j] == (SpecVariant {
                        name: self.variants@[j].0@,
                        payload: opt_id_view(self.variants@[j].1),
                        disc: self.variants@[j].2,
                    }),
            decreases n - i,
        {
            let (vname, payload, disc) = &self.variants[i];
            if str_eq(vname.as_str(), name) {
                proof {
                    lemma_variant_index_by_name_props(self@, name@);
                    assert(self@[i as int].name == name@);
                    match spec_variant_index_by_name(self@, name@) {
                        Some(k) => {
                            if k < i as int {
                                assert(self@[k].name == name@);
                                assert(false);
                            }
                            if k > i as int {
                                assert(self@[i as int].name != name@);
                                assert(false);
                            }
                            assert(k == i as int);
                        },
                        None => {
                            assert(self@[i as int].name != name@);
                            assert(false);
                        },
                    }
                }
                let d: u32 = match disc {
                    Some(d) => *d,
                    None => {
                        if i <= u32::MAX as usize {
                            i as u32
                        } else {
                            return Err(
                                Error::from_text(ErrorKind::TypeMismatch, "Variant index too large"),
                            );
                        }
                    },
                };
                let payload_c = match payload {
                    Some(id) => Some(clone_id(id)),
                    None => None,
                };
                return Ok((vname.clone(), payload_c, d));
            }
            i += 1;
        }
        proof {
            lemma_variant_index_by_name_props(self@, name@);
            match spec_variant_index_by_name(self@, name@) {
                Some(k) => {
                    assert(self@[k].name == name@);
                    assert(false);
                },
                None => {},
            }
        }
        Err(Error::from_text(ErrorKind::TypeMismatch, "Unknown variant"))
    }

    /// Resolves a decoded discriminant byte to a variant: the
    /// position-matching index is checked first, then a linear scan over
    /// explicit discriminants.
    pub fn get_variant_by_index(&self, tag: u8) -> (r: Result<(String, Option<Id>), Error>)
        ensures
            match spec_variant_index_by_tag(self@, tag) {
                Some(k) => {
                    &&& r matches Ok(v)
                    &&& v.0@ == self@[k].name
                    &&& opt_id_view(v.1) == self@[k].payload
                },
                None => r matches Err(e) && e.kind == ErrorKind::TypeMismatch,
            },
    {
        proof {
            lemma_variants_view_index(self.variants@);
        }
        let n = self.variants.len();
        if (tag as usize) < n {
            let (vname, payload, disc) = &self.variants[tag as usize];
            let positional_hit = match disc {
                Some(d) => *d == tag as u32,
                None => true,
            };
            if positional_hit {
                proof {
                    assert(spec_variant_index_by_tag(self@, tag) == Some(tag as int));
                }
                let payload_c = match payload {
                    Some(id) => Some(clone_id(id)),
                    None => None,
                };
                return Ok((vname.clone(), payload_c));
            }
        }
        proof {
            assert(spec_variant_index_by_tag(self@, tag) == spec_variant_scan_by_disc(self@, tag));
        }
        let mut i: usize = 0;
        while i < n
            invariant
                n == self.variants@.len(),
                self@.len() == n,
                0 <= i <= n,
                spec_variant_index_by_tag(self@, tag) == spec_variant_scan_by_disc(self@, tag),
                forall|j: int| 0 <= j < i ==> self@[j].disc != Some(tag as u32),
                forall|j: int|
                    0 <= j < n ==> self@[j] == (SpecVariant {
                        name: self.variants@[j].0@,
                        payload: opt_id_view(self.variants@[j].1),
                        disc: self.variants@[j].2,
                    }),
            decreases n - i,
        {
            let (vname, payload, disc) = &self.variants[i];
            let hit = match disc {
                Some(d) => *d == tag as u32,
                None => false,
            };
            if hit {
                proof {
                    lemma_variant_scan_by_disc_props(self@, tag);
                    assert(self@[i as int].disc == Some(tag as u32));
                    match spec_variant_scan_by_disc(self@, tag) {
                        Some(k) => {
                            if k < i as int {
                                assert(self@[k].disc == Some(tag as u32));
                                assert(false);
                            }
                            if k > i as int {
                                assert(self@[i as int].disc != Some(tag as u32));
                                assert(false);
                            }
                            assert(k == i as int);
                        },
                        None => {
                            assert(self@[i as int].disc != Some(tag as u32));
                            assert(false);
                        },
                    }
                }
                let payload_c = match payload {
                    Some(id) => Some(clone_id(id)),
                    None => None,
                };
                return Ok((vname.clone(), payload_c));
            }
            i += 1;
        }
        proof {
            lemma_variant_scan_by_disc_props(self@, tag);
            match spec_variant_scan_by_disc(self@, tag) {
                Some(k) => {
                    assert(self@[k].disc == Some(tag as u32));
                    assert(false);
                },
                None => {},
            }
        }
        Err(Error::from_text(ErrorKind::TypeMismatch, "Unknown variant tag"))
    }
}

// ---------------------------------------------------------------------------
// simple operations
// ---------------------------------------------------------------------------

impl Enum {
    pub fn new(variants: Vec<(String, Option<Id>, Option<u32>)>) -> (r: Enum)
        ensures
            r.variants == variants,
    {
        Enum { variants }
    }
}

impl Type {
    /// True exactly when the shape is a transparent alias.
    pub fn is_alias(&self) -> (r: bool)
        ensures
            r == (self@ is Alias),
    {
        matches!(self, Type::Alias(_))
    }

    /// The builtin primitive shape a name denotes, if any.
    pub fn primitive(s: &str) -> (r: Option<Type>)
        ensures
            match spec_primitive_of_name(s@) {
                Some(p) => r matches Some(t) && t@ == SpecType::Primitive(p),
                None => r is None,
            },
    {
        match PrimitiveType::from_str(s) {
            Some(p) => Some(Type::Primitive(p)),
            None => None,
        }
    }
}

} // verus!
