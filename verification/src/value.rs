//! The dynamic values the codec encodes from and decodes into.
//!
//! The codec core is independent of any particular host value
//! representation; this type captures exactly the capabilities the codec
//! needs: integer/bool/string coercion, byte buffers (directly or as a
//! hex-encoded string), positional elements, and named properties.

use vstd::prelude::*;
use vstd::utf8::encode_utf8;

use crate::error::ErrorKind;

verus! {

/// A dynamic value.
#[derive(Debug, PartialEq, Eq)]
pub enum Value {
    /// An unsigned integer.
    Uint(u128),
    /// A signed integer.
    Int(i128),
    Bool(bool),
    Str(String),
    /// A byte buffer.
    Bytes(Vec<u8>),
    /// An ordered sequence: array, tuple or sequence contents.
    List(Vec<Value>),
    /// An ordered list of named properties: struct or enum contents.
    Object(Vec<(String, Value)>),
    /// The absent payload of a unit enum variant.
    Null,
}

/// Ghost mirror of a dynamic value.
pub enum SpecValue {
    Uint(u128),
    Int(i128),
    Bool(bool),
    Str(Seq<char>),
    Bytes(Seq<u8>),
    List(Seq<SpecValue>),
    Object(Seq<(Seq<char>, SpecValue)>),
    Null,
}

// ---------------------------------------------------------------------------
// views
// ---------------------------------------------------------------------------

pub open spec fn value_view(v: Value) -> SpecValue
    decreases v,
{
    match v {
        Value::Uint(n) => SpecValue::Uint(n),
        Value::Int(n) => SpecValue::Int(n),
        Value::Bool(b) => SpecValue::Bool(b),
        Value::Str(s) => SpecValue::Str(s@),
        Value::Bytes(b) => SpecValue::Bytes(b@),
        Value::List(vs) => SpecValue::List(values_view(vs@)),
        Value::Object(es) => SpecValue::Object(entries_view(es@)),
        Value::Null => SpecValue::Null,
    }
}

pub open spec fn values_view(vs: Seq<Value>) -> Seq<SpecValue>
    decreases vs,
{
    if vs.len() == 0 {
        Seq::empty()
    } else {
        seq![value_view(vs[0])] + values_view(vs.drop_first())
    }
}

pub open spec fn entries_view(es: Seq<(String, Value)>) -> Seq<(Seq<char>, SpecValue)>
    decreases es,
{
    if es.len() == 0 {
        Seq::empty()
    } else {
        seq![(es[0].0@, value_view(es[0].1))] + entries_view(es.drop_first())
    }
}

impl View for Value {
    type V = SpecValue;

    open spec fn view(&self) -> SpecValue {
        value_view(*self)
    }
}

pub proof fn lemma_values_view_index(vs: Seq<Value>)
    ensures
        values_view(vs).len() == vs.len(),
        forall|i: int| 0 <= i < vs.len() ==> values_view(vs)[i] == value_view(vs[i]),
    decreases vs,
{
    if vs.len() > 0 {
        lemma_values_view_index(vs.drop_first());
    }
}

pub proof fn lemma_entries_view_index(es: Seq<(String, Value)>)
    ensures
        entries_view(es).len() == es.len(),
        forall|i: int|
            0 <= i < es.len() ==> entries_view(es)[i] == (es[i].0@, value_view(es[i].1)),
    decreases es,
{
    if es.len() > 0 {
        lemma_entries_view_index(es.drop_first());
    }
}


pub proof fn lemma_values_view_cons(el: Value, rest: Seq<Value>)
    ensures
        values_view(seq![el] + rest) == seq![value_view(el)] + values_view(rest),
{
    assert((seq![el] + rest).drop_first() =~= rest);
    assert((seq![el] + rest)[0] == el);
}

pub proof fn lemma_entries_view_cons(el: (String, Value), rest: Seq<(String, Value)>)
    ensures
        entries_view(seq![el] + rest) == seq![(el.0@, value_view(el.1))] + entries_view(rest),
{
    assert((seq![el] + rest).drop_first() =~= rest);
    assert((seq![el] + rest)[0] == el);
}

// ---------------------------------------------------------------------------
// integer and bool coercion
// ---------------------------------------------------------------------------

/// The unsigned reading of a value: an unsigned integer itself, or a
/// non-negative signed integer.
pub open spec fn spec_as_uint(v: SpecValue) -> Option<u128> {
    match v {
        SpecValue::Uint(n) => Some(n),
        SpecValue::Int(i) => if i >= 0 {
            Some(i as u128)
        } else {
            None
        },
        _ => None,
    }
}

/// The signed reading of a value: a signed integer itself, or an unsigned
/// integer small enough to fit.
pub open spec fn spec_as_int(v: SpecValue) -> Option<i128> {
    match v {
        SpecValue::Int(i) => Some(i),
        SpecValue::Uint(n) => if n <= i128::MAX as u128 {
            Some(n as i128)
        } else {
            None
        },
        _ => None,
    }
}

impl Value {
    pub fn as_uint(&self) -> (r: Option<u128>)
        ensures
            r == spec_as_uint(self@),
    {
        match self {
            Value::Uint(n) => Some(*n),
            Value::Int(i) => {
                if *i >= 0 {
                    Some(*i as u128)
                } else {
                    None
                }
            },
            _ => None,
        }
    }

    pub fn as_int(&self) -> (r: Option<i128>)
        ensures
            r == spec_as_int(self@),
    {
        match self {
            Value::Int(i) => Some(*i),
            Value::Uint(n) => {
                if *n <= i128::MAX as u128 {
                    Some(*n as i128)
                } else {
                    None
                }
            },
            _ => None,
        }
    }

    pub fn as_bool(&self) -> (r: Option<bool>)
        ensures
            match self@ {
                SpecValue::Bool(b) => r == Some(b),
                _ => r is None,
            },
    {
        match self {
            Value::Bool(b) => Some(*b),
            _ => None,
        }
    }
}

// ---------------------------------------------------------------------------
// named properties
// ---------------------------------------------------------------------------

/// The value of the first property with the given name.
pub open spec fn spec_get_prop(es: Seq<(Seq<char>, SpecValue)>, name: Seq<char>) -> Option<
    SpecValue,
>
    decreases es.len(),
{
    if es.len() == 0 {
        None
    } else if es[0].0 == name {
        Some(es[0].1)
    } else {
        spec_get_prop(es.drop_first(), name)
    }
}

impl Value {
    /// Reads the first property with the given name of an object value.
    pub fn get_property(&self, name: &str) -> (r: Option<&Value>)
        ensures
            match self@ {
                SpecValue::Object(es) => {
                    match spec_get_prop(es, name@) {
                        Some(v) => r matches Some(pv) && pv@ == v,
                        None => r is None,
                    }
                },
                _ => r is None,
            },
    {
        match self {
            Value::Object(entries) => {
                proof {
                    lemma_entries_view_index(entries@);
                }
                let n = entries.len();
                let mut i: usize = 0;
                while i < n
                    invariant
                        n == entries@.len(),
                        self@ matches SpecValue::Object(es) && es == entries_view(entries@),
                        entries_view(entries@).len() == n,
                        forall|j: int|
                            0 <= j < n ==> entries_view(entries@)[j] == (
                            entries@[j].0@,
                            value_view(entries@[j].1),
                            ),
                        0 <= i <= n,
                        forall|j: int| 0 <= j < i ==> entries@[j].0@ != name@,
                    decreases n - i,
                {
                    let (key, v) = &entries[i];
                    if crate::strutil::str_eq(key.as_str(), name) {
                        proof {
                            lemma_get_prop_first(entries_view(entries@), name@, i as int);
                        }
                        return Some(v);
                    }
                    i += 1;
                }
                proof {
                    lemma_get_prop_none(entries_view(entries@), name@);
                }
                None
            },
            _ => None,
        }
    }
}

/// If entry `k` is the first with the given name, the lookup returns its value.
pub proof fn lemma_get_prop_first(es: Seq<(Seq<char>, SpecValue)>, name: Seq<char>, k: int)
    requires
        0 <= k < es.len(),
        es[k].0 == name,
        forall|j: int| 0 <= j < k ==> es[j].0 != name,
    ensures
        spec_get_prop(es, name) == Some(es[k].1),
    decreases k,
{
    if k > 0 {
        let rest = es.drop_first();
        assert(forall|j: int| 0 <= j < rest.len() ==> rest[j] == es[j + 1]);
        lemma_get_prop_first(rest, name, k - 1);
    }
}

/// If no entry has the given name, the lookup returns nothing.
pub proof fn lemma_get_prop_none(es: Seq<(Seq<char>, SpecValue)>, name: Seq<char>)
    requires
        forall|j: int| 0 <= j < es.len() ==> es[j].0 != name,
    ensures
        spec_get_prop(es, name) is None,
    decreases es.len(),
{
    if es.len() > 0 {
        let rest = es.drop_first();
        assert(forall|j: int| 0 <= j < rest.len() ==> rest[j] == es[j + 1]);
        lemma_get_prop_none(rest, name);
    }
}

// ---------------------------------------------------------------------------
// byte input: buffers and hex strings
// ---------------------------------------------------------------------------

/// The value of one hex digit byte.
pub open spec fn spec_hex_nibble(b: u8) -> Option<u8> {
    if 48 <= b <= 57 {
        Some((b - 48) as u8)
    } else if 97 <= b <= 102 {
        Some((b - 87) as u8)
    } else if 65 <= b <= 70 {
        Some((b - 55) as u8)
    } else {
        None
    }
}

/// Decodes a sequence of hex digit bytes, two digits per output byte.
pub open spec fn spec_hex_bytes(bs: Seq<u8>) -> Option<Seq<u8>>
    decreases bs.len(),
{
    if bs.len() == 0 {
        Some(Seq::empty())
    } else if bs.len() == 1 {
        None
    } else {
        match (spec_hex_nibble(bs[0]), spec_hex_nibble(bs[1])) {
            (Some(hi), Some(lo)) => {
                match spec_hex_bytes(bs.drop_first().drop_first()) {
                    Some(rest) => Some(seq![(hi * 16 + lo) as u8] + rest),
                    None => None,
                }
            },
            _ => None,
        }
    }
}

/// The byte reading of a value, if it has one: a byte buffer is taken as
/// is; a string starting with `0x` is hex-decoded (failing on bad digits);
/// any other string contributes its UTF-8 bytes.
pub open spec fn spec_byte_input(v: SpecValue) -> Option<Result<Seq<u8>, ErrorKind>> {
    match v {
        SpecValue::Bytes(b) => Some(Ok(b)),
        SpecValue::Str(s) => {
            let bs = encode_utf8(s);
            if bs.len() >= 2 && bs[0] == 48 && bs[1] == 120 {
                match spec_hex_bytes(bs.skip(2)) {
                    Some(h) => Some(Ok(h)),
                    None => Some(Err(ErrorKind::TypeMismatch)),
                }
            } else {
                Some(Ok(bs))
            }
        },
        _ => None,
    }
}

fn hex_nibble(b: u8) -> (r: Option<u8>)
    ensures
        r == spec_hex_nibble(b),
{
    if 48 <= b && b <= 57 {
        Some(b - 48)
    } else if 97 <= b && b <= 102 {
        Some(b - 87)
    } else if 65 <= b && b <= 70 {
        Some(b - 55)
    } else {
        None
    }
}

/// Decodes hex digit bytes, two digits per output byte.
fn hex_decode(bs: &Vec<u8>, from: usize) -> (r: Option<Vec<u8>>)
    requires
        from <= bs@.len(),
    ensures
        match spec_hex_bytes(bs@.skip(from as int)) {
            Some(h) => r matches Some(v) && v@ == h,
            None => r is None,
        },
    decreases bs@.len() - from,
{
    if from == bs.len() {
        let r: Vec<u8> = Vec::new();
        proof {
            assert(bs@.skip(from as int).len() == 0);
        }
        return Some(r);
    }
    if from + 1 == bs.len() {
        proof {
            assert(bs@.skip(from as int).len() == 1);
        }
        return None;
    }
    let hi = hex_nibble(bs[from]);
    let lo = hex_nibble(bs[from + 1]);
    proof {
        assert(bs@.skip(from as int)[0] == bs@[from as int]);
        assert(bs@.skip(from as int)[1] == bs@[from as int + 1]);
        assert(bs@.skip(from as int).drop_first().drop_first() =~= bs@.skip(from as int + 2));
    }
    match (hi, lo) {
        (Some(h), Some(l)) => {
            match hex_decode(bs, from + 2) {
                Some(rest) => {
                    let mut out: Vec<u8> = Vec::new();
                    out.push(h * 16 + l);
                    let mut k: usize = 0;
                    let n = rest.len();
                    while k < n
                        invariant
                            n == rest@.len(),
                            0 <= k <= n,
                            out@.len() == k + 1,
                            out@[0] == h * 16 + l,
                            forall|j: int| 0 <= j < k ==> out@[j + 1] == rest@[j],
                        decreases n - k,
                    {
                        out.push(rest[k]);
                        k += 1;
                    }
                    proof {
                        let full = spec_hex_bytes(bs@.skip(from as int)).unwrap();
                        assert(out@ =~= full);
                    }
                    Some(out)
                },
                None => None,
            }
        },
        _ => None,
    }
}

impl Value {
    /// The byte reading of the value: a byte buffer as is, a `0x` string
    /// hex-decoded, any other string as its UTF-8 bytes.
    pub fn byte_input(&self) -> (r: Option<Result<Vec<u8>, crate::error::Error>>)
        ensures
            match spec_byte_input(self@) {
                Some(Ok(b)) => r matches Some(res) && res matches Ok(v) && v@ == b,
                Some(Err(k)) => r matches Some(res) && res matches Err(e) && e.kind == k,
                None => r is None,
            },
    {
        match self {
            Value::Bytes(b) => {
                let mut out: Vec<u8> = Vec::new();
                let n = b.len();
                let mut i: usize = 0;
                while i < n
                    invariant
                        n == b@.len(),
                        0 <= i <= n,
                        out@.len() == i,
                        forall|j: int| 0 <= j < i ==> out@[j] == b@[j],
                    decreases n - i,
                {
                    out.push(b[i]);
                    i += 1;
                }
                proof {
                    assert(out@ =~= b@);
                }
                Some(Ok(out))
            },
            Value::Str(s) => {
                let bs = s.as_str().as_bytes_vec();
                if bs.len() >= 2 && bs[0] == 48 && bs[1] == 120 {
                    match hex_decode(&bs, 2) {
                        Some(h) => Some(Ok(h)),
                        None => Some(
                            Err(
                                crate::error::Error::from_text(
                                    ErrorKind::TypeMismatch,
                                    "invalid hex string",
                                ),
                            ),
                        ),
                    }
                } else {
                    Some(Ok(bs))
                }
            },
            _ => None,
        }
    }
}

} // verus!
