//! The recursive-descent parser of the type-definition language.
//!
//! Every construct is introduced by a distinguishing leading token, so the
//! parser never backtracks across constructs.  A trailing separator before
//! a closing delimiter is always permitted.  The grammar:
//!
//! ```text
//! defs     := [def {';' def} [';']]            to end of input
//! def      := identifier [params] '=' type | type
//! params   := '<' identifier {',' identifier} [','] '>'
//! type     := '#' primitive | tid | '@' tyref | '(' tyrefs ')'
//!           | '[' tyref (';' number)? ']' | '<' variants '>' | '{' fields '}'
//! tyref    := tid | number | type
//! tid      := identifier ['<' tyref {',' tyref} [','] '>']
//! variant  := identifier [':' [tyref]] [':' number]
//! field    := identifier ':' tyref
//! ```
//!
//! A nesting budget proportional to the token count bounds the recursion;
//! exceeding it is reported as a parse error.

use vstd::prelude::*;

use crate::ast::{
    fields_view, id_view, ids_view, lemma_fields_view_cons, lemma_ids_view_cons,
    lemma_variants_view_cons, opt_id_view, spec_primitive_of_name, variants_view, Enum,
    Id, PrimitiveType, SpecField, SpecId, SpecType, SpecTypeDef, SpecVariant, Type, TypeDef,
};
use crate::error::{Error, ErrorKind};
use crate::token::{lex, spec_lex, tokens_view, SpecToken, Token};

verus! {

// ---------------------------------------------------------------------------
// token predicates
// ---------------------------------------------------------------------------

/// Whether a token can begin a type reference or type expression.
pub open spec fn spec_starts_typ(t: SpecToken) -> bool {
    match t {
        SpecToken::Ident(_) => true,
        SpecToken::Num(_) => true,
        SpecToken::Op(b) => b == 35 || b == 64 || b == 40 || b == 91 || b == 60 || b == 123,
    }
}

pub open spec fn spec_is_op_at(ts: Seq<SpecToken>, pos: int, op: u8) -> bool {
    0 <= pos < ts.len() && ts[pos] == SpecToken::Op(op)
}

// ---------------------------------------------------------------------------
// the grammar, as total functions on token sequences
// ---------------------------------------------------------------------------

/// The names of a generic definition's parameters, if every argument
/// between the angle brackets is a bare name.
pub open spec fn spec_params_of(args: Seq<SpecId>) -> Option<Seq<Seq<char>>>
    decreases args.len(),
{
    if args.len() == 0 {
        Some(Seq::empty())
    } else {
        match args[0] {
            SpecId::Name(nm, targs) => {
                if targs.len() == 0 {
                    match spec_params_of(args.drop_first()) {
                        Some(rest) => Some(seq![nm] + rest),
                        None => None,
                    }
                } else {
                    None
                }
            },
            _ => None,
        }
    }
}

/// A name reference with optional type arguments.
pub open spec fn spec_parse_tid(ts: Seq<SpecToken>, pos: int, fuel: nat) -> Result<
    (SpecId, int),
    ErrorKind,
>
    decreases fuel,
{
    if fuel == 0 {
        Err(ErrorKind::Parse)
    } else if 0 <= pos < ts.len() && ts[pos] is Ident {
        let nm = ts[pos]->Ident_0;
        if spec_is_op_at(ts, pos + 1, 60) {
            match spec_parse_args(ts, pos + 2, (fuel - 1) as nat) {
                Ok((args, p)) => Ok((SpecId::Name(nm, args), p)),
                Err(k) => Err(k),
            }
        } else {
            Ok((SpecId::Name(nm, Seq::empty()), pos + 1))
        }
    } else {
        Err(ErrorKind::Parse)
    }
}

/// Type arguments after `<`, up to the closing `>`.
pub open spec fn spec_parse_args(ts: Seq<SpecToken>, pos: int, fuel: nat) -> Result<
    (Seq<SpecId>, int),
    ErrorKind,
>
    decreases fuel,
{
    if fuel == 0 {
        Err(ErrorKind::Parse)
    } else if spec_is_op_at(ts, pos, 62) {
        Ok((Seq::empty(), pos + 1))
    } else {
        match spec_parse_typ(ts, pos, (fuel - 1) as nat) {
            Err(k) => Err(k),
            Ok((el, p)) => {
                if spec_is_op_at(ts, p, 44) {
                    match spec_parse_args(ts, p + 1, (fuel - 1) as nat) {
                        Ok((rest, p2)) => Ok((seq![el] + rest, p2)),
                        Err(k) => Err(k),
                    }
                } else if spec_is_op_at(ts, p, 62) {
                    Ok((seq![el], p + 1))
                } else {
                    Err(ErrorKind::Parse)
                }
            },
        }
    }
}

/// Tuple members after `(`, up to the closing `)`.
pub open spec fn spec_parse_tuple_items(ts: Seq<SpecToken>, pos: int, fuel: nat) -> Result<
    (Seq<SpecId>, int),
    ErrorKind,
>
    decreases fuel,
{
    if fuel == 0 {
        Err(ErrorKind::Parse)
    } else if spec_is_op_at(ts, pos, 41) {
        Ok((Seq::empty(), pos + 1))
    } else {
        match spec_parse_typ(ts, pos, (fuel - 1) as nat) {
            Err(k) => Err(k),
            Ok((el, p)) => {
                if spec_is_op_at(ts, p, 44) {
                    match spec_parse_tuple_items(ts, p + 1, (fuel - 1) as nat) {
                        Ok((rest, p2)) => Ok((seq![el] + rest, p2)),
                        Err(k) => Err(k),
                    }
                } else if spec_is_op_at(ts, p, 41) {
                    Ok((seq![el], p + 1))
                } else {
                    Err(ErrorKind::Parse)
                }
            },
        }
    }
}

/// One enum variant: a name, an optional payload, an optional explicit
/// discriminant.
pub open spec fn spec_parse_variant(ts: Seq<SpecToken>, pos: int, fuel: nat) -> Result<
    (SpecVariant, int),
    ErrorKind,
>
    decreases fuel,
{
    if fuel == 0 {
        Err(ErrorKind::Parse)
    } else if 0 <= pos < ts.len() && ts[pos] is Ident {
        let nm = ts[pos]->Ident_0;
        if spec_is_op_at(ts, pos + 1, 58) {
            let p2 = pos + 2;
            let payload_res: Result<(Option<SpecId>, int), ErrorKind> = if 0 <= p2 < ts.len()
                && spec_starts_typ(ts[p2]) {
                match spec_parse_typ(ts, p2, (fuel - 1) as nat) {
                    Ok((t, p3)) => Ok((Some(t), p3)),
                    Err(k) => Err(k),
                }
            } else {
                Ok((None, p2))
            };
            match payload_res {
                Err(k) => Err(k),
                Ok((payload, p3)) => {
                    if spec_is_op_at(ts, p3, 58) {
                        if p3 + 1 < ts.len() && ts[p3 + 1] is Num {
                            Ok(
                                (
                                    SpecVariant {
                                        name: nm,
                                        payload,
                                        disc: Some(ts[p3 + 1]->Num_0),
                                    },
                                    p3 + 2,
                                ),
                            )
                        } else {
                            Err(ErrorKind::Parse)
                        }
                    } else {
                        Ok((SpecVariant { name: nm, payload, disc: None }, p3))
                    }
                },
            }
        } else {
            Ok((SpecVariant { name: nm, payload: None, disc: None }, pos + 1))
        }
    } else {
        Err(ErrorKind::Parse)
    }
}

/// Enum variants after `<`, separated by `,` or `|`, up to the closing `>`.
pub open spec fn spec_parse_variants(ts: Seq<SpecToken>, pos: int, fuel: nat) -> Result<
    (Seq<SpecVariant>, int),
    ErrorKind,
>
    decreases fuel,
{
    if fuel == 0 {
        Err(ErrorKind::Parse)
    } else if spec_is_op_at(ts, pos, 62) {
        Ok((Seq::empty(), pos + 1))
    } else {
        match spec_parse_variant(ts, pos, (fuel - 1) as nat) {
            Err(k) => Err(k),
            Ok((v, p)) => {
                if spec_is_op_at(ts, p, 44) || spec_is_op_at(ts, p, 124) {
                    match spec_parse_variants(ts, p + 1, (fuel - 1) as nat) {
                        Ok((rest, p2)) => Ok((seq![v] + rest, p2)),
                        Err(k) => Err(k),
                    }
                } else if spec_is_op_at(ts, p, 62) {
                    Ok((seq![v], p + 1))
                } else {
                    Err(ErrorKind::Parse)
                }
            },
        }
    }
}

/// Struct fields after `{`, separated by `,`, up to the closing `}`.
pub open spec fn spec_parse_fields(ts: Seq<SpecToken>, pos: int, fuel: nat) -> Result<
    (Seq<SpecField>, int),
    ErrorKind,
>
    decreases fuel,
{
    if fuel == 0 {
        Err(ErrorKind::Parse)
    } else if spec_is_op_at(ts, pos, 125) {
        Ok((Seq::empty(), pos + 1))
    } else if 0 <= pos < ts.len() && ts[pos] is Ident && spec_is_op_at(ts, pos + 1, 58) {
        let nm = ts[pos]->Ident_0;
        match spec_parse_typ(ts, pos + 2, (fuel - 1) as nat) {
            Err(k) => Err(k),
            Ok((t, p)) => {
                let f = SpecField { name: nm, id: t };
                if spec_is_op_at(ts, p, 44) {
                    match spec_parse_fields(ts, p + 1, (fuel - 1) as nat) {
                        Ok((rest, p2)) => Ok((seq![f] + rest, p2)),
                        Err(k) => Err(k),
                    }
                } else if spec_is_op_at(ts, p, 125) {
                    Ok((seq![f], p + 1))
                } else {
                    Err(ErrorKind::Parse)
                }
            },
        }
    } else {
        Err(ErrorKind::Parse)
    }
}

/// A type expression.
pub open spec fn spec_parse_type(ts: Seq<SpecToken>, pos: int, fuel: nat) -> Result<
    (SpecType, int),
    ErrorKind,
>
    decreases fuel,
{
    if fuel == 0 {
        Err(ErrorKind::Parse)
    } else if !(0 <= pos < ts.len()) {
        Err(ErrorKind::Parse)
    } else {
        match ts[pos] {
            SpecToken::Num(n) => Ok((SpecType::Alias(SpecId::Num(n)), pos + 1)),
            SpecToken::Ident(_) => match spec_parse_tid(ts, pos, (fuel - 1) as nat) {
                Ok((tid, p)) => Ok((SpecType::Alias(tid), p)),
                Err(k) => Err(k),
            },
            SpecToken::Op(b) => {
                if b == 35 {
                    if pos + 1 < ts.len() && ts[pos + 1] is Ident {
                        match spec_primitive_of_name(ts[pos + 1]->Ident_0) {
                            Some(pt) => Ok((SpecType::Primitive(pt), pos + 2)),
                            None => Err(ErrorKind::Parse),
                        }
                    } else {
                        Err(ErrorKind::Parse)
                    }
                } else if b == 64 {
                    match spec_parse_typ(ts, pos + 1, (fuel - 1) as nat) {
                        Ok((t, p)) => Ok((SpecType::Compact(t), p)),
                        Err(k) => Err(k),
                    }
                } else if b == 40 {
                    match spec_parse_tuple_items(ts, pos + 1, (fuel - 1) as nat) {
                        Ok((items, p)) => Ok((SpecType::Tuple(items), p)),
                        Err(k) => Err(k),
                    }
                } else if b == 91 {
                    match spec_parse_typ(ts, pos + 1, (fuel - 1) as nat) {
                        Err(k) => Err(k),
                        Ok((el, p)) => {
                            if spec_is_op_at(ts, p, 59) {
                                if p + 1 < ts.len() && ts[p + 1] is Num && spec_is_op_at(
                                    ts,
                                    p + 2,
                                    93,
                                ) {
                                    Ok((SpecType::Array(el, ts[p + 1]->Num_0), p + 3))
                                } else {
                                    Err(ErrorKind::Parse)
                                }
                            } else if spec_is_op_at(ts, p, 93) {
                                Ok((SpecType::Sequence(el), p + 1))
                            } else {
                                Err(ErrorKind::Parse)
                            }
                        },
                    }
                } else if b == 60 {
                    match spec_parse_variants(ts, pos + 1, (fuel - 1) as nat) {
                        Ok((vs, p)) => Ok((SpecType::Enum(vs), p)),
                        Err(k) => Err(k),
                    }
                } else if b == 123 {
                    match spec_parse_fields(ts, pos + 1, (fuel - 1) as nat) {
                        Ok((fs, p)) => Ok((SpecType::Struct(fs), p)),
                        Err(k) => Err(k),
                    }
                } else {
                    Err(ErrorKind::Parse)
                }
            },
        }
    }
}

/// A type reference: a name, a positional index, or a nested type.
pub open spec fn spec_parse_typ(ts: Seq<SpecToken>, pos: int, fuel: nat) -> Result<
    (SpecId, int),
    ErrorKind,
>
    decreases fuel,
{
    if fuel == 0 {
        Err(ErrorKind::Parse)
    } else if !(0 <= pos < ts.len()) {
        Err(ErrorKind::Parse)
    } else {
        match ts[pos] {
            SpecToken::Ident(_) => spec_parse_tid(ts, pos, (fuel - 1) as nat),
            SpecToken::Num(n) => Ok((SpecId::Num(n), pos + 1)),
            SpecToken::Op(_) => match spec_parse_type(ts, pos, (fuel - 1) as nat) {
                Ok((t, p)) => Ok((SpecId::Type(Box::new(t)), p)),
                Err(k) => Err(k),
            },
        }
    }
}

/// One statement: a named, possibly generic definition, or an anonymous
/// type.
pub open spec fn spec_parse_def(ts: Seq<SpecToken>, pos: int, fuel: nat) -> Result<
    (SpecTypeDef, int),
    ErrorKind,
>
    decreases fuel,
{
    if fuel == 0 {
        Err(ErrorKind::Parse)
    } else if 0 <= pos < ts.len() && ts[pos] is Ident {
        match spec_parse_tid(ts, pos, (fuel - 1) as nat) {
            Err(k) => Err(k),
            Ok((tid, p)) => match tid {
                SpecId::Name(nm, args) => {
                    if spec_is_op_at(ts, p, 61) {
                        match spec_params_of(args) {
                            None => Err(ErrorKind::Parse),
                            Some(params) => match spec_parse_type(ts, p + 1, (fuel - 1) as nat) {
                                Ok((ty, p2)) => Ok(
                                    (
                                        SpecTypeDef {
                                            name: Some(nm),
                                            type_params: params,
                                            ty,
                                        },
                                        p2,
                                    ),
                                ),
                                Err(k) => Err(k),
                            },
                        }
                    } else {
                        Ok(
                            (
                                SpecTypeDef {
                                    name: None,
                                    type_params: Seq::empty(),
                                    ty: SpecType::Alias(SpecId::Name(nm, args)),
                                },
                                p,
                            ),
                        )
                    }
                },
                _ => Err(ErrorKind::Parse),
            },
        }
    } else {
        match spec_parse_type(ts, pos, (fuel - 1) as nat) {
            Ok((ty, p)) => Ok((SpecTypeDef { name: None, type_params: Seq::empty(), ty }, p)),
            Err(k) => Err(k),
        }
    }
}

/// All statements to the end of input, separated by `;`, with an optional
/// trailing `;`.
pub open spec fn spec_parse_defs(ts: Seq<SpecToken>, pos: int, fuel: nat) -> Result<
    Seq<SpecTypeDef>,
    ErrorKind,
>
    decreases fuel,
{
    if fuel == 0 {
        Err(ErrorKind::Parse)
    } else if pos >= ts.len() {
        Ok(Seq::empty())
    } else {
        match spec_parse_def(ts, pos, (fuel - 1) as nat) {
            Err(k) => Err(k),
            Ok((d, p)) => {
                if p >= ts.len() {
                    Ok(seq![d])
                } else if spec_is_op_at(ts, p, 59) {
                    match spec_parse_defs(ts, p + 1, (fuel - 1) as nat) {
                        Ok(rest) => Ok(seq![d] + rest),
                        Err(k) => Err(k),
                    }
                } else {
                    Err(ErrorKind::Parse)
                }
            },
        }
    }
}

/// The recursion budget granted to a token stream.
pub open spec fn spec_parse_fuel(n: int) -> nat {
    (4 * n + 16) as nat
}

/// What parsing a whole source text yields.
pub open spec fn spec_parse_types(bytes: Seq<u8>) -> Result<Seq<SpecTypeDef>, ErrorKind> {
    match spec_lex(bytes) {
        Err(k) => Err(k),
        Ok(ts) => spec_parse_defs(ts, 0, spec_parse_fuel(ts.len() as int)),
    }
}

/// What parsing a single type expression yields: the type, with the whole
/// input consumed.
pub open spec fn spec_parse_type_src(bytes: Seq<u8>) -> Result<SpecType, ErrorKind> {
    match spec_lex(bytes) {
        Err(k) => Err(k),
        Ok(ts) => match spec_parse_type(ts, 0, spec_parse_fuel(ts.len() as int)) {
            Err(k) => Err(k),
            Ok((ty, p)) => if p == ts.len() {
                Ok(ty)
            } else {
                Err(ErrorKind::Parse)
            },
        },
    }
}

// ---------------------------------------------------------------------------
// executable parser
// ---------------------------------------------------------------------------

fn parse_err() -> (r: Error)
    ensures
        r.kind == ErrorKind::Parse,
{
    Error::from_text(ErrorKind::Parse, "type definition text does not match the grammar")
}

fn peek_is_op(toks: &Vec<Token>, pos: usize, op: u8) -> (r: bool)
    ensures
        r == spec_is_op_at(tokens_view(toks@), pos as int, op),
{
    if pos < toks.len() {
        match &toks[pos] {
            Token::Op(c) => *c == op,
            _ => false,
        }
    } else {
        false
    }
}

fn starts_typ_at(toks: &Vec<Token>, pos: usize) -> (r: bool)
    ensures
        r == (pos < tokens_view(toks@).len() && spec_starts_typ(tokens_view(toks@)[pos as int])),
{
    if pos < toks.len() {
        match &toks[pos] {
            Token::Ident(_) => true,
            Token::Num(_) => true,
            Token::Op(c) => *c == 35 || *c == 64 || *c == 40 || *c == 91 || *c == 60 || *c == 123,
        }
    } else {
        false
    }
}

fn parse_tid(toks: &Vec<Token>, pos: usize, fuel: u128) -> (r: Result<(Id, usize), Error>)
    ensures
        match spec_parse_tid(tokens_view(toks@), pos as int, fuel as nat) {
            Ok((sid, p)) => r matches Ok(v) && v.0@ == sid && v.1 as int == p && v.1
                <= toks@.len(),
            Err(k) => r matches Err(e) && e.kind == k,
        },
    decreases fuel,
{
    if fuel == 0 {
        return Err(parse_err());
    }
    let _nt: usize = toks.len();
    if pos < toks.len() {
        match &toks[pos] {
            Token::Ident(nm) => {
                let name = nm.clone();
                if peek_is_op(toks, pos + 1, 60) {
                    match parse_args(toks, pos + 2, fuel - 1) {
                        Ok((args, p)) => Ok((Id::Name(name, args), p)),
                        Err(e) => Err(e),
                    }
                } else {
                    let r = Id::Name(name, Vec::new());
                    proof {
                        assert(ids_view(Seq::<Id>::empty()) =~= Seq::<SpecId>::empty());
                    }
                    Ok((r, pos + 1))
                }
            },
            _ => Err(parse_err()),
        }
    } else {
        Err(parse_err())
    }
}

fn parse_args(toks: &Vec<Token>, pos: usize, fuel: u128) -> (r: Result<(Vec<Id>, usize), Error>)
    ensures
        match spec_parse_args(tokens_view(toks@), pos as int, fuel as nat) {
            Ok((sids, p)) => r matches Ok(v) && ids_view(v.0@) == sids && v.1 as int == p && v.1
                <= toks@.len(),
            Err(k) => r matches Err(e) && e.kind == k,
        },
    decreases fuel,
{
    if fuel == 0 {
        return Err(parse_err());
    }
    let _nt: usize = toks.len();
    if peek_is_op(toks, pos, 62) {
        let out: Vec<Id> = Vec::new();
        proof {
            assert(ids_view(out@) =~= Seq::<SpecId>::empty());
        }
        return Ok((out, pos + 1));
    }
    match parse_typ(toks, pos, fuel - 1) {
        Err(e) => Err(e),
        Ok((el, p)) => {
            if peek_is_op(toks, p, 44) {
                match parse_args(toks, p + 1, fuel - 1) {
                    Ok((mut rest, p2)) => {
                        let ghost elg = el;
                        let ghost restg = rest@;
                        let mut out: Vec<Id> = Vec::new();
                        out.push(el);
                        out.append(&mut rest);
                        proof {
                            assert(out@ =~= seq![elg] + restg);
                            lemma_ids_view_cons(elg, restg);
                        }
                        Ok((out, p2))
                    },
                    Err(e) => Err(e),
                }
            } else if peek_is_op(toks, p, 62) {
                let ghost elg = el;
                let mut out: Vec<Id> = Vec::new();
                out.push(el);
                proof {
                    assert(out@ =~= seq![elg] + Seq::<Id>::empty());
                    lemma_ids_view_cons(elg, Seq::<Id>::empty());
                    assert(ids_view(Seq::<Id>::empty()) =~= Seq::<SpecId>::empty());
                    assert(seq![id_view(elg)] + Seq::<SpecId>::empty() =~= seq![id_view(elg)]);
                }
                Ok((out, p + 1))
            } else {
                Err(parse_err())
            }
        },
    }
}

fn parse_tuple_items(toks: &Vec<Token>, pos: usize, fuel: u128) -> (r: Result<
    (Vec<Id>, usize),
    Error,
>)
    ensures
        match spec_parse_tuple_items(tokens_view(toks@), pos as int, fuel as nat) {
            Ok((sids, p)) => r matches Ok(v) && ids_view(v.0@) == sids && v.1 as int == p && v.1
                <= toks@.len(),
            Err(k) => r matches Err(e) && e.kind == k,
        },
    decreases fuel,
{
    if fuel == 0 {
        return Err(parse_err());
    }
    let _nt: usize = toks.len();
    if peek_is_op(toks, pos, 41) {
        let out: Vec<Id> = Vec::new();
        proof {
            assert(ids_view(out@) =~= Seq::<SpecId>::empty());
        }
        return Ok((out, pos + 1));
    }
    match parse_typ(toks, pos, fuel - 1) {
        Err(e) => Err(e),
        Ok((el, p)) => {
            if peek_is_op(toks, p, 44) {
                match parse_tuple_items(toks, p + 1, fuel - 1) {
                    Ok((mut rest, p2)) => {
                        let ghost elg = el;
                        let ghost restg = rest@;
                        let mut out: Vec<Id> = Vec::new();
                        out.push(el);
                        out.append(&mut rest);
                        proof {
                            assert(out@ =~= seq![elg] + restg);
                            lemma_ids_view_cons(elg, restg);
                        }
                        Ok((out, p2))
                    },
                    Err(e) => Err(e),
                }
            } else if peek_is_op(toks, p, 41) {
                let ghost elg = el;
                let mut out: Vec<Id> = Vec::new();
                out.push(el);
                proof {
                    assert(out@ =~= seq![elg] + Seq::<Id>::empty());
                    lemma_ids_view_cons(elg, Seq::<Id>::empty());
                    assert(ids_view(Seq::<Id>::empty()) =~= Seq::<SpecId>::empty());
                    assert(seq![id_view(elg)] + Seq::<SpecId>::empty() =~= seq![id_view(elg)]);
                }
                Ok((out, p + 1))
            } else {
                Err(parse_err())
            }
        },
    }
}

fn parse_variant(toks: &Vec<Token>, pos: usize, fuel: u128) -> (r: Result<
    ((String, Option<Id>, Option<u32>), usize),
    Error,
>)
    ensures
        match spec_parse_variant(tokens_view(toks@), pos as int, fuel as nat) {
            Ok((sv, p)) => r matches Ok(v) && v.0.0@ == sv.name && opt_id_view(v.0.1) == sv.payload
                && v.0.2 == sv.disc && v.1 as int == p && v.1 <= toks@.len(),
            Err(k) => r matches Err(e) && e.kind == k,
        },
    decreases fuel,
{
    if fuel == 0 {
        return Err(parse_err());
    }
    let _nt: usize = toks.len();
    if pos < toks.len() {
        match &toks[pos] {
            Token::Ident(nm) => {
                let name = nm.clone();
                if peek_is_op(toks, pos + 1, 58) {
                    let p2 = pos + 2;
                    let payload_res: Result<(Option<Id>, usize), Error> = if starts_typ_at(
                        toks,
                        p2,
                    ) {
                        match parse_typ(toks, p2, fuel - 1) {
                            Ok((t, p3)) => Ok((Some(t), p3)),
                            Err(e) => Err(e),
                        }
                    } else {
                        Ok((None, p2))
                    };
                    match payload_res {
                        Err(e) => Err(e),
                        Ok((payload, p3)) => {
                            if peek_is_op(toks, p3, 58) {
                                if p3 + 1 < toks.len() {
                                    match &toks[p3 + 1] {
                                        Token::Num(d) => Ok(
                                            ((name, payload, Some(*d)), p3 + 2),
                                        ),
                                        _ => Err(parse_err()),
                                    }
                                } else {
                                    Err(parse_err())
                                }
                            } else {
                                Ok(((name, payload, None), p3))
                            }
                        },
                    }
                } else {
                    Ok(((name, None, None), pos + 1))
                }
            },
            _ => Err(parse_err()),
        }
    } else {
        Err(parse_err())
    }
}

fn parse_variants(toks: &Vec<Token>, pos: usize, fuel: u128) -> (r: Result<
    (Vec<(String, Option<Id>, Option<u32>)>, usize),
    Error,
>)
    ensures
        match spec_parse_variants(tokens_view(toks@), pos as int, fuel as nat) {
            Ok((svs, p)) => r matches Ok(v) && variants_view(v.0@) == svs && v.1 as int == p && v.1
                <= toks@.len(),
            Err(k) => r matches Err(e) && e.kind == k,
        },
    decreases fuel,
{
    if fuel == 0 {
        return Err(parse_err());
    }
    let _nt: usize = toks.len();
    if peek_is_op(toks, pos, 62) {
        let out: Vec<(String, Option<Id>, Option<u32>)> = Vec::new();
        proof {
            assert(variants_view(out@) =~= Seq::<SpecVariant>::empty());
        }
        return Ok((out, pos + 1));
    }
    match parse_variant(toks, pos, fuel - 1) {
        Err(e) => Err(e),
        Ok((v, p)) => {
            if peek_is_op(toks, p, 44) || peek_is_op(toks, p, 124) {
                match parse_variants(toks, p + 1, fuel - 1) {
                    Ok((mut rest, p2)) => {
                        let ghost vg = v;
                        let ghost restg = rest@;
                        let mut out: Vec<(String, Option<Id>, Option<u32>)> = Vec::new();
                        out.push(v);
                        out.append(&mut rest);
                        proof {
                            assert(out@ =~= seq![vg] + restg);
                            lemma_variants_view_cons(vg, restg);
                        }
                        Ok((out, p2))
                    },
                    Err(e) => Err(e),
                }
            } else if peek_is_op(toks, p, 62) {
                let ghost vg = v;
                let mut out: Vec<(String, Option<Id>, Option<u32>)> = Vec::new();
                out.push(v);
                proof {
                    assert(out@ =~= seq![vg] + Seq::<(String, Option<Id>, Option<u32>)>::empty());
                    lemma_variants_view_cons(
                        vg,
                        Seq::<(String, Option<Id>, Option<u32>)>::empty(),
                    );
                    assert(variants_view(Seq::<(String, Option<Id>, Option<u32>)>::empty())
                        =~= Seq::<SpecVariant>::empty());
                    assert(seq![
                        SpecVariant {
                            name: vg.0@,
                            payload: opt_id_view(vg.1),
                            disc: vg.2,
                        },
                    ] + Seq::<SpecVariant>::empty() =~= seq![
                        SpecVariant {
                            name: vg.0@,
                            payload: opt_id_view(vg.1),
                            disc: vg.2,
                        },
                    ]);
                }
                Ok((out, p + 1))
            } else {
                Err(parse_err())
            }
        },
    }
}

fn parse_fields(toks: &Vec<Token>, pos: usize, fuel: u128) -> (r: Result<
    (Vec<(String, Id)>, usize),
    Error,
>)
    ensures
        match spec_parse_fields(tokens_view(toks@), pos as int, fuel as nat) {
            Ok((sfs, p)) => r matches Ok(v) && fields_view(v.0@) == sfs && v.1 as int == p && v.1
                <= toks@.len(),
            Err(k) => r matches Err(e) && e.kind == k,
        },
    decreases fuel,
{
    if fuel == 0 {
        return Err(parse_err());
    }
    let _nt: usize = toks.len();
    if peek_is_op(toks, pos, 125) {
        let out: Vec<(String, Id)> = Vec::new();
        proof {
            assert(fields_view(out@) =~= Seq::<SpecField>::empty());
        }
        return Ok((out, pos + 1));
    }
    if pos < toks.len() && peek_is_op(toks, pos + 1, 58) {
        let name = match &toks[pos] {
            Token::Ident(nm) => nm.clone(),
            _ => {
                return Err(parse_err());
            },
        };
        match parse_typ(toks, pos + 2, fuel - 1) {
            Err(e) => Err(e),
            Ok((t, p)) => {
                let f = (name, t);
                if peek_is_op(toks, p, 44) {
                    match parse_fields(toks, p + 1, fuel - 1) {
                        Ok((mut rest, p2)) => {
                            let ghost fg = f;
                            let ghost restg = rest@;
                            let mut out: Vec<(String, Id)> = Vec::new();
                            out.push(f);
                            out.append(&mut rest);
                            proof {
                                assert(out@ =~= seq![fg] + restg);
                                lemma_fields_view_cons(fg, restg);
                            }
                            Ok((out, p2))
                        },
                        Err(e) => Err(e),
                    }
                } else if peek_is_op(toks, p, 125) {
                    let ghost fg = f;
                    let mut out: Vec<(String, Id)> = Vec::new();
                    out.push(f);
                    proof {
                        assert(out@ =~= seq![fg] + Seq::<(String, Id)>::empty());
                        lemma_fields_view_cons(fg, Seq::<(String, Id)>::empty());
                        assert(fields_view(Seq::<(String, Id)>::empty())
                            =~= Seq::<SpecField>::empty());
                        assert(seq![SpecField { name: fg.0@, id: id_view(fg.1) }]
                            + Seq::<SpecField>::empty() =~= seq![
                            SpecField { name: fg.0@, id: id_view(fg.1) },
                        ]);
                    }
                    Ok((out, p + 1))
                } else {
                    Err(parse_err())
                }
            },
        }
    } else {
        Err(parse_err())
    }
}

#[verifier::rlimit(80)]
fn parse_type_at(toks: &Vec<Token>, pos: usize, fuel: u128) -> (r: Result<(Type, usize), Error>)
    ensures
        match spec_parse_type(tokens_view(toks@), pos as int, fuel as nat) {
            Ok((st, p)) => r matches Ok(v) && v.0@ == st && v.1 as int == p && v.1 <= toks@.len(),
            Err(k) => r matches Err(e) && e.kind == k,
        },
    decreases fuel,
{
    if fuel == 0 {
        return Err(parse_err());
    }
    let _nt: usize = toks.len();
    if pos >= toks.len() {
        return Err(parse_err());
    }
    match &toks[pos] {
        Token::Num(n) => Ok((Type::Alias(Id::Num(*n)), pos + 1)),
        Token::Ident(_) => match parse_tid(toks, pos, fuel - 1) {
            Ok((tid, p)) => Ok((Type::Alias(tid), p)),
            Err(e) => Err(e),
        },
        Token::Op(c) => {
            let b = *c;
            if b == 35 {
                if pos + 1 < toks.len() {
                    match &toks[pos + 1] {
                        Token::Ident(nm) => match PrimitiveType::from_str(nm.as_str()) {
                            Some(pt) => Ok((Type::Primitive(pt), pos + 2)),
                            None => Err(parse_err()),
                        },
                        _ => Err(parse_err()),
                    }
                } else {
                    Err(parse_err())
                }
            } else if b == 64 {
                match parse_typ(toks, pos + 1, fuel - 1) {
                    Ok((t, p)) => Ok((Type::Compact(t), p)),
                    Err(e) => Err(e),
                }
            } else if b == 40 {
                match parse_tuple_items(toks, pos + 1, fuel - 1) {
                    Ok((items, p)) => Ok((Type::Tuple(items), p)),
                    Err(e) => Err(e),
                }
            } else if b == 91 {
                match parse_typ(toks, pos + 1, fuel - 1) {
                    Err(e) => Err(e),
                    Ok((el, p)) => {
                        if peek_is_op(toks, p, 59) {
                            if p + 1 < toks.len() && peek_is_op(toks, p + 2, 93) {
                                match &toks[p + 1] {
                                    Token::Num(n) => Ok((Type::Array(el, *n), p + 3)),
                                    _ => Err(parse_err()),
                                }
                            } else {
                                Err(parse_err())
                            }
                        } else if peek_is_op(toks, p, 93) {
                            Ok((Type::Sequence(el), p + 1))
                        } else {
                            Err(parse_err())
                        }
                    },
                }
            } else if b == 60 {
                match parse_variants(toks, pos + 1, fuel - 1) {
                    Ok((vs, p)) => Ok((Type::Enum(Enum { variants: vs }), p)),
                    Err(e) => Err(e),
                }
            } else if b == 123 {
                match parse_fields(toks, pos + 1, fuel - 1) {
                    Ok((fs, p)) => Ok((Type::Struct(fs), p)),
                    Err(e) => Err(e),
                }
            } else {
                Err(parse_err())
            }
        },
    }
}

fn parse_typ(toks: &Vec<Token>, pos: usize, fuel: u128) -> (r: Result<(Id, usize), Error>)
    ensures
        match spec_parse_typ(tokens_view(toks@), pos as int, fuel as nat) {
            Ok((sid, p)) => r matches Ok(v) && v.0@ == sid && v.1 as int == p && v.1
                <= toks@.len(),
            Err(k) => r matches Err(e) && e.kind == k,
        },
    decreases fuel,
{
    if fuel == 0 {
        return Err(parse_err());
    }
    let _nt: usize = toks.len();
    if pos >= toks.len() {
        return Err(parse_err());
    }
    match &toks[pos] {
        Token::Ident(_) => parse_tid(toks, pos, fuel - 1),
        Token::Num(n) => Ok((Id::Num(*n), pos + 1)),
        Token::Op(_) => match parse_type_at(toks, pos, fuel - 1) {
            Ok((t, p)) => Ok((Id::Type(Box::new(t)), p)),
            Err(e) => Err(e),
        },
    }
}

/// The names of a generic definition's parameters, if every argument is a
/// bare name.
proof fn lemma_params_of_char(args: Seq<SpecId>)
    ensures
        spec_params_of(args) matches Some(ps) ==> ps.len() == args.len() && forall|i: int|
            0 <= i < args.len() ==> ((#[trigger] args[i]) matches SpecId::Name(nm, targs)
                && targs.len() == 0 && ps[i] == nm),
        (forall|i: int|
            0 <= i < args.len() ==> ((#[trigger] args[i]) matches SpecId::Name(nm, targs)
                && targs.len() == 0)) ==> spec_params_of(args) is Some,
    decreases args.len(),
{
    if args.len() > 0 {
        let rest = args.drop_first();
        lemma_params_of_char(rest);
        assert(forall|j: int| 0 <= j < rest.len() ==> rest[j] == args[j + 1]);
        match args[0] {
            SpecId::Name(nm, targs) => {
                if targs.len() == 0 {
                    match spec_params_of(rest) {
                        Some(ps) => {
                            assert(spec_params_of(args) == Some(seq![nm] + ps));
                            assert forall|i: int| 0 <= i < args.len() implies ((
                            #[trigger] args[i]) matches SpecId::Name(nm2, targs2) && targs2.len()
                                == 0 && (seq![nm] + ps)[i] == nm2) by {
                                if i > 0 {
                                    assert(rest[i - 1] == args[i]);
                                }
                            }
                        },
                        None => {
                            if forall|i: int|
                                0 <= i < args.len() ==> ((#[trigger] args[i]) matches SpecId::Name(
                                    nm2,
                                    targs2,
                                ) && targs2.len() == 0) {
                                assert forall|j: int| 0 <= j < rest.len() implies ((
                                #[trigger] rest[j]) matches SpecId::Name(nm2, targs2)
                                    && targs2.len() == 0) by {
                                    assert(rest[j] == args[j + 1]);
                                }
                                assert(false);
                            }
                        },
                    }
                }
            },
            _ => {},
        }
    }
}

fn params_of(args: &Vec<Id>) -> (r: Option<Vec<String>>)
    ensures
        match spec_params_of(ids_view(args@)) {
            Some(ps) => r matches Some(v) && v@.len() == ps.len() && forall|i: int|
                0 <= i < ps.len() ==> v@[i]@ == ps[i],
            None => r is None,
        },
{
    proof {
        crate::ast::lemma_ids_view_index(args@);
        lemma_params_of_char(ids_view(args@));
    }
    let n = args.len();
    let mut out: Vec<String> = Vec::new();
    let mut i: usize = 0;
    while i < n
        invariant
            n == args@.len(),
            ids_view(args@).len() == n,
            forall|j: int| 0 <= j < n ==> ids_view(args@)[j] == id_view(args@[j]),
            0 <= i <= n,
            out@.len() == i,
            forall|j: int|
                0 <= j < i ==> ((#[trigger] ids_view(args@)[j]) matches SpecId::Name(nm, targs)
                    && targs.len() == 0 && out@[j]@ == nm),
        decreases n - i,
    {
        let bare = match &args[i] {
            Id::Name(_, targs) => targs.len() == 0,
            _ => false,
        };
        if !bare {
            proof {
                lemma_params_of_char(ids_view(args@));
                match spec_params_of(ids_view(args@)) {
                    Some(ps) => {
                        assert((ids_view(args@)[i as int]) matches SpecId::Name(nm, targs)
                            && targs.len() == 0);
                        assert(ids_view(args@)[i as int] == id_view(args@[i as int]));
                        match args@[i as int] {
                            Id::Name(nm2, targs2) => {
                                crate::ast::lemma_ids_view_index(targs2@);
                                assert(false);
                            },
                            Id::Num(_) => {
                                assert(false);
                            },
                            Id::Type(_) => {
                                assert(false);
                            },
                        }
                    },
                    None => {},
                }
            }
            return None;
        }
        match &args[i] {
            Id::Name(nm, targs) => {
                proof {
                    assert(crate::ast::ids_view(targs@) =~= Seq::<SpecId>::empty());
                }
                out.push(nm.clone());
            },
            _ => {
                proof {
                    assert(false);
                }
                return None;
            },
        }
        i += 1;
    }
    proof {
        lemma_params_of_char(ids_view(args@));
        assert(spec_params_of(ids_view(args@)) is Some);
        let ps = spec_params_of(ids_view(args@))->Some_0;
        assert forall|i: int| 0 <= i < ps.len() implies out@[i]@ == ps[i] by {
            assert((ids_view(args@)[i]) matches SpecId::Name(nm, targs) && targs.len() == 0
                && out@[i]@ == nm);
        };
    }
    Some(out)
}

fn parse_def(toks: &Vec<Token>, pos: usize, fuel: u128) -> (r: Result<(TypeDef, usize), Error>)
    ensures
        match spec_parse_def(tokens_view(toks@), pos as int, fuel as nat) {
            Ok((sd, p)) => r matches Ok(v) && v.0@ == sd && v.1 as int == p && v.1 <= toks@.len(),
            Err(k) => r matches Err(e) && e.kind == k,
        },
    decreases fuel,
{
    if fuel == 0 {
        return Err(parse_err());
    }
    let _nt: usize = toks.len();
    let is_ident = pos < toks.len() && matches!(&toks[pos], Token::Ident(_));
    if is_ident {
        match parse_tid(toks, pos, fuel - 1) {
            Err(e) => Err(e),
            Ok((tid, p)) => {
                match tid {
                    Id::Name(nm, args) => {
                        if peek_is_op(toks, p, 61) {
                            match params_of(&args) {
                                None => Err(parse_err()),
                                Some(params) => {
                                    match parse_type_at(toks, p + 1, fuel - 1) {
                                        Ok((ty, p2)) => {
                                            let d = TypeDef {
                                                name: Some(nm),
                                                type_params: params,
                                                ty,
                                            };
                                            proof {
                                                assert(d@.type_params =~= spec_params_of(
                                                    ids_view(args@),
                                                )->Some_0);
                                            }
                                            Ok((d, p2))
                                        },
                                        Err(e) => Err(e),
                                    }
                                },
                            }
                        } else {
                            let d = TypeDef {
                                name: None,
                                type_params: Vec::new(),
                                ty: Type::Alias(Id::Name(nm, args)),
                            };
                            proof {
                                assert(d@.type_params =~= Seq::<Seq<char>>::empty());
                            }
                            Ok((d, p))
                        }
                    },
                    _ => Err(parse_err()),
                }
            },
        }
    } else {
        match parse_type_at(toks, pos, fuel - 1) {
            Ok((ty, p)) => {
                let d = TypeDef { name: None, type_params: Vec::new(), ty };
                proof {
                    assert(d@.type_params =~= Seq::<Seq<char>>::empty());
                }
                Ok((d, p))
            },
            Err(e) => Err(e),
        }
    }
}

fn parse_defs_at(toks: &Vec<Token>, pos: usize, fuel: u128) -> (r: Result<Vec<TypeDef>, Error>)
    ensures
        match spec_parse_defs(tokens_view(toks@), pos as int, fuel as nat) {
            Ok(sds) => r matches Ok(v) && v@.len() == sds.len() && forall|i: int|
                0 <= i < sds.len() ==> v@[i]@ == sds[i],
            Err(k) => r matches Err(e) && e.kind == k,
        },
    decreases fuel,
{
    if fuel == 0 {
        return Err(parse_err());
    }
    let _nt: usize = toks.len();
    if pos >= toks.len() {
        return Ok(Vec::new());
    }
    match parse_def(toks, pos, fuel - 1) {
        Err(e) => Err(e),
        Ok((d, p)) => {
            if p >= toks.len() {
                let ghost dg = d;
                let mut out: Vec<TypeDef> = Vec::new();
                out.push(d);
                Ok(out)
            } else if peek_is_op(toks, p, 59) {
                match parse_defs_at(toks, p + 1, fuel - 1) {
                    Ok(mut rest) => {
                        let ghost dg = d;
                        let ghost restg = rest@;
                        let mut out: Vec<TypeDef> = Vec::new();
                        out.push(d);
                        out.append(&mut rest);
                        proof {
                            assert(out@ =~= seq![dg] + restg);
                            let sds = spec_parse_defs(
                                tokens_view(toks@),
                                pos as int,
                                fuel as nat,
                            )->Ok_0;
                            assert forall|i: int| 0 <= i < sds.len() implies out@[i]@ == sds[i]
                                by {
                                if i > 0 {
                                    assert(out@[i] == restg[i - 1]);
                                    assert(sds[i] == spec_parse_defs(
                                        tokens_view(toks@),
                                        p as int + 1,
                                        (fuel - 1) as nat,
                                    )->Ok_0[i - 1]);
                                }
                            }
                        }
                        Ok(out)
                    },
                    Err(e) => Err(e),
                }
            } else {
                Err(parse_err())
            }
        },
    }
}

/// Parses type-definition-language text into the ordered definition list.
pub fn parse_types(src: &str) -> (r: Result<Vec<TypeDef>, Error>)
    ensures
        match spec_parse_types(vstd::utf8::encode_utf8(src@)) {
            Ok(sds) => r matches Ok(v) && v@.len() == sds.len() && forall|i: int|
                0 <= i < sds.len() ==> v@[i]@ == sds[i],
            Err(k) => r matches Err(e) && e.kind == k,
        },
{
    let bytes = src.as_bytes_vec();
    match lex(&bytes) {
        Err(e) => Err(e),
        Ok(toks) => {
            let fuel: u128 = 4 * (toks.len() as u128) + 16;
            parse_defs_at(&toks, 0, fuel)
        },
    }
}

/// Parses a single inline type expression; the whole text must be one
/// type.
pub fn parse_type(src: &str) -> (r: Result<Type, Error>)
    ensures
        match spec_parse_type_src(vstd::utf8::encode_utf8(src@)) {
            Ok(st) => r matches Ok(t) && t@ == st,
            Err(k) => r matches Err(e) && e.kind == k,
        },
{
    let bytes = src.as_bytes_vec();
    match lex(&bytes) {
        Err(e) => Err(e),
        Ok(toks) => {
            let fuel: u128 = 4 * (toks.len() as u128) + 16;
            match parse_type_at(&toks, 0, fuel) {
                Err(e) => Err(e),
                Ok((ty, p)) => {
                    if p == toks.len() {
                        Ok(ty)
                    } else {
                        Err(parse_err())
                    }
                },
            }
        },
    }
}

} // verus!
