//! End-to-end tests of the codec: the type-definition language, the
//! registry, and byte-exact encoding and decoding, cross-checked against
//! the parity-scale-codec crate where the wire format overlaps.

use parity_scale_codec::{Compact, Encode};
use scale_codec::{decode, decode_all, encode, encode_all, parse_types_str, ErrorKind, Id, Value};

fn name(s: &str) -> Id {
    Id::Name(s.to_string(), Vec::new())
}

fn obj(entries: Vec<(&str, Value)>) -> Value {
    Value::Object(entries.into_iter().map(|(k, v)| (k.to_string(), v)).collect())
}

#[test]
fn it_works() {
    let src = "foo=[u8;32];bar=(u8,foo)";
    let ast = scale_codec::parse_types(src);
    assert!(ast.is_ok());
}

#[test]
fn primitives_round_trip() {
    let reg = parse_types_str("").unwrap();
    let cases: Vec<(&str, Value, Vec<u8>)> = vec![
        ("u8", Value::Uint(7), vec![7]),
        ("u16", Value::Uint(0x0102), vec![2, 1]),
        ("u32", Value::Uint(1), vec![1, 0, 0, 0]),
        ("u64", Value::Uint(0x0807060504030201), vec![1, 2, 3, 4, 5, 6, 7, 8]),
        ("i8", Value::Int(-1), vec![0xff]),
        ("i32", Value::Int(-2), vec![0xfe, 0xff, 0xff, 0xff]),
        ("bool", Value::Bool(true), vec![1]),
        ("bool", Value::Bool(false), vec![0]),
    ];
    for (ty, v, expected) in cases {
        let got = encode(&v, &name(ty), &reg).unwrap();
        assert_eq!(got, expected, "encoding at {}", ty);
        let back = decode(&got, &name(ty), &reg).unwrap();
        assert_eq!(back, v, "round trip at {}", ty);
    }
}

#[test]
fn primitives_match_the_reference_codec() {
    let reg = parse_types_str("").unwrap();
    assert_eq!(encode(&Value::Uint(300), &name("u16"), &reg).unwrap(), 300u16.encode());
    assert_eq!(
        encode(&Value::Uint(123456789), &name("u32"), &reg).unwrap(),
        123456789u32.encode()
    );
    assert_eq!(encode(&Value::Int(-77), &name("i64"), &reg).unwrap(), (-77i64).encode());
    assert_eq!(
        encode(&Value::Uint(u128::MAX), &name("u128"), &reg).unwrap(),
        u128::MAX.encode()
    );
    assert_eq!(
        encode(&Value::Str("hello".to_string()), &name("str"), &reg).unwrap(),
        "hello".encode()
    );
    assert_eq!(
        encode(&Value::Bytes(vec![9, 8, 7]), &name("[u8]"), &reg).unwrap(),
        vec![9u8, 8, 7].encode()
    );
}

#[test]
fn compact_boundaries_match_the_reference_codec() {
    let reg = parse_types_str("").unwrap();
    let tid = name("@u64");
    let boundaries: Vec<u64> = vec![
        0,
        1,
        63,
        64,
        16383,
        16384,
        (1u64 << 30) - 1,
        1u64 << 30,
        (1u64 << 32) - 1,
        1u64 << 32,
        u64::MAX,
    ];
    for b in boundaries {
        let got = encode(&Value::Uint(b as u128), &tid, &reg).unwrap();
        assert_eq!(got, Compact(b).encode(), "compact encoding of {}", b);
        let back = decode(&got, &tid, &reg).unwrap();
        assert_eq!(back, Value::Uint(b as u128), "compact round trip of {}", b);
    }
}

#[test]
fn compact_of_unit_is_empty() {
    let reg = parse_types_str("").unwrap();
    let tid = name("@()");
    let got = encode(&Value::List(vec![]), &tid, &reg).unwrap();
    assert_eq!(got, Vec::<u8>::new());
    let back = decode(&got, &tid, &reg).unwrap();
    assert_eq!(back, Value::List(vec![]));
}

#[test]
fn enum_discriminants_resolve_by_index_then_scan() {
    let reg = parse_types_str("Choice=<A,B:u32,C::5>").unwrap();
    let tid = name("Choice");
    let bytes = encode(&obj(vec![("B", Value::Uint(7))]), &tid, &reg).unwrap();
    assert_eq!(bytes, vec![1, 7, 0, 0, 0]);
    let back = decode(&[5], &tid, &reg).unwrap();
    assert_eq!(back, obj(vec![("C", Value::Null)]));
    let front = decode(&bytes, &tid, &reg).unwrap();
    assert_eq!(front, obj(vec![("B", Value::Uint(7))]));
}

#[test]
fn aliases_resolve_transitively_and_cycles_fail() {
    let reg = parse_types_str("A=B;B=u32").unwrap();
    let bytes = encode(&Value::Uint(9), &name("A"), &reg).unwrap();
    assert_eq!(bytes, vec![9, 0, 0, 0]);

    let cyclic = parse_types_str("A=B;B=A").unwrap();
    let err = encode(&Value::Uint(9), &name("A"), &cyclic).unwrap_err();
    assert_eq!(err.kind, ErrorKind::Resolution);
}

#[test]
fn generic_substitution() {
    let reg = parse_types_str("Pair<T>={a:T,b:T}").unwrap();
    let tid = Id::Name("Pair".to_string(), vec![name("u8")]);
    let v = obj(vec![("a", Value::Uint(1)), ("b", Value::Uint(2))]);
    let bytes = encode(&v, &tid, &reg).unwrap();
    assert_eq!(bytes, vec![1, 2]);
    assert_eq!(decode(&bytes, &tid, &reg).unwrap(), v);

    let wrong_count = encode(&v, &name("Pair"), &reg).unwrap_err();
    assert_eq!(wrong_count.kind, ErrorKind::Resolution);
}

#[test]
fn byte_fast_paths() {
    let reg = parse_types_str("").unwrap();
    let buf: Vec<u8> = (0..32).collect();

    let fixed = encode(&Value::Bytes(buf.clone()), &name("[u8;32]"), &reg).unwrap();
    assert_eq!(fixed, buf);

    let seq = encode(&Value::Bytes(buf.clone()), &name("[u8]"), &reg).unwrap();
    let mut expected = vec![32 << 2];
    expected.extend_from_slice(&buf);
    assert_eq!(seq, expected);

    let short = encode(&Value::Bytes(vec![1, 2, 3]), &name("[u8;32]"), &reg).unwrap_err();
    assert_eq!(short.kind, ErrorKind::TypeMismatch);

    let hex = encode(&Value::Str("0x0102".to_string()), &name("[u8]"), &reg).unwrap();
    assert_eq!(hex, vec![2 << 2, 1, 2]);
}

#[test]
fn end_to_end_message() {
    let reg = parse_types_str("Msg={id:u32,tag:<Ping,Pong:str>}").unwrap();
    let tid = name("Msg");
    let v = obj(vec![
        ("id", Value::Uint(1)),
        ("tag", obj(vec![("Pong", Value::Str("hi".to_string()))])),
    ]);
    let bytes = encode(&v, &tid, &reg).unwrap();
    assert_eq!(bytes, vec![1, 0, 0, 0, 1, 8, b'h', b'i']);
    let back = decode(&bytes, &tid, &reg).unwrap();
    assert_eq!(back, v);
}

#[test]
fn composite_round_trips() {
    let reg = parse_types_str("P={x:u32,y:u32};L=[P];T=(u8,str,bool)").unwrap();
    let p = |x: u128, y: u128| obj(vec![("x", Value::Uint(x)), ("y", Value::Uint(y))]);

    let list = Value::List(vec![p(1, 2), p(3, 4)]);
    let bytes = encode(&list, &name("L"), &reg).unwrap();
    assert_eq!(decode(&bytes, &name("L"), &reg).unwrap(), list);

    let tup = Value::List(vec![
        Value::Uint(9),
        Value::Str("ab".to_string()),
        Value::Bool(true),
    ]);
    let bytes = encode(&tup, &name("T"), &reg).unwrap();
    assert_eq!(bytes, vec![9, 8, b'a', b'b', 1]);
    assert_eq!(decode(&bytes, &name("T"), &reg).unwrap(), tup);
}

#[test]
fn multi_value_paths() {
    let reg = parse_types_str("").unwrap();
    let vals = || vec![Value::Uint(5), Value::Str("ok".to_string())];
    let tids = vec![name("u8"), name("str")];
    let bytes = encode_all(&vals(), &tids, &reg).unwrap();
    assert_eq!(bytes, vec![5, 8, b'o', b'k']);
    let back = decode_all(&bytes, &tids, &reg).unwrap();
    assert_eq!(back, vals());

    let handle = scale_codec::codec(scale_codec::TypeIds::Many(tids), &reg);
    assert_eq!(handle.encode(&Value::List(vals())).unwrap(), bytes);
    assert_eq!(handle.decode(&bytes).unwrap(), Value::List(vals()));
}

#[test]
fn inline_literal_fallback() {
    let reg = parse_types_str("").unwrap();
    let tid = name("[u8;2]");
    let bytes = encode(&Value::Bytes(vec![3, 4]), &tid, &reg).unwrap();
    assert_eq!(bytes, vec![3, 4]);
}

#[test]
fn errors_are_reported_by_kind() {
    let reg = parse_types_str("").unwrap();

    assert_eq!(parse_types_str("$").unwrap_err().kind, ErrorKind::Lex);
    assert_eq!(parse_types_str("{a:").unwrap_err().kind, ErrorKind::Parse);
    assert_eq!(parse_types_str("99999999999999999999").unwrap_err().kind, ErrorKind::Lex);

    assert_eq!(
        encode(&Value::Uint(1), &name("NoSuchType"), &reg).unwrap_err().kind,
        ErrorKind::Resolution
    );
    assert_eq!(
        encode(&Value::Bool(true), &name("u8"), &reg).unwrap_err().kind,
        ErrorKind::TypeMismatch
    );
    assert_eq!(
        encode(&Value::Uint(256), &name("u8"), &reg).unwrap_err().kind,
        ErrorKind::TypeMismatch
    );
    assert_eq!(decode(&[], &name("u32"), &reg).unwrap_err().kind, ErrorKind::BufferUnderrun);
    assert_eq!(decode(&[2], &name("bool"), &reg).unwrap_err().kind, ErrorKind::TypeMismatch);
}

#[test]
fn registry_appends_and_shadows() {
    let mut reg = parse_types_str("A=u8").unwrap();
    scale_codec::append_types(&mut reg, "A=u32").unwrap();
    let bytes = encode(&Value::Uint(1), &name("A"), &reg).unwrap();
    assert_eq!(bytes, vec![1, 0, 0, 0]);
}

#[test]
fn positional_references() {
    let reg = parse_types_str("u16;X=u8").unwrap();
    let bytes = encode(&Value::Uint(300), &Id::Num(0), &reg).unwrap();
    assert_eq!(bytes, vec![44, 1]);
}

#[test]
fn request_defaults() {
    assert_eq!(scale_codec::default_method(), "GET");
    let req = scale_codec::HttpRequest {
        method: scale_codec::default_method(),
        url: "http://localhost/".to_string(),
        headers: vec![("accept".to_string(), "text/plain".to_string())],
        body: Vec::new(),
        foo_bar: Vec::new(),
        opaque: Value::Null,
    };
    assert_eq!(req.method, "GET");
}
