//! The byte-level primitives of the wire format: little-endian fixed-width
//! integers and the variable-length compact integer encoding.
//!
//! Everything here is specified arithmetically (`pow256`, division and
//! remainder by 256) and proved; the round-trip and canonicality theorems at
//! the bottom are the foundation the codec's own round-trip proof rests on.

use vstd::prelude::*;
use vstd::arithmetic::div_mod::{
    lemma_breakdown, lemma_fundamental_div_mod, lemma_fundamental_div_mod_converse,
    lemma_div_denominator,
};

use crate::error::{Error, ErrorKind};

verus! {

/// 256 to the power `k` (1 for `k <= 0`).
pub open spec fn pow256(k: int) -> int
    decreases k,
{
    if k <= 0 {
        1
    } else {
        256 * pow256(k - 1)
    }
}

pub proof fn lemma_pow256_pos(k: int)
    ensures
        pow256(k) >= 1,
    decreases k,
{
    if k > 0 {
        lemma_pow256_pos(k - 1);
    }
}

pub proof fn lemma_pow256_mono(j: int, k: int)
    requires
        j <= k,
    ensures
        pow256(j) <= pow256(k),
    decreases k - j,
{
    if j < k {
        lemma_pow256_mono(j, k - 1);
        lemma_pow256_pos(k - 1);
    }
}

/// The sixteen-byte range is the whole `u128` range.
pub proof fn lemma_pow256_16()
    ensures
        pow256(16) == 0x100000000000000000000000000000000,
        pow256(15) == 0x1000000000000000000000000000000,
        pow256(4) == 0x100000000,
{
    reveal_with_fuel(pow256, 17);
}

// ---------------------------------------------------------------------------
// little-endian bytes
// ---------------------------------------------------------------------------

/// The first `l` little-endian bytes of the non-negative integer `n`.
pub open spec fn spec_le_bytes(n: int, l: int) -> Seq<u8>
    decreases l,
{
    if l <= 0 {
        Seq::empty()
    } else {
        seq![(n % 256) as u8] + spec_le_bytes(n / 256, l - 1)
    }
}

/// The integer read from `l` little-endian bytes at `from`.
pub open spec fn spec_le_read(bytes: Seq<u8>, from: int, l: int) -> int
    decreases l,
{
    if l <= 0 {
        0
    } else {
        bytes[from] + 256 * spec_le_read(bytes, from + 1, l - 1)
    }
}

pub proof fn lemma_le_bytes_len(n: int, l: int)
    ensures
        spec_le_bytes(n, l).len() == if l <= 0 {
            0int
        } else {
            l
        },
    decreases l,
{
    if l > 0 {
        lemma_le_bytes_len(n / 256, l - 1);
    }
}

pub proof fn lemma_le_read_bound(bytes: Seq<u8>, from: int, l: int)
    requires
        0 <= from,
        from + l <= bytes.len(),
    ensures
        0 <= spec_le_read(bytes, from, l) < pow256(l),
    decreases l,
{
    if l <= 0 {
    } else {
        lemma_le_read_bound(bytes, from + 1, l - 1);
    }
}

/// Reading back what was written gives the value reduced modulo the
/// range of the written width.
pub proof fn lemma_le_roundtrip(bytes: Seq<u8>, from: int, n: int, l: int)
    requires
        0 <= n,
        0 <= from,
        from + l <= bytes.len(),
        l >= 0,
        bytes.subrange(from, from + l) == spec_le_bytes(n, l),
    ensures
        spec_le_read(bytes, from, l) == n % pow256(l),
    decreases l,
{
    lemma_le_bytes_len(n, l);
    if l == 0 {
        assert(n % 1 == 0) by {
            lemma_fundamental_div_mod_converse(n, 1, n, 0);
        }
    } else {
        let sub = bytes.subrange(from, from + l);
        assert(bytes[from] == sub[0]);
        assert(bytes[from] == (n % 256) as u8);
        let rest = spec_le_bytes(n / 256, l - 1);
        assert(bytes.subrange(from + 1, from + l) =~= sub.subrange(1, l));
        assert(sub.subrange(1, l) =~= rest);
        lemma_fundamental_div_mod(n, 256);
        lemma_le_roundtrip(bytes, from + 1, n / 256, l - 1);
        lemma_pow256_pos(l - 1);
        lemma_breakdown(n, 256, pow256(l - 1));
        assert(256 * pow256(l - 1) == pow256(l));
    }
}

/// Writing back what was read gives the very bytes that were read.
pub proof fn lemma_le_rewrite(bytes: Seq<u8>, from: int, l: int)
    requires
        0 <= from,
        from + l <= bytes.len(),
        l >= 0,
    ensures
        spec_le_bytes(spec_le_read(bytes, from, l), l) == bytes.subrange(from, from + l),
    decreases l,
{
    let v = spec_le_read(bytes, from, l);
    lemma_le_read_bound(bytes, from, l);
    lemma_le_bytes_len(v, l);
    if l == 0 {
        assert(spec_le_bytes(v, l) =~= bytes.subrange(from, from + l));
    } else {
        let b0 = bytes[from] as int;
        let r = spec_le_read(bytes, from + 1, l - 1);
        lemma_le_read_bound(bytes, from + 1, l - 1);
        assert(v == b0 + 256 * r);
        lemma_fundamental_div_mod_converse(v, 256, r, b0);
        assert(v % 256 == b0);
        assert(v / 256 == r);
        lemma_le_rewrite(bytes, from + 1, l - 1);
        assert(spec_le_bytes(v, l) == seq![(v % 256) as u8] + spec_le_bytes(r, l - 1));
        assert(spec_le_bytes(v, l) =~= bytes.subrange(from, from + l));
    }
}

/// One more byte of a value's little-endian form.
proof fn lemma_le_bytes_snoc(n: int, i: int)
    requires
        0 <= n,
        0 <= i,
    ensures
        spec_le_bytes(n, i + 1) == spec_le_bytes(n, i).push((pos_div(n, i) % 256) as u8),
    decreases i,
{
    if i == 0 {
        lemma_fundamental_div_mod_converse(n, 1, n, 0);
        assert(pos_div(n, 0) == n);
        reveal_with_fuel(spec_le_bytes, 3);
        assert(spec_le_bytes(n, 1) =~= spec_le_bytes(n, 0).push((n % 256) as u8));
    } else {
        lemma_le_bytes_snoc(n / 256, i - 1);
        lemma_pow256_pos(i - 1);
        lemma_div_denominator(n, 256, pow256(i - 1));
        assert(256 * pow256(i - 1) == pow256(i));
        assert(pos_div(n / 256, i - 1) == pos_div(n, i));
        assert(spec_le_bytes(n, i + 1) =~= spec_le_bytes(n, i).push((pos_div(n, i) % 256) as u8));
    }
}

/// `n` divided by `256^i`.
pub open spec fn pos_div(n: int, i: int) -> int {
    n / pow256(i)
}

/// Appends the `l`-byte little-endian form of `n` to `out`.
pub fn encode_le(n: u128, l: usize, out: &mut Vec<u8>)
    ensures
        final(out)@ == old(out)@ + spec_le_bytes(n as int, l as int),
{
    let ghost init = out@;
    let mut v: u128 = n;
    let mut i: usize = 0;
    proof {
        lemma_le_bytes_len(n as int, 0);
        assert(out@ =~= init + spec_le_bytes(n as int, 0));
    }
    while i < l
        invariant
            0 <= i <= l,
            out@ == init + spec_le_bytes(n as int, i as int),
            v as int == pos_div(n as int, i as int),
        decreases l - i,
    {
        let b: u8 = (v % 256) as u8;
        out.push(b);
        proof {
            lemma_le_bytes_snoc(n as int, i as int);
            lemma_le_bytes_len(n as int, i as int);
            assert(out@ =~= init + spec_le_bytes(n as int, i as int + 1));
            lemma_pow256_pos(i as int);
            lemma_div_denominator(n as int, pow256(i as int), 256);
            assert(pow256(i as int) * 256 == 256 * pow256(i as int));
            assert(pos_div(n as int, i as int) / 256 == pos_div(n as int, i as int + 1));
        }
        v = v / 256;
        i += 1;
    }
}

/// Reads `l` little-endian bytes at `from` as an unsigned integer.
pub fn decode_le(bytes: &[u8], from: usize, l: usize) -> (r: u128)
    requires
        from + l <= bytes@.len(),
        l <= 16,
    ensures
        r as int == spec_le_read(bytes@, from as int, l as int),
{
    proof {
        lemma_pow256_16();
    }
    let blen = bytes.len();
    let mut acc: u128 = 0;
    let mut i: usize = l;
    while i > 0
        invariant
            0 <= i <= l,
            l <= 16,
            blen == bytes@.len(),
            from + l <= blen,
            acc as int == spec_le_read(bytes@, from as int + i as int, l as int - i as int),
        decreases i,
    {
        i -= 1;
        proof {
            lemma_le_read_bound(bytes@, from as int + i + 1, l as int - i - 1);
            lemma_pow256_mono(l as int - i - 1, 15);
            lemma_pow256_16();
        }
        let b = bytes[from + i];
        acc = acc * 256 + (b as u128);
    }
    acc
}

// ---------------------------------------------------------------------------
// compact integers
// ---------------------------------------------------------------------------

/// The number of payload bytes of the big-integer compact mode: the
/// smallest count, at least four, whose range holds the value.
pub open spec fn spec_big_len(n: u128) -> int {
    if n < 0x100000000 {
        4
    } else if n < 0x10000000000 {
        5
    } else if n < 0x1000000000000 {
        6
    } else if n < 0x100000000000000 {
        7
    } else if n < 0x10000000000000000 {
        8
    } else if n < 0x1000000000000000000 {
        9
    } else if n < 0x100000000000000000000 {
        10
    } else if n < 0x10000000000000000000000 {
        11
    } else if n < 0x1000000000000000000000000 {
        12
    } else if n < 0x100000000000000000000000000 {
        13
    } else if n < 0x10000000000000000000000000000 {
        14
    } else if n < 0x1000000000000000000000000000000 {
        15
    } else {
        16
    }
}

pub proof fn lemma_big_len_props(n: u128)
    requires
        n >= 0x40000000,
    ensures
        4 <= spec_big_len(n) <= 16,
        (n as int) < pow256(spec_big_len(n)),
        spec_big_len(n) > 4 ==> (n as int) >= pow256(spec_big_len(n) - 1),
{
    reveal_with_fuel(pow256, 17);
}

/// The canonical compact encoding of an unsigned integer.
pub open spec fn spec_compact_bytes(n: u128) -> Seq<u8> {
    if n < 64 {
        seq![(4 * n) as u8]
    } else if n < 16384 {
        spec_le_bytes(4 * n + 1, 2)
    } else if n < 0x40000000 {
        spec_le_bytes(4 * n + 2, 4)
    } else {
        let l = spec_big_len(n);
        seq![(4 * (l - 4) + 3) as u8] + spec_le_bytes(n as int, l)
    }
}

pub proof fn lemma_compact_bytes_len(n: u128)
    ensures
        spec_compact_bytes(n).len() == if n < 64 {
            1int
        } else if n < 16384 {
            2int
        } else if n < 0x40000000 {
            4int
        } else {
            1 + spec_big_len(n)
        },
        1 <= spec_compact_bytes(n).len() <= 17,
{
    if n < 64 {
    } else if n < 16384 {
        lemma_le_bytes_len(4 * n + 1, 2);
    } else if n < 0x40000000 {
        lemma_le_bytes_len(4 * n + 2, 4);
    } else {
        lemma_big_len_props(n);
        lemma_le_bytes_len(n as int, spec_big_len(n));
    }
}

/// Decoding a compact integer at `pos`: the value and the position after
/// it, or the reason it fails.  Non-minimal encodings are rejected.
pub open spec fn spec_compact_decode(bytes: Seq<u8>, pos: int) -> Result<(u128, int), ErrorKind> {
    if !(0 <= pos < bytes.len()) {
        Err(ErrorKind::BufferUnderrun)
    } else {
        let p = bytes[pos] as int;
        let m = p % 4;
        if m == 0 {
            Ok(((p / 4) as u128, pos + 1))
        } else if m == 1 {
            if pos + 2 > bytes.len() {
                Err(ErrorKind::BufferUnderrun)
            } else {
                let x = spec_le_read(bytes, pos, 2) / 4;
                if x >= 64 {
                    Ok((x as u128, pos + 2))
                } else {
                    Err(ErrorKind::TypeMismatch)
                }
            }
        } else if m == 2 {
            if pos + 4 > bytes.len() {
                Err(ErrorKind::BufferUnderrun)
            } else {
                let x = spec_le_read(bytes, pos, 4) / 4;
                if x >= 16384 {
                    Ok((x as u128, pos + 4))
                } else {
                    Err(ErrorKind::TypeMismatch)
                }
            }
        } else {
            let l = p / 4 + 4;
            if l > 16 {
                Err(ErrorKind::TypeMismatch)
            } else if pos + 1 + l > bytes.len() {
                Err(ErrorKind::BufferUnderrun)
            } else {
                let x = spec_le_read(bytes, pos + 1, l);
                if (l == 4 && x >= 0x40000000) || (l > 4 && x >= pow256(l - 1)) {
                    Ok((x as u128, pos + 1 + l))
                } else {
                    Err(ErrorKind::TypeMismatch)
                }
            }
        }
    }
}

/// Appends the compact encoding of `n` to `out`.
pub fn compact_encode(n: u128, out: &mut Vec<u8>)
    ensures
        final(out)@ == old(out)@ + spec_compact_bytes(n),
{
    if n < 64 {
        let b: u8 = (n as u8) * 4;
        out.push(b);
        proof {
            assert(final(out)@ =~= old(out)@ + spec_compact_bytes(n));
        }
    } else if n < 16384 {
        encode_le(4 * n + 1, 2, out);
    } else if n < 0x40000000 {
        encode_le(4 * n + 2, 4, out);
    } else {
        let l = big_len(n);
        let b: u8 = (l as u8 - 4) * 4 + 3;
        out.push(b);
        encode_le(n, l, out);
        proof {
            assert(final(out)@ =~= old(out)@ + spec_compact_bytes(n));
        }
    }
}

/// The number of payload bytes of the big-integer compact mode.
fn big_len(n: u128) -> (l: usize)
    requires
        n >= 0x40000000,
    ensures
        l as int == spec_big_len(n),
        4 <= l <= 16,
{
    if n < 0x100000000 {
        4
    } else if n < 0x10000000000 {
        5
    } else if n < 0x1000000000000 {
        6
    } else if n < 0x100000000000000 {
        7
    } else if n < 0x10000000000000000 {
        8
    } else if n < 0x1000000000000000000 {
        9
    } else if n < 0x100000000000000000000 {
        10
    } else if n < 0x10000000000000000000000 {
        11
    } else if n < 0x1000000000000000000000000 {
        12
    } else if n < 0x100000000000000000000000000 {
        13
    } else if n < 0x10000000000000000000000000000 {
        14
    } else if n < 0x1000000000000000000000000000000 {
        15
    } else {
        16
    }
}

/// Decodes a compact integer at `pos`.
pub fn compact_decode(bytes: &[u8], pos: usize) -> (r: Result<(u128, usize), Error>)
    ensures
        match spec_compact_decode(bytes@, pos as int) {
            Ok((v, p)) => r matches Ok(rp) && rp.0 == v && rp.1 as int == p,
            Err(k) => r matches Err(e) && e.kind == k,
        },
{
    let blen = bytes.len();
    if pos >= blen {
        return Err(Error::from_text(ErrorKind::BufferUnderrun, "unexpected end of buffer"));
    }
    let p = bytes[pos];
    let m = p % 4;
    proof {
        assert(p as int % 4 == m as int);
        assert(p as int / 4 == (p / 4) as int);
    }
    if m == 0 {
        Ok(((p / 4) as u128, pos + 1))
    } else if m == 1 {
        if blen - pos < 2 {
            return Err(Error::from_text(ErrorKind::BufferUnderrun, "unexpected end of buffer"));
        }
        let v = decode_le(bytes, pos, 2);
        proof {
            lemma_le_read_bound(bytes@, pos as int, 2);
            lemma_pow256_16();
            lemma_pow256_mono(2, 16);
        }
        let x = v / 4;
        proof {
            assert(x as int == spec_le_read(bytes@, pos as int, 2) / 4);
        }
        if x >= 64 {
            Ok((x, pos + 2))
        } else {
            Err(Error::from_text(ErrorKind::TypeMismatch, "non-minimal compact encoding"))
        }
    } else if m == 2 {
        if blen - pos < 4 {
            return Err(Error::from_text(ErrorKind::BufferUnderrun, "unexpected end of buffer"));
        }
        let v = decode_le(bytes, pos, 4);
        proof {
            lemma_le_read_bound(bytes@, pos as int, 4);
            lemma_pow256_16();
            lemma_pow256_mono(4, 16);
        }
        let x = v / 4;
        if x >= 16384 {
            Ok((x, pos + 4))
        } else {
            Err(Error::from_text(ErrorKind::TypeMismatch, "non-minimal compact encoding"))
        }
    } else {
        let l: usize = (p / 4) as usize + 4;
        if l > 16 {
            return Err(Error::from_text(ErrorKind::TypeMismatch, "unexpected compact prefix"));
        }
        if blen - pos < 1 || blen - pos - 1 < l {
            return Err(Error::from_text(ErrorKind::BufferUnderrun, "unexpected end of buffer"));
        }
        let x = decode_le(bytes, pos + 1, l);
        proof {
            lemma_le_read_bound(bytes@, pos as int + 1, l as int);
            lemma_pow256_16();
            lemma_pow256_mono(l as int, 16);
            lemma_pow256_mono(l as int - 1, 16);
        }
        let minimal: bool = if l == 4 {
            x >= 0x40000000
        } else {
            let ghost lm1 = l as int - 1;
            let bound = pow256_u128(l - 1);
            x >= bound
        };
        if minimal {
            Ok((x, pos + 1 + l))
        } else {
            Err(Error::from_text(ErrorKind::TypeMismatch, "non-minimal compact encoding"))
        }
    }
}

/// Which big-length a value in a given range gets.
proof fn lemma_big_len_of_range(x: u128, l: int)
    requires
        4 <= l <= 16,
        (x as int) < pow256(l),
        l == 4 ==> x >= 0x40000000,
        l > 4 ==> (x as int) >= pow256(l - 1),
    ensures
        spec_big_len(x) == l,
{
    reveal_with_fuel(pow256, 17);
}

/// Decoding a compact encoding embedded at `pos` yields the encoded value
/// and consumes exactly the encoding.
pub proof fn lemma_compact_roundtrip(n: u128, bytes: Seq<u8>, pos: int)
    requires
        0 <= pos,
        pos + spec_compact_bytes(n).len() <= bytes.len(),
        bytes.subrange(pos, pos + spec_compact_bytes(n).len()) == spec_compact_bytes(n),
    ensures
        spec_compact_decode(bytes, pos) == Ok::<(u128, int), ErrorKind>(
            (n, pos + spec_compact_bytes(n).len()),
        ),
{
    lemma_compact_bytes_len(n);
    let enc = spec_compact_bytes(n);
    let el = enc.len() as int;
    assert(bytes[pos] == enc[0]);
    if n < 64 {
        let p = bytes[pos] as int;
        assert(p == 4 * n);
        lemma_fundamental_div_mod_converse(p, 4, n as int, 0);
    } else if n < 16384 {
        let v = 4 * (n as int) + 1;
        lemma_le_bytes_len(v, 2);
        assert(enc[0] == (v % 256) as u8);
        let p = bytes[pos] as int;
        vstd::arithmetic::div_mod::lemma_mod_division_less_than_divisor(v, 256);
        assert(p == v % 256);
        lemma_breakdown(v, 4, 64);
        lemma_fundamental_div_mod_converse(v, 4, n as int, 1);
        assert(v % 256 == 4 * ((v / 4) % 64) + v % 4);
        lemma_fundamental_div_mod_converse(
            v % 256,
            4,
            (v / 4) % 64,
            v % 4,
        );
        assert(p % 4 == 1);
        lemma_le_roundtrip(bytes, pos, v, 2);
        reveal_with_fuel(pow256, 17);
        vstd::arithmetic::div_mod::lemma_small_mod(v as nat, pow256(2) as nat);
        assert(spec_le_read(bytes, pos, 2) == v);
        assert(v / 4 == n);
    } else if n < 0x40000000 {
        let v = 4 * (n as int) + 2;
        lemma_le_bytes_len(v, 4);
        assert(enc[0] == (v % 256) as u8);
        let p = bytes[pos] as int;
        vstd::arithmetic::div_mod::lemma_mod_division_less_than_divisor(v, 256);
        assert(p == v % 256);
        lemma_breakdown(v, 4, 64);
        lemma_fundamental_div_mod_converse(v, 4, n as int, 2);
        assert(v % 256 == 4 * ((v / 4) % 64) + v % 4);
        lemma_fundamental_div_mod_converse(
            v % 256,
            4,
            (v / 4) % 64,
            v % 4,
        );
        assert(p % 4 == 2);
        lemma_le_roundtrip(bytes, pos, v, 4);
        reveal_with_fuel(pow256, 17);
        vstd::arithmetic::div_mod::lemma_small_mod(v as nat, pow256(4) as nat);
        assert(spec_le_read(bytes, pos, 4) == v);
        assert(v / 4 == n);
    } else {
        lemma_big_len_props(n);
        let l = spec_big_len(n);
        lemma_le_bytes_len(n as int, l);
        let h = 4 * (l - 4) + 3;
        assert(enc[0] == h as u8);
        let p = bytes[pos] as int;
        assert(p == h);
        lemma_fundamental_div_mod_converse(h, 4, l - 4, 3);
        assert(p % 4 == 3);
        assert(p / 4 + 4 == l);
        assert(bytes.subrange(pos + 1, pos + 1 + l) =~= enc.subrange(1, 1 + l));
        assert(enc.subrange(1, 1 + l) =~= spec_le_bytes(n as int, l));
        lemma_le_roundtrip(bytes, pos + 1, n as int, l);
        vstd::arithmetic::div_mod::lemma_small_mod(n as nat, pow256(l) as nat);
        assert(spec_le_read(bytes, pos + 1, l) == n);
        if l > 4 {
            lemma_pow256_mono(4, l - 1);
        }
        reveal_with_fuel(pow256, 17);
    }
}

/// A successfully decoded compact integer was canonically encoded: the
/// bytes consumed are exactly the canonical encoding of the value read.
pub proof fn lemma_compact_canonical(bytes: Seq<u8>, pos: int, n: u128, pos2: int)
    requires
        spec_compact_decode(bytes, pos) == Ok::<(u128, int), ErrorKind>((n, pos2)),
    ensures
        pos2 == pos + spec_compact_bytes(n).len(),
        bytes.subrange(pos, pos2) == spec_compact_bytes(n),
{
    lemma_compact_bytes_len(n);
    let p = bytes[pos] as int;
    let m = p % 4;
    lemma_fundamental_div_mod(p, 4);
    vstd::arithmetic::div_mod::lemma_mod_division_less_than_divisor(p, 4);
    if m == 0 {
        assert(n as int == p / 4);
        assert(4 * (n as int) == p);
        assert(n < 64);
        assert(spec_compact_bytes(n) =~= bytes.subrange(pos, pos + 1));
    } else if m == 1 {
        let v = spec_le_read(bytes, pos, 2);
        lemma_le_read_bound(bytes, pos, 2);
        let x = v / 4;
        lemma_fundamental_div_mod(v, 4);
        assert(v % 4 == bytes[pos] % 4) by {
            let r = spec_le_read(bytes, pos + 1, 1);
            assert(v == bytes[pos] + 256 * r);
            lemma_fundamental_div_mod_converse_mod_helper(v, p, r);
        }
        assert(v == 4 * x + 1);
        assert(x >= 64);
        reveal_with_fuel(pow256, 17);
        assert(x < 16384);
        assert(n as int == x);
        lemma_le_rewrite(bytes, pos, 2);
        assert(spec_compact_bytes(n) == spec_le_bytes(4 * (n as int) + 1, 2));
        assert(spec_compact_bytes(n) =~= bytes.subrange(pos, pos + 2));
    } else if m == 2 {
        let v = spec_le_read(bytes, pos, 4);
        lemma_le_read_bound(bytes, pos, 4);
        let x = v / 4;
        lemma_fundamental_div_mod(v, 4);
        assert(v % 4 == bytes[pos] % 4) by {
            let r = spec_le_read(bytes, pos + 1, 3);
            assert(v == bytes[pos] + 256 * r);
            lemma_fundamental_div_mod_converse_mod_helper(v, p, r);
        }
        assert(v == 4 * x + 2);
        assert(x >= 16384);
        reveal_with_fuel(pow256, 17);
        assert(x < 0x40000000);
        assert(n as int == x);
        lemma_le_rewrite(bytes, pos, 4);
        assert(spec_compact_bytes(n) == spec_le_bytes(4 * (n as int) + 2, 4));
        assert(spec_compact_bytes(n) =~= bytes.subrange(pos, pos + 4));
    } else {
        let l = p / 4 + 4;
        assert(4 <= l <= 16);
        let x = spec_le_read(bytes, pos + 1, l);
        lemma_le_read_bound(bytes, pos + 1, l);
        lemma_pow256_mono(l, 16);
        lemma_pow256_16();
        assert(n as int == x);
        assert((l == 4 && x >= 0x40000000) || (l > 4 && x >= pow256(l - 1)));
        if l > 4 {
            lemma_pow256_mono(4, l - 1);
            reveal_with_fuel(pow256, 17);
            assert(x >= 0x40000000);
        }
        assert(n >= 0x40000000);
        lemma_big_len_of_range(n, l);
        assert(spec_big_len(n) == l);
        assert(p == 4 * (l - 4) + 3);
        lemma_le_rewrite(bytes, pos + 1, l);
        lemma_le_bytes_len(n as int, l);
        assert(spec_compact_bytes(n) =~= bytes.subrange(pos, pos + 1 + l));
    }
}

/// The low byte of `b0 + 256*r` keeps the remainder of `b0` modulo 4.
proof fn lemma_fundamental_div_mod_converse_mod_helper(v: int, b0: int, r: int)
    requires
        0 <= b0 < 256,
        0 <= r,
        v == b0 + 256 * r,
    ensures
        v % 4 == b0 % 4,
{
    lemma_fundamental_div_mod(b0, 4);
    let q = b0 / 4;
    let rm = b0 % 4;
    assert(v == 4 * (q + 64 * r) + rm) by (nonlinear_arith)
        requires
            v == b0 + 256 * r && b0 == 4 * q + rm,
    ;
    vstd::arithmetic::div_mod::lemma_mod_division_less_than_divisor(b0, 4);
    lemma_fundamental_div_mod_converse(v, 4, q + 64 * r, rm);
}

/// `256^k` as a machine integer, for `k` below 16.
pub fn pow256_u128(k: usize) -> (r: u128)
    requires
        k <= 15,
    ensures
        r as int == pow256(k as int),
{
    proof {
        reveal_with_fuel(pow256, 17);
    }
    let mut r: u128 = 1;
    let mut i: usize = 0;
    while i < k
        invariant
            0 <= i <= k,
            k <= 15,
            r as int == pow256(i as int),
        decreases k - i,
    {
        proof {
            lemma_pow256_mono(i as int + 1, 15);
            lemma_pow256_16();
        }
        r = r * 256;
        i += 1;
    }
    r
}

} // verus!
