//! Byte-level wire codec.
//!
//! Every decoder consumes a prefix of its input and hands back the typed
//! value together with the remaining bytes; every encoder appends exact
//! bytes to a growing buffer. The varint — little-endian-first 7-bit
//! groups, high bit as continuation flag — carries lengths and packet ids;
//! fixed-width numbers travel big-endian. Decoding a varint reads at most
//! 5 bytes whatever the input holds, so a malicious continuation run
//! cannot make it loop.

use vstd::prelude::*;
use crate::types::{Disconnection, Hand, V3};

verus! {

/// The byte sequence that encodes `n` as a varint.
pub open spec fn spec_varint_encode(n: u32) -> Seq<u8>
    decreases n,
{
    if n < 0x80 {
        seq![n as u8]
    } else {
        seq![(0x80 + n % 0x80) as u8] + spec_varint_encode(n / 0x80)
    }
}

/// Decoding `s` with at most `max` bytes still allowed: the value read and
/// how many bytes it took, or `None` when the input runs out first.
///
/// A byte with the high bit clear ends the number; after `max` bytes the
/// decoder stops regardless, keeping whatever value has accumulated (the
/// fifth group is truncated into the 32-bit result just as the wire format
/// loses those bits).
pub open spec fn spec_varint_decode_rec(s: Seq<u8>, max: nat) -> Option<(u32, int)>
    decreases max,
{
    if max == 0 || s.len() == 0 {
        None
    } else if s[0] < 0x80 || max == 1 {
        Some(((s[0] % 0x80) as u32, 1))
    } else {
        match spec_varint_decode_rec(s.skip(1), (max - 1) as nat) {
            None => None,
            Some((v, k)) => Some((((s[0] % 0x80) + 0x80 * v) as u32, k + 1)),
        }
    }
}

/// What a varint decode of `s` yields: the value and the bytes consumed.
pub open spec fn spec_varint_decode(s: Seq<u8>) -> Option<(u32, int)> {
    spec_varint_decode_rec(s, 5)
}

/// An encoded varint never exceeds 5 bytes: one byte per started 7-bit
/// group of the number.
pub proof fn lemma_varint_encode_len(n: u32)
    ensures
        spec_varint_encode(n).len() == if n < 0x80 {
            1int
        } else if n < 0x4000 {
            2int
        } else if n < 0x20_0000 {
            3int
        } else if n < 0x1000_0000 {
            4int
        } else {
            5int
        },
    decreases n,
{
    if n >= 0x80 {
        lemma_varint_encode_len(n / 0x80);
    }
}

proof fn lemma_varint_round_trip_rec(n: u32, rest: Seq<u8>, max: nat)
    requires
        spec_varint_encode(n).len() <= max <= 5,
    ensures
        spec_varint_decode_rec(spec_varint_encode(n) + rest, max)
            == Some((n, spec_varint_encode(n).len() as int)),
    decreases n,
{
    let s = spec_varint_encode(n) + rest;
    lemma_varint_encode_len(n);
    if n < 0x80 {
        assert(s[0] == n as u8);
    } else {
        let b: u8 = (0x80 + n % 0x80) as u8;
        assert(s[0] == b);
        assert(b >= 0x80);
        lemma_varint_encode_len(n / 0x80);
        assert(max > 1);
        lemma_varint_round_trip_rec(n / 0x80, rest, (max - 1) as nat);
        assert(s.skip(1) =~= spec_varint_encode(n / 0x80) + rest);
        assert((b % 0x80) as int == n % 0x80);
        assert((n % 0x80) + 0x80 * (n / 0x80) == n);
    }
}

/// A successful varint decode consumes between one and five bytes.
pub proof fn lemma_varint_decode_bounds(s: Seq<u8>)
    ensures
        match spec_varint_decode(s) {
            Some((_, k)) => 1 <= k <= 5 && k <= s.len(),
            None => true,
        },
{
    lemma_varint_decode_bounds_rec(s, 5);
}

proof fn lemma_varint_decode_bounds_rec(s: Seq<u8>, max: nat)
    ensures
        match spec_varint_decode_rec(s, max) {
            Some((_, k)) => 1 <= k <= max && k <= s.len(),
            None => true,
        },
    decreases max,
{
    if max > 0 && s.len() > 0 && !(s[0] < 0x80 || max == 1) {
        lemma_varint_decode_bounds_rec(s.skip(1), (max - 1) as nat);
    }
}

/// A successful string decode consumes at least the length prefix.
pub proof fn lemma_str_decode_bounds(s: Seq<u8>)
    ensures
        match spec_str_decode(s) {
            Some((_, c)) => 1 <= c <= s.len(),
            None => true,
        },
{
    lemma_varint_decode_bounds(s);
}

/// Round trip: decoding an encoded varint, whatever follows it, gives back
/// the number and consumes exactly the encoding.
pub proof fn lemma_varint_round_trip(n: u32, rest: Seq<u8>)
    ensures
        spec_varint_decode(spec_varint_encode(n) + rest)
            == Some((n, spec_varint_encode(n).len() as int)),
{
    lemma_varint_encode_len(n);
    lemma_varint_round_trip_rec(n, rest, 5);
}

/// A truncated run of continuation bytes fails cleanly: fewer than five
/// bytes, all with the high bit set, decode to nothing.
pub proof fn lemma_varint_truncated_fails(s: Seq<u8>)
    requires
        s.len() < 5,
        forall|i: int| 0 <= i < s.len() ==> s[i] >= 0x80,
    ensures
        spec_varint_decode(s) is None,
{
    lemma_varint_truncated_rec(s, 5);
}

proof fn lemma_varint_truncated_rec(s: Seq<u8>, max: nat)
    requires
        s.len() < max,
        forall|i: int| 0 <= i < s.len() ==> s[i] >= 0x80,
    ensures
        spec_varint_decode_rec(s, max) is None,
    decreases max,
{
    if s.len() > 0 {
        lemma_varint_truncated_rec(s.skip(1), (max - 1) as nat);
    }
}

fn varint_rec(buf: &[u8], max: u8) -> (r: Option<(u32, usize)>)
    requires
        max <= 5,
    ensures
        match r {
            Some((n, k)) => {
                &&& spec_varint_decode_rec(buf@, max as nat) == Some((n, k as int))
                &&& 1 <= k <= buf@.len()
                &&& k <= max
            },
            None => spec_varint_decode_rec(buf@, max as nat) is None,
        },
    decreases max,
{
    if max == 0 || buf.len() == 0 {
        return None;
    }
    let b: u8 = buf[0];
    if b < 0x80 || max == 1 {
        Some((((b % 0x80) as u32), 1))
    } else {
        let tail = vstd::slice::slice_subrange(buf, 1, buf.len());
        assert(tail@ =~= buf@.skip(1));
        match varint_rec(tail, max - 1) {
            None => None,
            Some((v, k)) => {
                let g: u32 = (b % 0x80) as u32;
                // multiplying by 0x80 keeps only the low 25 bits of `v`,
                // exactly as the truncation in the decode spec does
                let m: u32 = (v % 0x0200_0000) * 0x80;
                let n: u32 = g + m;
                proof {
                    assert((b % 0x80) as u32 + (v % 0x0200_0000u32) * 0x80u32
                        == ((b % 0x80) + 0x80 * v) as u32) by (bit_vector);
                }
                Some((n, k + 1))
            },
        }
    }
}

/// Decode a varint from the front of `buf`: the value and the remaining
/// bytes, or `None` when the buffer ends inside the number.
pub fn varint(buf: &[u8]) -> (r: Option<(u32, &[u8])>)
    ensures
        match r {
            Some((n, rest)) => {
                &&& 1 <= buf@.len() - rest@.len() <= 5
                &&& spec_varint_decode(buf@) == Some((n, buf@.len() - rest@.len()))
                &&& rest@ == buf@.skip(buf@.len() - rest@.len())
            },
            None => spec_varint_decode(buf@) is None,
        },
{
    match varint_rec(buf, 5) {
        None => None,
        Some((n, k)) => Some((n, vstd::slice::slice_subrange(buf, k, buf.len()))),
    }
}

/// Take the first byte.
pub fn byte(buf: &[u8]) -> (r: Option<(u8, &[u8])>)
    ensures
        match r {
            Some((b, rest)) => buf@.len() >= 1 && b == buf@[0] && rest@ == buf@.skip(1),
            None => buf@.len() == 0,
        },
{
    if buf.len() == 0 {
        None
    } else {
        let b: u8 = buf[0];
        let rest = vstd::slice::slice_subrange(buf, 1, buf.len());
        assert(rest@ =~= buf@.skip(1));
        Some((b, rest))
    }
}

/// Take the first byte as a flag: any non-zero byte counts as set.
pub fn bool(buf: &[u8]) -> (r: Option<(bool, &[u8])>)
    ensures
        match r {
            Some((b, rest)) => buf@.len() >= 1 && b == (buf@[0] != 0) && rest@ == buf@.skip(1),
            None => buf@.len() == 0,
        },
{
    match byte(buf) {
        None => None,
        Some((b, rest)) => Some((b != 0, rest)),
    }
}

/// The big-endian value of two bytes.
pub open spec fn spec_be16(b0: u8, b1: u8) -> u16 {
    (b0 * 0x100 + b1) as u16
}

/// The big-endian value of eight bytes.
pub open spec fn spec_be64(s: Seq<u8>) -> u64
    recommends
        s.len() == 8,
{
    (s[0] * 0x100_0000_0000_0000 + s[1] * 0x1_0000_0000_0000 + s[2] * 0x100_0000_0000 + s[3]
        * 0x1_0000_0000 + s[4] * 0x100_0000 + s[5] * 0x1_0000 + s[6] * 0x100 + s[7]) as u64
}

/// Decode a big-endian `u16`.
pub fn be_u16(buf: &[u8]) -> (r: Option<(u16, &[u8])>)
    ensures
        match r {
            Some((x, rest)) => {
                &&& buf@.len() >= 2
                &&& x == spec_be16(buf@[0], buf@[1])
                &&& rest@ == buf@.skip(2)
            },
            None => buf@.len() < 2,
        },
{
    if buf.len() < 2 {
        None
    } else {
        let b0: u8 = buf[0];
        let b1: u8 = buf[1];
        let x: u16 = (b0 as u16) * 0x100 + (b1 as u16);
        let rest = vstd::slice::slice_subrange(buf, 2, buf.len());
        assert(rest@ =~= buf@.skip(2));
        Some((x, rest))
    }
}

/// Decode a big-endian `i16` (the bit pattern of the two bytes).
pub fn be_i16(buf: &[u8]) -> (r: Option<(i16, &[u8])>)
    ensures
        match r {
            Some((x, rest)) => {
                &&& buf@.len() >= 2
                &&& x == spec_be16(buf@[0], buf@[1]) as i16
                &&& rest@ == buf@.skip(2)
            },
            None => buf@.len() < 2,
        },
{
    match be_u16(buf) {
        None => None,
        Some((x, rest)) => Some((#[verifier::truncate] (x as i16), rest)),
    }
}

/// Decode a big-endian `u64`.
pub fn be_u64(buf: &[u8]) -> (r: Option<(u64, &[u8])>)
    ensures
        match r {
            Some((x, rest)) => {
                &&& buf@.len() >= 8
                &&& x == spec_be64(buf@.take(8))
                &&& rest@ == buf@.skip(8)
            },
            None => buf@.len() < 8,
        },
{
    if buf.len() < 8 {
        None
    } else {
        let x: u64 = (buf[0] as u64) * 0x100_0000_0000_0000 + (buf[1] as u64) * 0x1_0000_0000_0000
            + (buf[2] as u64) * 0x100_0000_0000 + (buf[3] as u64) * 0x1_0000_0000 + (buf[4] as u64)
            * 0x100_0000 + (buf[5] as u64) * 0x1_0000 + (buf[6] as u64) * 0x100 + (buf[7] as u64);
        let rest = vstd::slice::slice_subrange(buf, 8, buf.len());
        assert(rest@ =~= buf@.skip(8));
        Some((x, rest))
    }
}

/// The two big-endian bytes of `x`.
pub open spec fn spec_u16_be(x: u16) -> Seq<u8> {
    seq![(x / 0x100) as u8, (x % 0x100) as u8]
}

/// The four big-endian bytes of `x`.
pub open spec fn spec_u32_be(x: u32) -> Seq<u8> {
    seq![
        (x / 0x100_0000) as u8,
        ((x / 0x1_0000) % 0x100) as u8,
        ((x / 0x100) % 0x100) as u8,
        (x % 0x100) as u8,
    ]
}

/// The eight big-endian bytes of `x`.
pub open spec fn spec_u64_be(x: u64) -> Seq<u8> {
    seq![
        (x / 0x100_0000_0000_0000) as u8,
        ((x / 0x1_0000_0000_0000) % 0x100) as u8,
        ((x / 0x100_0000_0000) % 0x100) as u8,
        ((x / 0x1_0000_0000) % 0x100) as u8,
        ((x / 0x100_0000) % 0x100) as u8,
        ((x / 0x1_0000) % 0x100) as u8,
        ((x / 0x100) % 0x100) as u8,
        (x % 0x100) as u8,
    ]
}

/// Append one byte.
pub fn put_u8(out: &mut Vec<u8>, x: u8)
    ensures
        final(out)@ == old(out)@.push(x),
{
    out.push(x);
}

/// Append a signed byte (its bit pattern).
pub fn put_i8(out: &mut Vec<u8>, x: i8)
    ensures
        final(out)@ == old(out)@.push((x as u8)),
{
    out.push(#[verifier::truncate] (x as u8));
}

/// Append `x` big-endian.
pub fn put_u16(out: &mut Vec<u8>, x: u16)
    ensures
        final(out)@ == old(out)@ + spec_u16_be(x),
{
    out.push((x / 0x100) as u8);
    out.push((x % 0x100) as u8);
    assert(out@ =~= old(out)@ + spec_u16_be(x));
}

/// Append `x` big-endian.
pub fn put_u32(out: &mut Vec<u8>, x: u32)
    ensures
        final(out)@ == old(out)@ + spec_u32_be(x),
{
    out.push((x / 0x100_0000) as u8);
    out.push(((x / 0x1_0000) % 0x100) as u8);
    out.push(((x / 0x100) % 0x100) as u8);
    out.push((x % 0x100) as u8);
    assert(out@ =~= old(out)@ + spec_u32_be(x));
}

/// Append `x` big-endian.
pub fn put_u64(out: &mut Vec<u8>, x: u64)
    ensures
        final(out)@ == old(out)@ + spec_u64_be(x),
{
    out.push((x / 0x100_0000_0000_0000) as u8);
    out.push(((x / 0x1_0000_0000_0000) % 0x100) as u8);
    out.push(((x / 0x100_0000_0000) % 0x100) as u8);
    out.push(((x / 0x1_0000_0000) % 0x100) as u8);
    out.push(((x / 0x100_0000) % 0x100) as u8);
    out.push(((x / 0x1_0000) % 0x100) as u8);
    out.push(((x / 0x100) % 0x100) as u8);
    out.push((x % 0x100) as u8);
    assert(out@ =~= old(out)@ + spec_u64_be(x));
}

/// Append `x` big-endian (the bit pattern of the signed value).
pub fn put_i32(out: &mut Vec<u8>, x: i32)
    ensures
        final(out)@ == old(out)@ + spec_u32_be((x as u32)),
{
    put_u32(out, #[verifier::truncate] (x as u32));
}

/// Append `x` big-endian (the bit pattern of the signed value).
pub fn put_i64(out: &mut Vec<u8>, x: i64)
    ensures
        final(out)@ == old(out)@ + spec_u64_be((x as u64)),
{
    put_u64(out, #[verifier::truncate] (x as u64));
}

/// Append raw bytes unchanged.
pub fn put_raw(out: &mut Vec<u8>, bytes: &[u8])
    ensures
        final(out)@ == old(out)@ + bytes@,
{
    let mut i: usize = 0;
    while i < bytes.len()
        invariant
            i <= bytes@.len(),
            out@ == old(out)@ + bytes@.take(i as int),
        decreases bytes@.len() - i,
    {
        out.push(bytes[i]);
        assert(out@ =~= old(out)@ + bytes@.take(i + 1));
        i = i + 1;
    }
    assert(out@ =~= old(out)@ + bytes@);
}

/// Append `n` as a varint.
pub fn put_varint(out: &mut Vec<u8>, n: u32)
    ensures
        final(out)@ == old(out)@ + spec_varint_encode(n),
{
    let mut m: u32 = n;
    while m >= 0x80
        invariant
            out@ + spec_varint_encode(m) == old(out)@ + spec_varint_encode(n),
        decreases m,
    {
        let b: u8 = (0x80 + m % 0x80) as u8;
        out.push(b);
        proof {
            assert(old(out)@ + spec_varint_encode(n) =~= out@ + spec_varint_encode(m / 0x80));
        }
        m = m / 0x80;
    }
    out.push(m as u8);
    assert(out@ =~= old(out)@ + spec_varint_encode(n));
}

/// The wire form of a length-prefixed byte string: varint length, then the
/// bytes themselves.
pub open spec fn spec_str_encode(b: Seq<u8>) -> Seq<u8> {
    spec_varint_encode(b.len() as u32) + b
}

/// Append a length-prefixed byte string. A length beyond the 32-bit
/// range — impossible for any frame this library builds — would wrap in
/// the prefix, exactly as the format's 32-bit length field does.
pub fn put_str(out: &mut Vec<u8>, bytes: &[u8])
    ensures
        final(out)@ == old(out)@ + spec_str_encode(bytes@),
{
    put_varint(out, #[verifier::truncate] (bytes.len() as u32));
    put_raw(out, bytes);
    assert(out@ =~= old(out)@ + spec_str_encode(bytes@));
}

/// A number that travels as a varint.
#[allow(non_camel_case_types)]
#[derive(Debug, Clone, Copy, PartialEq, Eq, Structural)]
pub struct var(pub u32);

impl var {
    /// How many bytes the varint form takes: one per started 7-bit group.
    pub fn byte_len(&self) -> (n: usize)
        ensures
            n == spec_varint_encode(self.0).len(),
    {
        proof {
            lemma_varint_encode_len(self.0);
        }
        if self.0 < 0x80 {
            1
        } else if self.0 < 0x4000 {
            2
        } else if self.0 < 0x20_0000 {
            3
        } else if self.0 < 0x1000_0000 {
            4
        } else {
            5
        }
    }

    /// Append the varint form.
    pub fn encode(&self, out: &mut Vec<u8>)
        ensures
            final(out)@ == old(out)@ + spec_varint_encode(self.0),
    {
        put_varint(out, self.0);
    }
}

/// What decoding a length-prefixed byte string from `s` yields: the
/// payload and the bytes consumed. Fails when fewer bytes remain than the
/// length prefix declares.
pub open spec fn spec_str_decode(s: Seq<u8>) -> Option<(Seq<u8>, int)> {
    match spec_varint_decode(s) {
        None => None,
        Some((l, k)) => if k + l <= s.len() {
            Some((s.subrange(k, k + l), k + l))
        } else {
            None
        },
    }
}

/// Decode a length-prefixed byte string: the payload and the remaining
/// bytes.
pub fn str(buf: &[u8]) -> (r: Option<(&[u8], &[u8])>)
    ensures
        match r {
            Some((payload, rest)) => {
                &&& spec_str_decode(buf@) == Some((payload@, buf@.len() - rest@.len()))
                &&& rest@ == buf@.skip(buf@.len() - rest@.len())
                &&& payload@.len() + rest@.len() <= buf@.len()
                &&& rest@.len() < buf@.len()
            },
            None => spec_str_decode(buf@) is None,
        },
{
    match varint(buf) {
        None => None,
        Some((l, rem)) => {
            if (l as usize) <= rem.len() {
                let (payload, rest) = rem.split_at(l as usize);
                proof {
                    let k = buf@.len() - rem@.len();
                    assert(payload@ =~= buf@.subrange(k, k + l));
                    assert(rest@ =~= buf@.skip(k + l));
                }
                Some((payload, rest))
            } else {
                None
            }
        },
    }
}

/// Drop `n` leading bytes, when that many are there.
pub fn skip_n(buf: &[u8], n: usize) -> (r: Option<&[u8]>)
    ensures
        match r {
            Some(rest) => buf@.len() >= n && rest@ == buf@.skip(n as int),
            None => buf@.len() < n,
        },
{
    if n <= buf.len() {
        let rest = vstd::slice::slice_subrange(buf, n, buf.len());
        assert(rest@ =~= buf@.skip(n as int));
        Some(rest)
    } else {
        None
    }
}

/// Sign-extend a 26-bit field.
pub open spec fn sign_extend_26(v: int) -> int {
    if v >= 0x200_0000 {
        v - 0x400_0000
    } else {
        v
    }
}

/// Sign-extend a 12-bit field.
pub open spec fn sign_extend_12(v: int) -> int {
    if v >= 0x800 {
        v - 0x1000
    } else {
        v
    }
}

/// The X coordinate packed into the top 26 bits of a position word.
pub open spec fn spec_pos_x(u: u64) -> int {
    sign_extend_26(u as int / 0x40_0000_0000)
}

/// The Z coordinate packed into the middle 26 bits.
pub open spec fn spec_pos_z(u: u64) -> int {
    sign_extend_26((u as int / 0x1000) % 0x400_0000)
}

/// The Y coordinate packed into the low 12 bits.
pub open spec fn spec_pos_y(u: u64) -> int {
    sign_extend_12(u as int % 0x1000)
}

/// Decode a packed block position: eight big-endian bytes holding 26-bit
/// X, 26-bit Z and 12-bit Y, each sign-extended.
pub fn pos(buf: &[u8]) -> (r: Option<(V3, &[u8])>)
    ensures
        match r {
            Some((p, rest)) => {
                &&& buf@.len() >= 8
                &&& p.x == spec_pos_x(spec_be64(buf@.take(8)))
                &&& p.y == spec_pos_y(spec_be64(buf@.take(8)))
                &&& p.z == spec_pos_z(spec_be64(buf@.take(8)))
                &&& rest@ == buf@.skip(8)
            },
            None => buf@.len() < 8,
        },
{
    match be_u64(buf) {
        None => None,
        Some((u, rest)) => {
            let xr: u64 = u / 0x40_0000_0000;
            let zr: u64 = (u / 0x1000) % 0x400_0000;
            let yr: u64 = u % 0x1000;
            let x: i32 = if xr >= 0x200_0000 {
                ((xr as i64) - 0x400_0000) as i32
            } else {
                xr as i32
            };
            let z: i32 = if zr >= 0x200_0000 {
                ((zr as i64) - 0x400_0000) as i32
            } else {
                zr as i32
            };
            let y: i32 = if yr >= 0x800 {
                ((yr as i64) - 0x1000) as i32
            } else {
                yr as i32
            };
            Some((V3 { x, y, z }, rest))
        },
    }
}

/// A block position fits the packed word: 26-bit X and Z, 12-bit Y.
pub open spec fn pos_in_range(p: V3) -> bool {
    &&& -0x200_0000 <= p.x < 0x200_0000
    &&& -0x200_0000 <= p.z < 0x200_0000
    &&& -0x800 <= p.y < 0x800
}

/// The 26-bit two's-complement image of a coordinate.
pub open spec fn wrap_26(v: int) -> int {
    if v < 0 {
        v + 0x400_0000
    } else {
        v
    }
}

/// The 12-bit two's-complement image of a coordinate.
pub open spec fn wrap_12(v: int) -> int {
    if v < 0 {
        v + 0x1000
    } else {
        v
    }
}

/// The packed position word for an in-range block position.
pub open spec fn spec_pos_encode(p: V3) -> u64
    recommends
        pos_in_range(p),
{
    (wrap_26(p.x as int) * 0x40_0000_0000 + wrap_26(p.z as int) * 0x1000 + wrap_12(
        p.y as int,
    )) as u64
}

/// Pack an in-range block position into its 64-bit wire word.
pub fn pos_encode(p: V3) -> (u: u64)
    requires
        pos_in_range(p),
    ensures
        u == spec_pos_encode(p),
{
    let xw: u64 = if p.x < 0 {
        ((p.x as i64) + 0x400_0000) as u64
    } else {
        p.x as u64
    };
    let zw: u64 = if p.z < 0 {
        ((p.z as i64) + 0x400_0000) as u64
    } else {
        p.z as u64
    };
    let yw: u64 = if p.y < 0 {
        ((p.y as i64) + 0x1000) as u64
    } else {
        p.y as u64
    };
    xw * 0x40_0000_0000 + zw * 0x1000 + yw
}

/// Packing then unpacking an in-range block position gives it back.
pub proof fn lemma_pos_round_trip(p: V3)
    requires
        pos_in_range(p),
    ensures
        spec_pos_x(spec_pos_encode(p)) == p.x,
        spec_pos_y(spec_pos_encode(p)) == p.y,
        spec_pos_z(spec_pos_encode(p)) == p.z,
{
    let u = wrap_26(p.x as int) * 0x40_0000_0000 + wrap_26(p.z as int) * 0x1000 + wrap_12(
        p.y as int,
    );
    assert(u / 0x40_0000_0000 == wrap_26(p.x as int) && (u / 0x1000) % 0x400_0000 == wrap_26(
        p.z as int,
    ) && u % 0x1000 == wrap_12(p.y as int)) by (nonlinear_arith)
        requires
            u == wrap_26(p.x as int) * 0x40_0000_0000 + wrap_26(p.z as int) * 0x1000 + wrap_12(
                p.y as int,
            ),
            0 <= wrap_26(p.x as int) < 0x400_0000,
            0 <= wrap_26(p.z as int) < 0x400_0000,
            0 <= wrap_12(p.y as int) < 0x1000,
    ;
}

/// A block position travelling in packed form.
#[derive(Debug, Clone, Copy, PartialEq, Eq, Structural)]
pub struct Position(pub V3);


/// A typed value that decodes off the front of a frame: the decode
/// consumes a prefix and hands back the value with the remaining bytes,
/// or rejects the input outright. [`Self::spec_decode`] pins both the
/// value and the bytes consumed.
pub trait Wire: Sized {
    /// What decoding yields on the given bytes: the value and how many
    /// bytes it took, or nothing when the input is rejected.
    spec fn spec_decode(s: Seq<u8>) -> Option<(Self, int)>;

    /// Decode one value off the front of `pkt`; failure means the frame
    /// is malformed and costs the sender its connection.
    fn decode(pkt: &[u8]) -> (r: Result<(Self, &[u8]), Disconnection>)
        ensures
            match r {
                Ok((v, rest)) => {
                    &&& rest@.len() <= pkt@.len()
                    &&& Self::spec_decode(pkt@) == Some((v, pkt@.len() - rest@.len()))
                    &&& rest@ == pkt@.skip(pkt@.len() - rest@.len())
                },
                Err(_) => Self::spec_decode(pkt@) is None,
            },
    ;
}

impl Wire for u8 {
    open spec fn spec_decode(s: Seq<u8>) -> Option<(u8, int)> {
        if s.len() >= 1 {
            Some((s[0], 1))
        } else {
            None
        }
    }

    fn decode(pkt: &[u8]) -> (r: Result<(u8, &[u8]), Disconnection>) {
        match byte(pkt) {
            Some((b, rest)) => Ok((b, rest)),
            None => Err(Disconnection::new()),
        }
    }
}

impl Wire for bool {
    /// Strict: only 0 and 1 name a truth value.
    open spec fn spec_decode(s: Seq<u8>) -> Option<(bool, int)> {
        if s.len() >= 1 && s[0] <= 1 {
            Some((s[0] == 1, 1))
        } else {
            None
        }
    }

    fn decode(pkt: &[u8]) -> (r: Result<(bool, &[u8]), Disconnection>) {
        match byte(pkt) {
            Some((b, rest)) => if b <= 1 {
                Ok((b == 1, rest))
            } else {
                Err(Disconnection::new())
            },
            None => Err(Disconnection::new()),
        }
    }
}

impl Wire for u16 {
    open spec fn spec_decode(s: Seq<u8>) -> Option<(u16, int)> {
        if s.len() >= 2 {
            Some((spec_be16(s[0], s[1]), 2))
        } else {
            None
        }
    }

    fn decode(pkt: &[u8]) -> (r: Result<(u16, &[u8]), Disconnection>) {
        match be_u16(pkt) {
            Some((x, rest)) => Ok((x, rest)),
            None => Err(Disconnection::new()),
        }
    }
}

impl Wire for i16 {
    open spec fn spec_decode(s: Seq<u8>) -> Option<(i16, int)> {
        if s.len() >= 2 {
            Some((spec_be16(s[0], s[1]) as i16, 2))
        } else {
            None
        }
    }

    fn decode(pkt: &[u8]) -> (r: Result<(i16, &[u8]), Disconnection>) {
        match be_i16(pkt) {
            Some((x, rest)) => Ok((x, rest)),
            None => Err(Disconnection::new()),
        }
    }
}

impl Wire for var {
    open spec fn spec_decode(s: Seq<u8>) -> Option<(var, int)> {
        match spec_varint_decode(s) {
            Some((n, k)) => Some((var(n), k)),
            None => None,
        }
    }

    fn decode(pkt: &[u8]) -> (r: Result<(var, &[u8]), Disconnection>) {
        match varint(pkt) {
            Some((n, rest)) => Ok((var(n), rest)),
            None => Err(Disconnection::new()),
        }
    }
}

impl Wire for Hand {
    open spec fn spec_decode(s: Seq<u8>) -> Option<(Hand, int)> {
        if s.len() >= 1 && s[0] <= 1 {
            Some(
                (
                    if s[0] == 0 {
                        Hand::Main
                    } else {
                        Hand::Secondary
                    },
                    1,
                ),
            )
        } else {
            None
        }
    }

    fn decode(pkt: &[u8]) -> (r: Result<(Hand, &[u8]), Disconnection>) {
        match byte(pkt) {
            Some((0, rest)) => Ok((Hand::Main, rest)),
            Some((1, rest)) => Ok((Hand::Secondary, rest)),
            _ => Err(Disconnection::new()),
        }
    }
}

impl Wire for Position {
    open spec fn spec_decode(s: Seq<u8>) -> Option<(Position, int)> {
        if s.len() >= 8 {
            let u = spec_be64(s.take(8));
            Some(
                (
                    Position(
                        V3 {
                            x: spec_pos_x(u) as i32,
                            y: spec_pos_y(u) as i32,
                            z: spec_pos_z(u) as i32,
                        },
                    ),
                    8,
                ),
            )
        } else {
            None
        }
    }

    fn decode(pkt: &[u8]) -> (r: Result<(Position, &[u8]), Disconnection>) {
        match pos(pkt) {
            Some((p, rest)) => Ok((Position(p), rest)),
            None => Err(Disconnection::new()),
        }
    }
}

} // verus!
