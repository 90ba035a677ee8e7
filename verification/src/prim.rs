//! Primitive decoders: fixed-width big-endian readers over a byte buffer, the
//! bit-preserving signed reinterpretations, and the length-prefixed UTF-8
//! string reader. Each exec reader is specified exactly against a spec-level
//! reader over `Seq<u8>`.

use vstd::prelude::*;
use vstd::utf8::{decode_utf8, valid_utf8};
use crate::tag::NbtError;

verus! {

/// A 16-bit unsigned integer from two big-endian bytes.
pub open spec fn be_u16(b0: u8, b1: u8) -> u16 {
    (b0 as int * 0x100 + b1 as int) as u16
}

/// A 32-bit unsigned integer from four big-endian bytes.
pub open spec fn be_u32(b0: u8, b1: u8, b2: u8, b3: u8) -> u32 {
    (b0 as int * 0x1000000 + b1 as int * 0x10000 + b2 as int * 0x100 + b3 as int) as u32
}

/// A 64-bit unsigned integer from eight big-endian bytes.
pub open spec fn be_u64(s: Seq<u8>) -> u64
    recommends
        s.len() == 8,
{
    (be_u32(s[0], s[1], s[2], s[3]) as int * 0x100000000 + be_u32(s[4], s[5], s[6], s[7]) as int) as u64
}

/// The two's-complement reinterpretation of 8 bits.
pub open spec fn i8_from_bits(b: u8) -> i8 {
    if b < 0x80 {
        b as i8
    } else {
        (b - 0x100) as i8
    }
}

/// The two's-complement reinterpretation of 16 bits.
pub open spec fn i16_from_bits(b: u16) -> i16 {
    if b < 0x8000 {
        b as i16
    } else {
        (b - 0x10000) as i16
    }
}

/// The two's-complement reinterpretation of 32 bits.
pub open spec fn i32_from_bits(b: u32) -> i32 {
    if b < 0x80000000 {
        b as i32
    } else {
        (b - 0x100000000) as i32
    }
}

/// The two's-complement reinterpretation of 64 bits.
pub open spec fn i64_from_bits(b: u64) -> i64 {
    if b < 0x8000000000000000 {
        b as i64
    } else {
        (b - 0x10000000000000000) as i64
    }
}

/// Reads `n` bytes starting at `p`, or fails when fewer remain.
pub open spec fn sp_bytes(s: Seq<u8>, p: nat, n: nat) -> Result<Seq<u8>, NbtError> {
    if p + n <= s.len() {
        Ok(s.subrange(p as int, (p + n) as int))
    } else {
        Err(NbtError::TruncatedInput)
    }
}

/// Reads one byte at `p`.
pub open spec fn sp_u8(s: Seq<u8>, p: nat) -> Result<u8, NbtError> {
    if p + 1 <= s.len() {
        Ok(s[p as int])
    } else {
        Err(NbtError::TruncatedInput)
    }
}

/// Reads a big-endian 16-bit unsigned integer at `p`.
pub open spec fn sp_u16(s: Seq<u8>, p: nat) -> Result<u16, NbtError> {
    if p + 2 <= s.len() {
        Ok(be_u16(s[p as int], s[p as int + 1]))
    } else {
        Err(NbtError::TruncatedInput)
    }
}

/// Reads a big-endian 32-bit unsigned integer at `p`.
pub open spec fn sp_u32(s: Seq<u8>, p: nat) -> Result<u32, NbtError> {
    if p + 4 <= s.len() {
        Ok(be_u32(s[p as int], s[p as int + 1], s[p as int + 2], s[p as int + 3]))
    } else {
        Err(NbtError::TruncatedInput)
    }
}

/// Reads a big-endian 64-bit unsigned integer at `p`.
pub open spec fn sp_u64(s: Seq<u8>, p: nat) -> Result<u64, NbtError> {
    if p + 8 <= s.len() {
        Ok(be_u64(s.subrange(p as int, p as int + 8)))
    } else {
        Err(NbtError::TruncatedInput)
    }
}

/// Reads a length-prefixed UTF-8 string at `p`: a 16-bit unsigned length,
/// then that many bytes, which must be valid UTF-8.
pub open spec fn sp_str(s: Seq<u8>, p: nat) -> Result<(Seq<char>, nat), NbtError> {
    match sp_u16(s, p) {
        Err(e) => Err(e),
        Ok(n) => match sp_bytes(s, p + 2, n as nat) {
            Err(e) => Err(e),
            Ok(raw) => if valid_utf8(raw) {
                Ok((decode_utf8(raw), (2 + n) as nat))
            } else {
                Err(NbtError::InvalidEncoding)
            },
        },
    }
}

/// Reads a byte array at `p`: a 32-bit signed length, which must not be
/// negative, then that many bytes reinterpreted as signed.
pub open spec fn sp_byte_array(s: Seq<u8>, p: nat) -> Result<(Seq<i8>, nat), NbtError> {
    match sp_u32(s, p) {
        Err(e) => Err(e),
        Ok(bits) => {
            let n = i32_from_bits(bits);
            if n < 0 {
                Err(NbtError::InvalidLength)
            } else {
                match sp_bytes(s, p + 4, n as nat) {
                    Err(e) => Err(e),
                    Ok(raw) => Ok((raw.map_values(|b: u8| i8_from_bits(b)), (4 + n) as nat)),
                }
            }
        },
    }
}

/// Reads one byte, as `sp_u8`.
pub fn read_u8(s: &Vec<u8>, pos: usize) -> (r: Result<u8, NbtError>)
    ensures
        r == sp_u8(s@, pos as nat),
        r is Ok ==> pos + 1 <= s@.len(),
{
    if pos < s.len() {
        Ok(s[pos])
    } else {
        Err(NbtError::TruncatedInput)
    }
}

/// Reads a big-endian `u16`, as `sp_u16`.
pub fn read_u16(s: &Vec<u8>, pos: usize) -> (r: Result<u16, NbtError>)
    ensures
        r == sp_u16(s@, pos as nat),
        r is Ok ==> pos + 2 <= s@.len(),
{
    if pos < s.len() && s.len() - pos >= 2 {
        Ok((s[pos] as u16) * 0x100 + s[pos + 1] as u16)
    } else {
        Err(NbtError::TruncatedInput)
    }
}

/// Reads a big-endian `u32`, as `sp_u32`.
pub fn read_u32(s: &Vec<u8>, pos: usize) -> (r: Result<u32, NbtError>)
    ensures
        r == sp_u32(s@, pos as nat),
        r is Ok ==> pos + 4 <= s@.len(),
{
    if pos < s.len() && s.len() - pos >= 4 {
        Ok(
            (s[pos] as u32) * 0x1000000 + (s[pos + 1] as u32) * 0x10000 + (s[pos + 2] as u32)
                * 0x100 + s[pos + 3] as u32,
        )
    } else {
        Err(NbtError::TruncatedInput)
    }
}

/// Reads a big-endian `u64`, as `sp_u64`.
pub fn read_u64(s: &Vec<u8>, pos: usize) -> (r: Result<u64, NbtError>)
    ensures
        r == sp_u64(s@, pos as nat),
        r is Ok ==> pos + 8 <= s@.len(),
{
    if pos < s.len() && s.len() - pos >= 8 {
        let hi = (s[pos] as u32) * 0x1000000 + (s[pos + 1] as u32) * 0x10000 + (s[pos + 2] as u32)
            * 0x100 + s[pos + 3] as u32;
        let lo = (s[pos + 4] as u32) * 0x1000000 + (s[pos + 5] as u32) * 0x10000 + (s[pos
            + 6] as u32) * 0x100 + s[pos + 7] as u32;
        let r = (hi as u64) * 0x100000000 + lo as u64;
        proof {
            let sub = s@.subrange(pos as int, pos as int + 8);
            assert(sub[0] == s@[pos as int] && sub[1] == s@[pos as int + 1] && sub[2] == s@[
                pos as int + 2] && sub[3] == s@[pos as int + 3] && sub[4] == s@[pos as int + 4]
                && sub[5] == s@[pos as int + 5] && sub[6] == s@[pos as int + 6] && sub[7] == s@[
                pos as int + 7]);
        }
        Ok(r)
    } else {
        Err(NbtError::TruncatedInput)
    }
}

/// Reinterprets 8 bits as signed, as `i8_from_bits`.
pub fn i8_of_bits(b: u8) -> (r: i8)
    ensures
        r == i8_from_bits(b),
{
    if b < 0x80 {
        b as i8
    } else {
        (b as i16 - 0x100) as i8
    }
}

/// Reinterprets 16 bits as signed, as `i16_from_bits`.
pub fn i16_of_bits(b: u16) -> (r: i16)
    ensures
        r == i16_from_bits(b),
{
    if b < 0x8000 {
        b as i16
    } else {
        (b as i32 - 0x10000) as i16
    }
}

/// Reinterprets 32 bits as signed, as `i32_from_bits`.
pub fn i32_of_bits(b: u32) -> (r: i32)
    ensures
        r == i32_from_bits(b),
{
    if b < 0x80000000 {
        b as i32
    } else {
        (b as i64 - 0x100000000) as i32
    }
}

/// Reinterprets 64 bits as signed, as `i64_from_bits`.
pub fn i64_of_bits(b: u64) -> (r: i64)
    ensures
        r == i64_from_bits(b),
{
    if b < 0x8000000000000000 {
        b as i64
    } else {
        (b as i128 - 0x10000000000000000) as i64
    }
}

/// Copies the `n` bytes starting at `pos` into a fresh buffer, as `sp_bytes`.
pub fn read_bytes(s: &Vec<u8>, pos: usize, n: usize) -> (r: Result<Vec<u8>, NbtError>)
    ensures
        match (r, sp_bytes(s@, pos as nat, n as nat)) {
            (Ok(v), Ok(sv)) => v@ == sv && pos + n <= s@.len(),
            (Err(e), Err(se)) => e == se,
            _ => false,
        },
{
    let total = s.len();
    if n <= total && pos <= total - n {
        let mut out: Vec<u8> = Vec::new();
        let mut i: usize = 0;
        while i < n
            invariant
                pos + n <= s@.len(),
                s@.len() <= usize::MAX,
                i <= n,
                out@ == s@.subrange(pos as int, pos as int + i as int),
            decreases n - i,
        {
            out.push(s[pos + i]);
            proof {
                assert(out@ =~= s@.subrange(pos as int, pos as int + i as int + 1));
            }
            i = i + 1;
        }
        proof {
            assert(out@ =~= s@.subrange(pos as int, (pos + n) as int));
        }
        Ok(out)
    } else {
        Err(NbtError::TruncatedInput)
    }
}

/// Relies on `String::from_utf8`: it returns `Ok` exactly when the bytes are
/// valid UTF-8, and the resulting string holds those bytes decoded.
#[verifier::external_body]
fn string_from_utf8(bytes: Vec<u8>) -> (r: Option<String>)
    ensures
        match r {
            Some(st) => valid_utf8(bytes@) && st@ == decode_utf8(bytes@),
            None => !valid_utf8(bytes@),
        },
{
    String::from_utf8(bytes).ok()
}

/// Reads a length-prefixed UTF-8 string, as `sp_str`.
pub fn read_string(s: &Vec<u8>, pos: usize) -> (r: Result<(String, usize), NbtError>)
    ensures
        match (r, sp_str(s@, pos as nat)) {
            (Ok((st, pos2)), Ok((sv, c))) => st@ == sv && pos2 == pos + c && pos2 <= s@.len(),
            (Err(e), Err(se)) => e == se,
            _ => false,
        },
{
    let total = s.len();
    let n = match read_u16(s, pos) {
        Ok(n) => n,
        Err(e) => return Err(e),
    };
    proof {
        assert(pos + 2 <= total);
    }
    let raw = match read_bytes(s, pos + 2, n as usize) {
        Ok(raw) => raw,
        Err(e) => return Err(e),
    };
    match string_from_utf8(raw) {
        Some(st) => Ok((st, pos + 2 + n as usize)),
        None => Err(NbtError::InvalidEncoding),
    }
}

/// Reads a byte array, as `sp_byte_array`.
pub fn read_byte_array(s: &Vec<u8>, pos: usize) -> (r: Result<(Vec<i8>, usize), NbtError>)
    ensures
        match (r, sp_byte_array(s@, pos as nat)) {
            (Ok((bs, pos2)), Ok((sv, c))) => bs@ == sv && pos2 == pos + c && pos2 <= s@.len(),
            (Err(e), Err(se)) => e == se,
            _ => false,
        },
{
    let total = s.len();
    let bits = match read_u32(s, pos) {
        Ok(bits) => bits,
        Err(e) => return Err(e),
    };
    proof {
        assert(pos + 4 <= total);
    }
    let n = i32_of_bits(bits);
    if n < 0 {
        return Err(NbtError::InvalidLength);
    }
    let raw = match read_bytes(s, pos + 4, n as usize) {
        Ok(raw) => raw,
        Err(e) => return Err(e),
    };
    let ghost rawv = raw@;
    let mut out: Vec<i8> = Vec::new();
    let mut i: usize = 0;
    while i < raw.len()
        invariant
            raw@ == rawv,
            i <= raw@.len(),
            out@ == rawv.take(i as int).map_values(|b: u8| i8_from_bits(b)),
        decreases raw@.len() - i,
    {
        out.push(i8_of_bits(raw[i]));
        proof {
            assert(out@ =~= rawv.take(i as int + 1).map_values(|b: u8| i8_from_bits(b)));
        }
        i = i + 1;
    }
    proof {
        assert(rawv.take(rawv.len() as int) =~= rawv);
        assert(out@ =~= rawv.map_values(|b: u8| i8_from_bits(b)));
    }
    Ok((out, pos + 4 + n as usize))
}

} // verus!
