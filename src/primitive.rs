//! Readers of the fixed-width scalars and of length-prefixed text, big-endian.
//! Each returns the value and the bytes it consumed, or `OutOfBounds` when
//! fewer bytes remain than it needs.
use vstd::prelude::*;
use vstd::utf8::*;
use crate::tree::DecodeError;
use crate::wire::{
    be_u16, be_u32, be_u64, byte_at, double_bits_at, fits, float_bits_at, int_at, long_at, short_at,
    text_at,
};

verus! {

/// Whether `n` bytes from `pos` lie inside `data`.
fn has_room(data: &Vec<u8>, pos: usize, n: usize) -> (r: bool)
    ensures
        r == fits(data@, pos as int, n as int),
{
    pos <= data.len() && data.len() - pos >= n
}

fn be_u16_at(data: &Vec<u8>, pos: usize) -> (r: u16)
    requires
        fits(data@, pos as int, 2),
    ensures
        r as int == be_u16(data@, pos as int),
{
    assert(data.len() == data@.len());
    (data[pos] as u16) * 256 + (data[pos + 1] as u16)
}

fn be_u32_at(data: &Vec<u8>, pos: usize) -> (r: u32)
    requires
        fits(data@, pos as int, 4),
    ensures
        r as int == be_u32(data@, pos as int),
{
    assert(data.len() == data@.len());
    let hi = be_u16_at(data, pos);
    let lo = be_u16_at(data, pos + 2);
    (hi as u32) * 0x1_0000 + (lo as u32)
}

fn be_u64_at(data: &Vec<u8>, pos: usize) -> (r: u64)
    requires
        fits(data@, pos as int, 8),
    ensures
        r as int == be_u64(data@, pos as int),
{
    assert(data.len() == data@.len());
    let hi = be_u32_at(data, pos);
    let lo = be_u32_at(data, pos + 4);
    (hi as u64) * 0x1_0000_0000 + (lo as u64)
}

/// A signed 8-bit integer: one byte.
pub fn read_tag_byte(data: &Vec<u8>, pos: usize) -> (r: Result<(i8, usize), DecodeError>)
    ensures
        match r {
            Ok((v, n)) => fits(data@, pos as int, 1) && v == byte_at(data@, pos as int) && n == 1,
            Err(e) => !fits(data@, pos as int, 1) && e == DecodeError::OutOfBounds,
        },
{
    if !has_room(data, pos, 1) {
        return Err(DecodeError::OutOfBounds);
    }
    let u = data[pos];
    let v: i8 = if u < 0x80 {
        u as i8
    } else {
        (u as i16 - 0x100) as i8
    };
    Ok((v, 1))
}

/// A signed 16-bit integer: two bytes, big-endian.
pub fn read_tag_short(data: &Vec<u8>, pos: usize) -> (r: Result<(i16, usize), DecodeError>)
    ensures
        match r {
            Ok((v, n)) => fits(data@, pos as int, 2) && v == short_at(data@, pos as int) && n == 2,
            Err(e) => !fits(data@, pos as int, 2) && e == DecodeError::OutOfBounds,
        },
{
    if !has_room(data, pos, 2) {
        return Err(DecodeError::OutOfBounds);
    }
    let u = be_u16_at(data, pos);
    let v: i16 = if u < 0x8000 {
        u as i16
    } else {
        (u as i32 - 0x1_0000) as i16
    };
    Ok((v, 2))
}

/// A signed 32-bit integer: four bytes, big-endian.
pub fn read_tag_int(data: &Vec<u8>, pos: usize) -> (r: Result<(i32, usize), DecodeError>)
    ensures
        match r {
            Ok((v, n)) => fits(data@, pos as int, 4) && v == int_at(data@, pos as int) && n == 4,
            Err(e) => !fits(data@, pos as int, 4) && e == DecodeError::OutOfBounds,
        },
{
    if !has_room(data, pos, 4) {
        return Err(DecodeError::OutOfBounds);
    }
    let u = be_u32_at(data, pos);
    let v: i32 = if u < 0x8000_0000 {
        u as i32
    } else {
        (u as i64 - 0x1_0000_0000) as i32
    };
    Ok((v, 4))
}

/// A signed 64-bit integer: eight bytes, big-endian.
pub fn read_tag_long(data: &Vec<u8>, pos: usize) -> (r: Result<(i64, usize), DecodeError>)
    ensures
        match r {
            Ok((v, n)) => fits(data@, pos as int, 8) && v == long_at(data@, pos as int) && n == 8,
            Err(e) => !fits(data@, pos as int, 8) && e == DecodeError::OutOfBounds,
        },
{
    if !has_room(data, pos, 8) {
        return Err(DecodeError::OutOfBounds);
    }
    let u = be_u64_at(data, pos);
    let v: i64 = if u < 0x8000_0000_0000_0000 {
        u as i64
    } else {
        ((u - 0x8000_0000_0000_0000) as i64) - 0x7fff_ffff_ffff_ffff - 1
    };
    Ok((v, 8))
}

/// A single-precision float: its four bytes, big-endian, kept as bits.
pub fn read_tag_float(data: &Vec<u8>, pos: usize) -> (r: Result<(u32, usize), DecodeError>)
    ensures
        match r {
            Ok((v, n)) => fits(data@, pos as int, 4) && v == float_bits_at(data@, pos as int) && n == 4,
            Err(e) => !fits(data@, pos as int, 4) && e == DecodeError::OutOfBounds,
        },
{
    if !has_room(data, pos, 4) {
        return Err(DecodeError::OutOfBounds);
    }
    Ok((be_u32_at(data, pos), 4))
}

/// A double-precision float: its eight bytes, big-endian, kept as bits.
pub fn read_tag_double(data: &Vec<u8>, pos: usize) -> (r: Result<(u64, usize), DecodeError>)
    ensures
        match r {
            Ok((v, n)) => fits(data@, pos as int, 8) && v == double_bits_at(data@, pos as int) && n == 8,
            Err(e) => !fits(data@, pos as int, 8) && e == DecodeError::OutOfBounds,
        },
{
    if !has_room(data, pos, 8) {
        return Err(DecodeError::OutOfBounds);
    }
    Ok((be_u64_at(data, pos), 8))
}

/// Relies on `String::from_utf8`: it succeeds exactly when the bytes are
/// valid UTF-8, and the text then holds the characters they encode.
#[verifier::external_body]
fn text_from_utf8(raw: Vec<u8>) -> (r: Option<String>)
    ensures
        match r {
            Some(s) => valid_utf8(raw@) && s@ == decode_utf8(raw@),
            None => !valid_utf8(raw@),
        },
{
    String::from_utf8(raw).ok()
}

/// Text: a 2-byte unsigned length, then that many bytes of UTF-8.
pub fn read_tag_string(data: &Vec<u8>, pos: usize) -> (r: Result<(String, usize), DecodeError>)
    ensures
        match r {
            Ok((s, n)) => text_at(data@, pos as int) == Ok::<_, DecodeError>((s@, n as nat)),
            Err(e) => text_at(data@, pos as int) == Err::<(Seq<char>, nat), _>(e),
        },
{
    if !has_room(data, pos, 2) {
        return Err(DecodeError::OutOfBounds);
    }
    assert(data.len() == data@.len());
    let len = be_u16_at(data, pos) as usize;
    if !has_room(data, pos + 2, len) {
        return Err(DecodeError::OutOfBounds);
    }
    let start = pos + 2;
    let end = start + len;
    let mut raw: Vec<u8> = Vec::new();
    let mut i: usize = start;
    while i < end
        invariant
            start <= i <= end <= data.len(),
            raw@ == data@.subrange(start as int, i as int),
        decreases end - i,
    {
        raw.push(data[i]);
        i = i + 1;
        proof {
            assert(raw@ =~= data@.subrange(start as int, i as int));
        }
    }
    match text_from_utf8(raw) {
        Some(s) => Ok((s, 2 + len)),
        None => Err(DecodeError::InvalidUtf8),
    }
}

} // verus!
