//! The byte layout of scalars and text written out as spec functions, and
//! the law that decoding them gives the written value back with its width.
use vstd::prelude::*;
use vstd::utf8::*;
use crate::tree::{DecodeError, Tree};
use crate::wire::{
    be_u16, be_u32, be_u64, text_at, value_at, TAG_BYTE, TAG_DOUBLE, TAG_FLOAT, TAG_INT, TAG_LONG,
    TAG_SHORT, TAG_STRING,
};

verus! {

broadcast use {encode_utf8_valid_utf8, encode_utf8_decode_utf8};

/// `u` written big-endian in `width` bytes.
pub open spec fn be_bytes(u: int, width: nat) -> Seq<u8>
    decreases width,
{
    if width == 0 {
        Seq::empty()
    } else {
        be_bytes(u / 256, (width - 1) as nat).push((u % 256) as u8)
    }
}

/// The two's-complement pattern of `v`, where `half` is 2 to the power of
/// the width minus one.
pub open spec fn unsigned_of(v: int, half: int) -> int {
    if v < 0 {
        v + 2 * half
    } else {
        v
    }
}

/// The bytes of a scalar tree, or of its text with the length prefix.
pub open spec fn scalar_bytes(t: Tree) -> Seq<u8> {
    match t {
        Tree::Byte(v) => be_bytes(unsigned_of(v as int, 0x80), 1),
        Tree::Short(v) => be_bytes(unsigned_of(v as int, 0x8000), 2),
        Tree::Int(v) => be_bytes(unsigned_of(v as int, 0x8000_0000), 4),
        Tree::Long(v) => be_bytes(unsigned_of(v as int, 0x8000_0000_0000_0000), 8),
        Tree::Float(bits) => be_bytes(bits as int, 4),
        Tree::Double(bits) => be_bytes(bits as int, 8),
        Tree::Text(s) => be_bytes(encode_utf8(s).len() as int, 2) + encode_utf8(s),
        _ => Seq::empty(),
    }
}

/// The tag kind a scalar tree is written under.
pub open spec fn scalar_kind(t: Tree) -> u8 {
    match t {
        Tree::Byte(_) => TAG_BYTE,
        Tree::Short(_) => TAG_SHORT,
        Tree::Int(_) => TAG_INT,
        Tree::Long(_) => TAG_LONG,
        Tree::Float(_) => TAG_FLOAT,
        Tree::Double(_) => TAG_DOUBLE,
        _ => TAG_STRING,
    }
}

/// Trees that `scalar_bytes` writes: numbers, and text whose UTF-8 form
/// fits a 2-byte length.
pub open spec fn is_scalar(t: Tree) -> bool {
    match t {
        Tree::Sequence(_) | Tree::Mapping(_) => false,
        Tree::Text(s) => encode_utf8(s).len() <= 0xffff,
        _ => true,
    }
}

proof fn lemma_be16(u: int)
    requires
        0 <= u < 0x1_0000,
    ensures
        be_bytes(u, 2).len() == 2,
        be_u16(be_bytes(u, 2), 0) == u,
{
    reveal_with_fuel(be_bytes, 3);
    let b = be_bytes(u, 2);
    assert(be_bytes(u / 256 / 256, 0) =~= Seq::<u8>::empty());
    assert(b =~= seq![(u / 256 % 256) as u8, (u % 256) as u8]);
}

proof fn lemma_be32(u: int)
    requires
        0 <= u < 0x1_0000_0000,
    ensures
        be_bytes(u, 4).len() == 4,
        be_u32(be_bytes(u, 4), 0) == u,
{
    reveal_with_fuel(be_bytes, 5);
    let q1 = u / 256;
    let q2 = q1 / 256;
    let q3 = q2 / 256;
    assert(be_bytes(q3 / 256, 0) =~= Seq::<u8>::empty());
    let b = be_bytes(u, 4);
    assert(b =~= seq![(q3 % 256) as u8, (q2 % 256) as u8, (q1 % 256) as u8, (u % 256) as u8]);
    assert(be_u16(b, 0) == q2);
    assert(be_u16(b, 2) == u % 0x1_0000);
}

proof fn lemma_be64(u: int)
    requires
        0 <= u < 0x1_0000_0000_0000_0000,
    ensures
        be_bytes(u, 8).len() == 8,
        be_u64(be_bytes(u, 8), 0) == u,
{
    let hi = u / 0x1_0000_0000;
    let lo = u % 0x1_0000_0000;
    lemma_be32(hi);
    lemma_be32(lo);
    lemma_be_split(u);
    let b = be_bytes(u, 8);
    assert(b.subrange(0, 4) =~= be_bytes(hi, 4));
    assert(b.subrange(4, 8) =~= be_bytes(lo, 4));
    assert(be_u32(b, 0) == be_u32(be_bytes(hi, 4), 0));
    assert(be_u32(b, 4) == be_u32(be_bytes(lo, 4), 0));
}

/// Eight bytes are the four of the high half, then the four of the low half.
proof fn lemma_be_split(u: int)
    requires
        0 <= u,
    ensures
        be_bytes(u, 8) == be_bytes(u / 0x1_0000_0000, 4) + be_bytes(u % 0x1_0000_0000, 4),
{
    reveal_with_fuel(be_bytes, 9);
    let q1 = u / 256;
    let q2 = q1 / 256;
    let q3 = q2 / 256;
    let q4 = q3 / 256;
    let hi = u / 0x1_0000_0000;
    let lo = u % 0x1_0000_0000;
    assert(q4 == hi);
    assert(lo / 256 % 256 == q1 % 256);
    assert(lo / 256 / 256 % 256 == q2 % 256);
    assert(lo / 256 / 256 / 256 % 256 == q3 % 256);
    assert(lo % 256 == u % 256);
    assert(be_bytes(hi / 256 / 256 / 256 / 256, 0) =~= Seq::<u8>::empty());
    assert(be_bytes(lo / 256 / 256 / 256 / 256, 0) =~= Seq::<u8>::empty());
    assert(be_bytes(q4 / 256 / 256 / 256 / 256, 0) =~= Seq::<u8>::empty());
    assert(be_bytes(u, 8) =~= be_bytes(hi, 4) + be_bytes(lo, 4));
}

/// Decoding the bytes that a scalar or a piece of text is written as gives
/// that value back, and takes exactly those bytes.
pub proof fn scalar_round_trip(t: Tree, depth: nat)
    requires
        is_scalar(t),
    ensures
        value_at(scalar_bytes(t), 0, scalar_kind(t), depth) == Ok::<(Tree, nat), DecodeError>(
            (t, scalar_bytes(t).len()),
        ),
{
    match t {
        Tree::Byte(v) => {
            assert(be_bytes(unsigned_of(v as int, 0x80) / 256, 0) =~= Seq::<u8>::empty());
        },
        Tree::Short(v) => lemma_be16(unsigned_of(v as int, 0x8000)),
        Tree::Int(v) => lemma_be32(unsigned_of(v as int, 0x8000_0000)),
        Tree::Long(v) => lemma_be64(unsigned_of(v as int, 0x8000_0000_0000_0000)),
        Tree::Float(bits) => lemma_be32(bits as int),
        Tree::Double(bits) => lemma_be64(bits as int),
        Tree::Text(s) => {
            let raw = encode_utf8(s);
            let b = scalar_bytes(t);
            lemma_be16(raw.len() as int);
            assert(be_u16(b, 0) == be_u16(be_bytes(raw.len() as int, 2), 0));
            assert(b.subrange(2, 2 + raw.len() as int) =~= raw);
            assert(text_at(b, 0) == Ok::<(Seq<char>, nat), DecodeError>((s, b.len())));
        },
        _ => {},
    }
}

} // verus!
