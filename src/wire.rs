//! The wire format, stated as spec functions over the input bytes.
//!
//! Each `*_at` function says what decoding the bytes `b` at offset `pos`
//! yields: the value and the exact number of bytes it occupies, or the fault
//! that stops the decode. The executable readers are proved equal to them.
use vstd::prelude::*;
use vstd::utf8::*;
use crate::tree::{DecodeError, Tree};

verus! {

pub const TAG_END: u8 = 0;
pub const TAG_BYTE: u8 = 1;
pub const TAG_SHORT: u8 = 2;
pub const TAG_INT: u8 = 3;
pub const TAG_LONG: u8 = 4;
pub const TAG_FLOAT: u8 = 5;
pub const TAG_DOUBLE: u8 = 6;
pub const TAG_BYTE_ARRAY: u8 = 7;
pub const TAG_STRING: u8 = 8;
pub const TAG_LIST: u8 = 9;
pub const TAG_COMPOUND: u8 = 10;
pub const TAG_INT_ARRAY: u8 = 11;
pub const TAG_LONG_ARRAY: u8 = 12;

/// `n` bytes starting at `pos` lie inside `b`.
pub open spec fn fits(b: Seq<u8>, pos: int, n: int) -> bool {
    0 <= pos && 0 <= n && pos + n <= b.len()
}

/// Two bytes at `i`, big-endian, unsigned.
pub open spec fn be_u16(b: Seq<u8>, i: int) -> int {
    b[i] * 256 + b[i + 1]
}

/// Four bytes at `i`, big-endian, unsigned.
pub open spec fn be_u32(b: Seq<u8>, i: int) -> int {
    be_u16(b, i) * 0x1_0000 + be_u16(b, i + 2)
}

/// Eight bytes at `i`, big-endian, unsigned.
pub open spec fn be_u64(b: Seq<u8>, i: int) -> int {
    be_u32(b, i) * 0x1_0000_0000 + be_u32(b, i + 4)
}

/// The two's-complement reading of `u`, where `half` is 2 to the power of
/// the width minus one.
pub open spec fn signed(u: int, half: int) -> int {
    if u < half {
        u
    } else {
        u - 2 * half
    }
}

pub open spec fn byte_at(b: Seq<u8>, i: int) -> i8 {
    signed(b[i] as int, 0x80) as i8
}

pub open spec fn short_at(b: Seq<u8>, i: int) -> i16 {
    signed(be_u16(b, i), 0x8000) as i16
}

pub open spec fn int_at(b: Seq<u8>, i: int) -> i32 {
    signed(be_u32(b, i), 0x8000_0000) as i32
}

pub open spec fn long_at(b: Seq<u8>, i: int) -> i64 {
    signed(be_u64(b, i), 0x8000_0000_0000_0000) as i64
}

/// The bits of a single-precision float stored at `i`.
pub open spec fn float_bits_at(b: Seq<u8>, i: int) -> u32 {
    be_u32(b, i) as u32
}

/// The bits of a double-precision float stored at `i`.
pub open spec fn double_bits_at(b: Seq<u8>, i: int) -> u64 {
    be_u64(b, i) as u64
}

/// The fixed width in bytes of each primitive kind (zero for the others).
pub open spec fn width_of(kind: u8) -> int {
    if kind == TAG_BYTE {
        1
    } else if kind == TAG_SHORT {
        2
    } else if kind == TAG_INT || kind == TAG_FLOAT {
        4
    } else if kind == TAG_LONG || kind == TAG_DOUBLE {
        8
    } else {
        0
    }
}

/// A primitive of `kind` read at `i`, assuming the bytes are there.
pub open spec fn primitive_at(b: Seq<u8>, i: int, kind: u8) -> Tree {
    if kind == TAG_BYTE {
        Tree::Byte(byte_at(b, i))
    } else if kind == TAG_SHORT {
        Tree::Short(short_at(b, i))
    } else if kind == TAG_INT {
        Tree::Int(int_at(b, i))
    } else if kind == TAG_LONG {
        Tree::Long(long_at(b, i))
    } else if kind == TAG_FLOAT {
        Tree::Float(float_bits_at(b, i))
    } else {
        Tree::Double(double_bits_at(b, i))
    }
}

pub open spec fn is_primitive(kind: u8) -> bool {
    TAG_BYTE <= kind <= TAG_DOUBLE
}

/// A 2-byte unsigned length, then that many bytes of UTF-8 text.
pub open spec fn text_at(b: Seq<u8>, pos: int) -> Result<(Seq<char>, nat), DecodeError> {
    if !fits(b, pos, 2) {
        Err(DecodeError::OutOfBounds)
    } else if !fits(b, pos + 2, be_u16(b, pos)) {
        Err(DecodeError::OutOfBounds)
    } else {
        let raw = b.subrange(pos + 2, pos + 2 + be_u16(b, pos));
        if valid_utf8(raw) {
            Ok((decode_utf8(raw), (2 + be_u16(b, pos)) as nat))
        } else {
            Err(DecodeError::InvalidUtf8)
        }
    }
}

/// The element kind of each array kind.
pub open spec fn array_element(kind: u8) -> u8 {
    if kind == TAG_BYTE_ARRAY {
        TAG_BYTE
    } else if kind == TAG_INT_ARRAY {
        TAG_INT
    } else {
        TAG_LONG
    }
}

/// A 4-byte signed count, then that many primitives of kind `elem`.
pub open spec fn array_at(b: Seq<u8>, pos: int, elem: u8) -> Result<(Seq<Tree>, nat), DecodeError> {
    if !fits(b, pos, 4) {
        Err(DecodeError::OutOfBounds)
    } else if int_at(b, pos) < 0 {
        Err(DecodeError::NegativeCount(int_at(b, pos)))
    } else if !fits(b, pos + 4, int_at(b, pos) * width_of(elem)) {
        Err(DecodeError::OutOfBounds)
    } else {
        Ok((
            Seq::new(
                int_at(b, pos) as nat,
                |k: int| primitive_at(b, pos + 4 + k * width_of(elem), elem),
            ),
            (4 + int_at(b, pos) * width_of(elem)) as nat,
        ))
    }
}

/// One field of a compound as it stands in the stream.
pub struct FieldRecord {
    pub name: Seq<char>,
    /// Bytes taken by the name, its length prefix included.
    pub name_size: nat,
    pub value: Tree,
    /// Bytes taken by the value.
    pub value_size: nat,
}

/// Bytes taken by a field: its tag-kind byte, its name and its value.
pub open spec fn field_size(f: FieldRecord) -> nat {
    1 + f.name_size + f.value_size
}

pub open spec fn fields_size(fs: Seq<FieldRecord>) -> nat
    decreases fs.len(),
{
    if fs.len() == 0 {
        0
    } else {
        fields_size(fs.drop_last()) + field_size(fs.last())
    }
}

pub open spec fn elements_size(es: Seq<(Tree, nat)>) -> nat
    decreases es.len(),
{
    if es.len() == 0 {
        0
    } else {
        elements_size(es.drop_last()) + es.last().1
    }
}

pub open spec fn elements_trees(es: Seq<(Tree, nat)>) -> Seq<Tree> {
    Seq::new(es.len(), |i: int| es[i].0)
}

/// The first position from `j` on that holds key `k`, or `m.len()`.
pub open spec fn key_index_from(m: Seq<(Seq<char>, Tree)>, k: Seq<char>, j: int) -> int
    decreases m.len() - j,
{
    if j < 0 || j >= m.len() {
        m.len() as int
    } else if m[j].0 == k {
        j
    } else {
        key_index_from(m, k, j + 1)
    }
}

/// `m` with `k` bound to `v`: the entry already under `k` is replaced in
/// place, or a new entry goes at the end.
pub open spec fn with_entry(m: Seq<(Seq<char>, Tree)>, k: Seq<char>, v: Tree) -> Seq<(Seq<char>, Tree)> {
    if key_index_from(m, k, 0) < m.len() {
        m.update(key_index_from(m, k, 0), (k, v))
    } else {
        m.push((k, v))
    }
}

/// The mapping that a compound's fields build, later fields winning.
pub open spec fn mapping_of(fs: Seq<FieldRecord>) -> Seq<(Seq<char>, Tree)>
    decreases fs.len(),
{
    if fs.len() == 0 {
        Seq::empty()
    } else {
        with_entry(mapping_of(fs.drop_last()), fs.last().name, fs.last().value)
    }
}

/// `r` with `p` in front of its sequence.
pub open spec fn prepend<T>(p: Seq<T>, r: Result<Seq<T>, DecodeError>) -> Result<Seq<T>, DecodeError> {
    match r {
        Ok(s) => Ok(p + s),
        Err(e) => Err(e),
    }
}

/// A value of `kind` at `pos`, with `depth` levels of lists and compounds
/// allowed below it.
pub open spec fn value_at(b: Seq<u8>, pos: int, kind: u8, depth: nat) -> Result<(Tree, nat), DecodeError>
    decreases depth, 0nat, 0int,
{
    if is_primitive(kind) {
        if fits(b, pos, width_of(kind)) {
            Ok((primitive_at(b, pos, kind), width_of(kind) as nat))
        } else {
            Err(DecodeError::OutOfBounds)
        }
    } else if kind == TAG_STRING {
        match text_at(b, pos) {
            Ok((t, n)) => Ok((Tree::Text(t), n)),
            Err(e) => Err(e),
        }
    } else if kind == TAG_BYTE_ARRAY || kind == TAG_INT_ARRAY || kind == TAG_LONG_ARRAY {
        match array_at(b, pos, array_element(kind)) {
            Ok((s, n)) => Ok((Tree::Sequence(s), n)),
            Err(e) => Err(e),
        }
    } else if kind == TAG_LIST {
        if depth == 0 {
            Err(DecodeError::DepthExceeded)
        } else {
            match list_at(b, pos, (depth - 1) as nat) {
                Ok((s, n)) => Ok((Tree::Sequence(s), n)),
                Err(e) => Err(e),
            }
        }
    } else if kind == TAG_COMPOUND {
        if depth == 0 {
            Err(DecodeError::DepthExceeded)
        } else {
            match compound_at(b, pos, (depth - 1) as nat) {
                Ok((m, n)) => Ok((Tree::Mapping(m), n)),
                Err(e) => Err(e),
            }
        }
    } else {
        Err(DecodeError::UnknownTag(kind))
    }
}

/// `count` values of `kind` one after another from `pos`, each with the
/// bytes it took.
pub open spec fn elements_at(b: Seq<u8>, pos: int, kind: u8, count: nat, depth: nat) -> Result<
    Seq<(Tree, nat)>,
    DecodeError,
>
    decreases depth, 1nat, count,
{
    if count == 0 {
        Ok(Seq::empty())
    } else {
        match value_at(b, pos, kind, depth) {
            Ok((v, n)) => prepend(seq![(v, n)], elements_at(b, pos + n, kind, (count - 1) as nat, depth)),
            Err(e) => Err(e),
        }
    }
}

/// A 1-byte element kind, a 4-byte signed count, then the elements. A count
/// larger than the bytes left cannot be met, as every value takes a byte.
pub open spec fn list_at(b: Seq<u8>, pos: int, depth: nat) -> Result<(Seq<Tree>, nat), DecodeError>
    decreases depth, 2nat, 0int,
{
    if !fits(b, pos, 5) {
        Err(DecodeError::OutOfBounds)
    } else if int_at(b, pos + 1) < 0 {
        Err(DecodeError::NegativeCount(int_at(b, pos + 1)))
    } else if int_at(b, pos + 1) > b.len() - (pos + 5) {
        Err(DecodeError::OutOfBounds)
    } else {
        match elements_at(b, pos + 5, b[pos], int_at(b, pos + 1) as nat, depth) {
            Ok(es) => Ok((elements_trees(es), 5 + elements_size(es))),
            Err(e) => Err(e),
        }
    }
}

/// The fields of a compound from `pos` up to its End byte, in stream order.
pub open spec fn fields_at(b: Seq<u8>, pos: int, depth: nat) -> Result<Seq<FieldRecord>, DecodeError>
    decreases depth, 1nat, b.len() - pos,
{
    if !fits(b, pos, 1) {
        Err(DecodeError::OutOfBounds)
    } else if b[pos] == TAG_END {
        Ok(Seq::empty())
    } else {
        match text_at(b, pos + 1) {
            Err(e) => Err(e),
            Ok((name, k)) => match value_at(b, pos + 1 + k, b[pos], depth) {
                Err(e) => Err(e),
                Ok((v, n)) => {
                    let f = FieldRecord { name, name_size: k, value: v, value_size: n };
                    // a value never reaches past the buffer; the test keeps
                    // the recursion visibly well-founded
                    if pos + 1 + k + n <= b.len() {
                        prepend(seq![f], fields_at(b, pos + 1 + k + n, depth))
                    } else {
                        Err(DecodeError::OutOfBounds)
                    }
                },
            },
        }
    }
}

/// Fields up to an End byte, then that byte.
pub open spec fn compound_at(b: Seq<u8>, pos: int, depth: nat) -> Result<
    (Seq<(Seq<char>, Tree)>, nat),
    DecodeError,
>
    decreases depth, 2nat, 0int,
{
    match fields_at(b, pos, depth) {
        Ok(fs) => Ok((mapping_of(fs), fields_size(fs) + 1)),
        Err(e) => Err(e),
    }
}

/// A whole document: the root's tag-kind byte and name, then its value.
pub open spec fn document_at(b: Seq<u8>, depth: nat) -> Result<(Tree, nat), DecodeError> {
    if !fits(b, 0, 1) {
        Err(DecodeError::OutOfBounds)
    } else {
        match text_at(b, 1) {
            Err(e) => Err(e),
            Ok((_, k)) => match value_at(b, 1 + k as int, b[0], depth) {
                Ok((v, n)) => Ok((v, (1 + k + n) as nat)),
                Err(e) => Err(e),
            },
        }
    }
}

} // verus!
