//! The decoded tree, its mathematical model, and the decoding faults.
use vstd::prelude::*;

verus! {

broadcast use vstd::std_specs::vec::group_vec_axioms;

/// A fault that stops a decode. No partial tree is ever returned.
#[derive(Clone, Copy, Debug, PartialEq, Eq, Structural)]
pub enum DecodeError {
    /// Fewer bytes remain than a value, a length or a count needs.
    OutOfBounds,
    /// A string payload is not valid UTF-8.
    InvalidUtf8,
    /// A tag-kind identifier outside the closed set of value kinds.
    UnknownTag(u8),
    /// An array or list declares a negative element count.
    NegativeCount(i32),
    /// Lists and compounds are nested deeper than the decode allows.
    DepthExceeded,
}

/// A decoded value. Floats are kept as their IEEE-754 bit patterns, so the
/// tree holds exactly the bits that were read.
#[derive(Debug, PartialEq)]
pub enum Value {
    Byte(i8),
    Short(i16),
    Int(i32),
    Long(i64),
    /// The bits of a single-precision float.
    Float(u32),
    /// The bits of a double-precision float.
    Double(u64),
    Text(String),
    /// The elements of an array or a list, in stream order.
    Sequence(Vec<Value>),
    /// The fields of a compound: keys unique, in order of first appearance.
    Mapping(Vec<(String, Value)>),
}

/// The mathematical model of a `Value`.
pub enum Tree {
    Byte(i8),
    Short(i16),
    Int(i32),
    Long(i64),
    Float(u32),
    Double(u64),
    Text(Seq<char>),
    Sequence(Seq<Tree>),
    Mapping(Seq<(Seq<char>, Tree)>),
}

impl View for Value {
    type V = Tree;

    open spec fn view(&self) -> Tree
        decreases self,
    {
        match self {
            Value::Byte(b) => Tree::Byte(*b),
            Value::Short(s) => Tree::Short(*s),
            Value::Int(i) => Tree::Int(*i),
            Value::Long(l) => Tree::Long(*l),
            Value::Float(f) => Tree::Float(*f),
            Value::Double(d) => Tree::Double(*d),
            Value::Text(t) => Tree::Text(t@),
            Value::Sequence(vs) => Tree::Sequence(
                Seq::new(vs.len() as nat, |i: int| if 0 <= i < vs.len() { vs[i].view() } else { Tree::Byte(0) }),
            ),
            Value::Mapping(fs) => Tree::Mapping(
                Seq::new(fs.len() as nat, |i: int| if 0 <= i < fs.len() { (fs[i].0@, fs[i].1.view()) } else { (Seq::empty(), Tree::Byte(0)) }),
            ),
        }
    }
}

/// The models of a sequence of values.
pub open spec fn trees_of(vs: Seq<Value>) -> Seq<Tree> {
    Seq::new(vs.len(), |i: int| vs[i]@)
}

/// The models of a compound's entries.
pub open spec fn entries_of(fs: Seq<(String, Value)>) -> Seq<(Seq<char>, Tree)> {
    Seq::new(fs.len(), |i: int| (fs[i].0@, fs[i].1@))
}

/// The model of a reader's result.
pub open spec fn tree_result(r: Result<(Value, usize), DecodeError>) -> Result<(Tree, nat), DecodeError> {
    match r {
        Ok((v, n)) => Ok((v@, n as nat)),
        Err(e) => Err(e),
    }
}

/// The model of a sequence reader's result.
pub open spec fn trees_result(r: Result<(Vec<Value>, usize), DecodeError>) -> Result<(Seq<Tree>, nat), DecodeError> {
    match r {
        Ok((vs, n)) => Ok((trees_of(vs@), n as nat)),
        Err(e) => Err(e),
    }
}

/// The model of a compound reader's result.
pub open spec fn entries_result(r: Result<(Vec<(String, Value)>, usize), DecodeError>) -> Result<
    (Seq<(Seq<char>, Tree)>, nat),
    DecodeError,
> {
    match r {
        Ok((fs, n)) => Ok((entries_of(fs@), n as nat)),
        Err(e) => Err(e),
    }
}

} // verus!
