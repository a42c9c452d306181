//! The structural decoder: arrays, lists, compounds, the tag dispatch that
//! ties them together, and the document framing.
use vstd::prelude::*;
use crate::primitive::{
    read_tag_byte, read_tag_double, read_tag_float, read_tag_int, read_tag_long, read_tag_short,
    read_tag_string,
};
use crate::tree::{
    entries_of, entries_result, tree_result, trees_of, trees_result, DecodeError, Tree, Value,
};
use crate::wire::{
    array_at, compound_at, document_at, elements_at, elements_size, elements_trees,
    fields_at, fields_size, fits, int_at, key_index_from, list_at, mapping_of, prepend,
    primitive_at, value_at, width_of, with_entry, FieldRecord, TAG_BYTE, TAG_BYTE_ARRAY,
    TAG_COMPOUND, TAG_DOUBLE, TAG_END, TAG_FLOAT, TAG_INT, TAG_INT_ARRAY, TAG_LIST, TAG_LONG,
    TAG_LONG_ARRAY, TAG_SHORT, TAG_STRING,
};

verus! {

/// The nesting of lists and compounds that `decode_nbt_data` allows.
pub const DEFAULT_MAX_DEPTH: usize = 512;

proof fn lemma_prepend_push<T>(p: Seq<T>, x: T, r: Result<Seq<T>, DecodeError>)
    ensures
        prepend(p, prepend(seq![x], r)) == prepend(p.push(x), r),
{
    match r {
        Ok(s) => {
            assert(p + (seq![x] + s) =~= p.push(x) + s);
        },
        Err(_) => {},
    }
}

proof fn lemma_view_sequence(vs: Vec<Value>)
    ensures
        Value::Sequence(vs)@ == Tree::Sequence(trees_of(vs@)),
{
    reveal_with_fuel(<Value as View>::view, 2);
    match Value::Sequence(vs)@ {
        Tree::Sequence(s) => {
            assert(s.len() == vs@.len());
            assert(forall|i: int| 0 <= i < s.len() ==> s[i] == #[trigger] vs@[i]@);
            assert(s =~= trees_of(vs@));
        },
        _ => {},
    }
}

proof fn lemma_view_mapping(fs: Vec<(String, Value)>)
    ensures
        Value::Mapping(fs)@ == Tree::Mapping(entries_of(fs@)),
{
    reveal_with_fuel(<Value as View>::view, 2);
    match Value::Mapping(fs)@ {
        Tree::Mapping(m) => {
            assert(m.len() == fs@.len());
            assert(forall|i: int| 0 <= i < m.len() ==> m[i] == (#[trigger] fs@[i].0@, fs@[i].1@));
            assert(m =~= entries_of(fs@));
        },
        _ => {},
    }
}

/// Homogeneous array of primitives of kind `elem`: a 4-byte count, then
/// the elements. The count is checked against the bytes left first.
fn read_array(data: &Vec<u8>, pos: usize, elem: u8) -> (r: Result<(Vec<Value>, usize), DecodeError>)
    requires
        elem == TAG_BYTE || elem == TAG_INT || elem == TAG_LONG,
    ensures
        trees_result(r) == array_at(data@, pos as int, elem),
        r matches Ok((_, n)) ==> pos + n <= data@.len(),
{
    let total = data.len();
    let count = match read_tag_int(data, pos) {
        Ok((c, _)) => c,
        Err(e) => return Err(e),
    };
    if count < 0 {
        return Err(DecodeError::NegativeCount(count));
    }
    let w: usize = if elem == TAG_BYTE {
        1
    } else if elem == TAG_INT {
        4
    } else {
        8
    };
    assert(w as int == width_of(elem));
    let c = count as usize;
    let start = pos + 4;
    let rem = total - start;
    if c > rem / w {
        proof {
            assert(c * w > rem) by (nonlinear_arith)
                requires
                    c > rem / w,
                    w > 0,
            ;
        }
        return Err(DecodeError::OutOfBounds);
    }
    proof {
        assert(c * w <= rem) by (nonlinear_arith)
            requires
                c <= rem / w,
                w > 0,
        ;
    }
    let mut vs: Vec<Value> = Vec::new();
    let mut k: usize = 0;
    let mut p: usize = start;
    while k < c
        invariant
            total == data@.len(),
            fits(data@, pos as int, 4),
            c == int_at(data@, pos as int),
            w as int == width_of(elem),
            w > 0,
            elem == TAG_BYTE || elem == TAG_INT || elem == TAG_LONG,
            start == pos + 4,
            start + c * w <= data@.len(),
            k <= c,
            p == start + k * w,
            vs@.len() == k,
            forall|j: int| 0 <= j < k ==> #[trigger] vs@[j]@ == primitive_at(data@, start + j * w, elem),
        decreases c - k,
    {
        proof {
            assert(p + w <= start + c * w) by (nonlinear_arith)
                requires
                    p == start + k * w,
                    k < c,
                    w > 0,
            ;
        }
        let v = if elem == TAG_BYTE {
            match read_tag_byte(data, p) {
                Ok((b, _)) => Value::Byte(b),
                Err(e) => return Err(e),
            }
        } else if elem == TAG_INT {
            match read_tag_int(data, p) {
                Ok((i, _)) => Value::Int(i),
                Err(e) => return Err(e),
            }
        } else {
            match read_tag_long(data, p) {
                Ok((l, _)) => Value::Long(l),
                Err(e) => return Err(e),
            }
        };
        assert(v@ == primitive_at(data@, p as int, elem));
        vs.push(v);
        proof {
            assert(p + w == start + (k + 1) * w) by (nonlinear_arith)
                requires
                    p == start + k * w,
            ;
        }
        p = p + w;
        k = k + 1;
    }
    assert(trees_of(vs@) =~= Seq::new(
        c as nat,
        |j: int| primitive_at(data@, pos as int + 4 + j * width_of(elem), elem),
    ));
    Ok((vs, 4 + c * w))
}

/// An array of signed bytes.
pub fn read_tag_byte_array(data: &Vec<u8>, pos: usize) -> (r: Result<(Vec<Value>, usize), DecodeError>)
    ensures
        trees_result(r) == array_at(data@, pos as int, TAG_BYTE),
        r matches Ok((_, n)) ==> pos + n <= data@.len(),
{
    read_array(data, pos, TAG_BYTE)
}

/// An array of 32-bit integers.
pub fn read_tag_int_array(data: &Vec<u8>, pos: usize) -> (r: Result<(Vec<Value>, usize), DecodeError>)
    ensures
        trees_result(r) == array_at(data@, pos as int, TAG_INT),
        r matches Ok((_, n)) ==> pos + n <= data@.len(),
{
    read_array(data, pos, TAG_INT)
}

/// An array of 64-bit integers.
pub fn read_tag_long_array(data: &Vec<u8>, pos: usize) -> (r: Result<(Vec<Value>, usize), DecodeError>)
    ensures
        trees_result(r) == array_at(data@, pos as int, TAG_LONG),
        r matches Ok((_, n)) ==> pos + n <= data@.len(),
{
    read_array(data, pos, TAG_LONG)
}

/// A list: element kind, count, then the elements, each decoded through the
/// tag dispatch with `depth` further levels of nesting allowed.
pub fn read_tag_list(data: &Vec<u8>, pos: usize, depth: usize) -> (r: Result<(Vec<Value>, usize), DecodeError>)
    ensures
        trees_result(r) == list_at(data@, pos as int, depth as nat),
        r matches Ok((_, n)) ==> pos + n <= data@.len(),
    decreases depth, 1nat,
{
    let total = data.len();
    if pos > total || total - pos < 5 {
        return Err(DecodeError::OutOfBounds);
    }
    let kind = data[pos];
    let count = match read_tag_int(data, pos + 1) {
        Ok((c, _)) => c,
        Err(e) => return Err(e),
    };
    if count < 0 {
        return Err(DecodeError::NegativeCount(count));
    }
    let start = pos + 5;
    let c = count as usize;
    if c > total - start {
        return Err(DecodeError::OutOfBounds);
    }
    let mut vs: Vec<Value> = Vec::new();
    let mut k: usize = 0;
    let mut p: usize = start;
    let ghost prefix: Seq<(Tree, nat)> = Seq::empty();
    assert(elements_at(data@, start as int, kind, c as nat, depth as nat) == prepend(
        prefix,
        elements_at(data@, p as int, kind, (c - k) as nat, depth as nat),
    )) by {
        match elements_at(data@, start as int, kind, c as nat, depth as nat) {
            Ok(s) => assert(prefix + s =~= s),
            Err(_) => {},
        }
    }
    while k < c
        invariant
            total == data@.len(),
            fits(data@, pos as int, 5),
            kind == data@[pos as int],
            c as int == int_at(data@, pos + 1),
            c <= total - start,
            start == pos + 5,
            start <= p <= total,
            k <= c,
            prefix.len() == k,
            p == start + elements_size(prefix),
            trees_of(vs@) == elements_trees(prefix),
            elements_at(data@, start as int, kind, c as nat, depth as nat) == prepend(
                prefix,
                elements_at(data@, p as int, kind, (c - k) as nat, depth as nat),
            ),
        decreases c - k,
    {
        match decode_tag(data, p, kind, depth) {
            Err(e) => {
                return Err(e);
            },
            Ok((v, n)) => {
                proof {
                    let rest = elements_at(data@, p + n, kind, (c - k - 1) as nat, depth as nat);
                    lemma_prepend_push(prefix, (v@, n as nat), rest);
                    let np = prefix.push((v@, n as nat));
                    assert(np.drop_last() =~= prefix);
                    assert(elements_trees(np) =~= elements_trees(prefix).push(v@));
                    assert(trees_of(vs@.push(v)) =~= trees_of(vs@).push(v@));
                    prefix = np;
                }
                vs.push(v);
                p = p + n;
                k = k + 1;
            },
        }
    }
    assert(prepend(prefix, Ok::<Seq<(Tree, nat)>, DecodeError>(Seq::empty())) == Ok::<
        Seq<(Tree, nat)>,
        DecodeError,
    >(prefix)) by {
        assert(prefix + Seq::<(Tree, nat)>::empty() =~= prefix);
    }
    Ok((vs, p - pos))
}

/// The first index in `fs` whose key is `name`, or `fs.len()`.
fn find_key(fs: &Vec<(String, Value)>, name: &String) -> (j: usize)
    ensures
        j as int == key_index_from(entries_of(fs@), name@, 0),
{
    let ghost m = entries_of(fs@);
    let mut j: usize = 0;
    while j < fs.len()
        invariant
            m == entries_of(fs@),
            j <= fs@.len(),
            key_index_from(m, name@, 0) == key_index_from(m, name@, j as int),
        decreases fs.len() - j,
    {
        if fs[j].0 == *name {
            return j;
        }
        j = j + 1;
    }
    j
}

/// A compound: named fields up to an End byte. A later field under a name
/// already present replaces that entry's value in place.
pub fn read_tag_compound(data: &Vec<u8>, pos: usize, depth: usize) -> (r: Result<
    (Vec<(String, Value)>, usize),
    DecodeError,
>)
    ensures
        entries_result(r) == compound_at(data@, pos as int, depth as nat),
        r matches Ok((_, n)) ==> pos + n <= data@.len(),
    decreases depth, 1nat,
{
    let total = data.len();
    let mut fs: Vec<(String, Value)> = Vec::new();
    let mut cur: usize = pos;
    let ghost prefix: Seq<FieldRecord> = Seq::empty();
    assert(fields_at(data@, pos as int, depth as nat) == prepend(
        prefix,
        fields_at(data@, cur as int, depth as nat),
    )) by {
        match fields_at(data@, pos as int, depth as nat) {
            Ok(s) => assert(prefix + s =~= s),
            Err(_) => {},
        }
    }
    loop
        invariant
            total == data@.len(),
            pos <= cur,
            cur == pos + fields_size(prefix),
            entries_of(fs@) == mapping_of(prefix),
            fields_at(data@, pos as int, depth as nat) == prepend(
                prefix,
                fields_at(data@, cur as int, depth as nat),
            ),
        decreases total - cur,
    {
        if cur >= total {
            return Err(DecodeError::OutOfBounds);
        }
        let tag = data[cur];
        if tag == TAG_END {
            assert(prefix + Seq::<FieldRecord>::empty() =~= prefix);
            return Ok((fs, cur + 1 - pos));
        }
        let (name, k) = match read_tag_string(data, cur + 1) {
            Ok(t) => t,
            Err(e) => return Err(e),
        };
        let (value, n) = match decode_tag(data, cur + 1 + k, tag, depth) {
            Ok(t) => t,
            Err(e) => return Err(e),
        };
        let ghost f = FieldRecord { name: name@, name_size: k as nat, value: value@, value_size: n as nat };
        let ghost old_m = entries_of(fs@);
        let j = find_key(&fs, &name);
        if j < fs.len() {
            fs.set(j, (name, value));
        } else {
            fs.push((name, value));
        }
        proof {
            assert(entries_of(fs@) =~= with_entry(old_m, f.name, f.value));
            let np = prefix.push(f);
            assert(np.drop_last() =~= prefix);
            lemma_prepend_push(prefix, f, fields_at(data@, cur + 1 + k + n, depth as nat));
            prefix = np;
        }
        cur = cur + 1 + k + n;
    }
}

/// The tag dispatch: the value of `kind` at `pos`. Lists and compounds take
/// one level of `depth`; at zero they fault rather than recurse.
pub fn decode_tag(data: &Vec<u8>, pos: usize, kind: u8, depth: usize) -> (r: Result<(Value, usize), DecodeError>)
    ensures
        tree_result(r) == value_at(data@, pos as int, kind, depth as nat),
        r matches Ok((_, n)) ==> pos + n <= data@.len(),
    decreases depth, 0nat,
{
    if kind == TAG_BYTE {
        match read_tag_byte(data, pos) {
            Ok((v, n)) => Ok((Value::Byte(v), n)),
            Err(e) => Err(e),
        }
    } else if kind == TAG_SHORT {
        match read_tag_short(data, pos) {
            Ok((v, n)) => Ok((Value::Short(v), n)),
            Err(e) => Err(e),
        }
    } else if kind == TAG_INT {
        match read_tag_int(data, pos) {
            Ok((v, n)) => Ok((Value::Int(v), n)),
            Err(e) => Err(e),
        }
    } else if kind == TAG_LONG {
        match read_tag_long(data, pos) {
            Ok((v, n)) => Ok((Value::Long(v), n)),
            Err(e) => Err(e),
        }
    } else if kind == TAG_FLOAT {
        match read_tag_float(data, pos) {
            Ok((v, n)) => Ok((Value::Float(v), n)),
            Err(e) => Err(e),
        }
    } else if kind == TAG_DOUBLE {
        match read_tag_double(data, pos) {
            Ok((v, n)) => Ok((Value::Double(v), n)),
            Err(e) => Err(e),
        }
    } else if kind == TAG_STRING {
        match read_tag_string(data, pos) {
            Ok((s, n)) => Ok((Value::Text(s), n)),
            Err(e) => Err(e),
        }
    } else if kind == TAG_BYTE_ARRAY || kind == TAG_INT_ARRAY || kind == TAG_LONG_ARRAY {
        let res = if kind == TAG_BYTE_ARRAY {
            read_tag_byte_array(data, pos)
        } else if kind == TAG_INT_ARRAY {
            read_tag_int_array(data, pos)
        } else {
            read_tag_long_array(data, pos)
        };
        match res {
            Ok((vs, n)) => {
                proof {
                    lemma_view_sequence(vs);
                }
                Ok((Value::Sequence(vs), n))
            },
            Err(e) => Err(e),
        }
    } else if kind == TAG_LIST {
        if depth == 0 {
            return Err(DecodeError::DepthExceeded);
        }
        match read_tag_list(data, pos, depth - 1) {
            Ok((vs, n)) => {
                proof {
                    lemma_view_sequence(vs);
                }
                Ok((Value::Sequence(vs), n))
            },
            Err(e) => Err(e),
        }
    } else if kind == TAG_COMPOUND {
        if depth == 0 {
            return Err(DecodeError::DepthExceeded);
        }
        match read_tag_compound(data, pos, depth - 1) {
            Ok((fs, n)) => {
                proof {
                    lemma_view_mapping(fs);
                }
                Ok((Value::Mapping(fs), n))
            },
            Err(e) => Err(e),
        }
    } else {
        Err(DecodeError::UnknownTag(kind))
    }
}

/// A whole document: the root's tag-kind byte and name, then its value,
/// with `max_depth` levels of lists and compounds allowed. Returns the
/// root's value and the bytes the document took; bytes after it are left
/// unread.
pub fn decode_document(data: &Vec<u8>, max_depth: usize) -> (r: Result<(Value, usize), DecodeError>)
    ensures
        tree_result(r) == document_at(data@, max_depth as nat),
        r matches Ok((_, n)) ==> n <= data@.len(),
{
    if data.len() == 0 {
        return Err(DecodeError::OutOfBounds);
    }
    let kind = data[0];
    let (_, k) = match read_tag_string(data, 1) {
        Ok(t) => t,
        Err(e) => return Err(e),
    };
    match decode_tag(data, 1 + k, kind, max_depth) {
        Ok((v, n)) => Ok((v, 1 + k + n)),
        Err(e) => Err(e),
    }
}

/// Decodes a document with the default nesting limit and returns the
/// root's value: for the usual root compound, the mapping of its fields.
pub fn decode_nbt_data(data: &Vec<u8>) -> (r: Result<Value, DecodeError>)
    ensures
        match r {
            Ok(v) => document_at(data@, DEFAULT_MAX_DEPTH as nat) is Ok && v@ == document_at(
                data@,
                DEFAULT_MAX_DEPTH as nat,
            )->Ok_0.0,
            Err(e) => document_at(data@, DEFAULT_MAX_DEPTH as nat) == Err::<(Tree, nat), DecodeError>(e),
        },
{
    match decode_document(data, DEFAULT_MAX_DEPTH) {
        Ok((v, _)) => Ok(v),
        Err(e) => Err(e),
    }
}

} // verus!
