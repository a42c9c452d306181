//! Laws of the format that hold for every input: the widths of primitives,
//! and how the sizes of lists and compounds add up from their parts.
use vstd::prelude::*;
use crate::tree::{DecodeError, Tree};
use crate::wire::{
    array_at, array_element, be_u16, compound_at, document_at, elements_at, elements_size,
    field_size, fields_at, fields_size, fits, int_at, is_primitive, list_at, mapping_of, primitive_at,
    text_at, value_at, width_of, FieldRecord, TAG_BYTE_ARRAY, TAG_COMPOUND, TAG_END,
    TAG_INT_ARRAY, TAG_LIST, TAG_LONG_ARRAY, TAG_STRING, key_index_from, with_entry,
};

verus! {

/// A primitive value always takes exactly the fixed width of its kind,
/// whatever the bytes hold.
pub proof fn primitive_width(b: Seq<u8>, pos: int, kind: u8, depth: nat)
    requires
        is_primitive(kind),
        fits(b, pos, width_of(kind)),
    ensures
        value_at(b, pos, kind, depth) is Ok,
        value_at(b, pos, kind, depth)->Ok_0.1 == width_of(kind),
{
}

proof fn lemma_elements_size_append(s: Seq<(Tree, nat)>, t: Seq<(Tree, nat)>)
    ensures
        elements_size(s + t) == elements_size(s) + elements_size(t),
    decreases t.len(),
{
    if t.len() > 0 {
        assert((s + t).drop_last() =~= s + t.drop_last());
        lemma_elements_size_append(s, t.drop_last());
    } else {
        assert(s + t =~= s);
    }
}

proof fn lemma_fields_size_append(s: Seq<FieldRecord>, t: Seq<FieldRecord>)
    ensures
        fields_size(s + t) == fields_size(s) + fields_size(t),
    decreases t.len(),
{
    if t.len() > 0 {
        assert((s + t).drop_last() =~= s + t.drop_last());
        lemma_fields_size_append(s, t.drop_last());
    } else {
        assert(s + t =~= s);
    }
}

/// The elements decoded one after another: each starts where the ones
/// before it end, and each takes the bytes its own decode reports.
proof fn lemma_elements_layout(b: Seq<u8>, p: int, kind: u8, count: nat, depth: nat)
    requires
        elements_at(b, p, kind, count, depth) is Ok,
    ensures
        ({
            let es = elements_at(b, p, kind, count, depth)->Ok_0;
            &&& es.len() == count
            &&& forall|i: int|
                0 <= i < es.len() ==> value_at(b, p + elements_size(#[trigger] es.take(i)), kind, depth)
                    == Ok::<(Tree, nat), DecodeError>(es[i])
        }),
    decreases count,
{
    if count > 0 {
        let es = elements_at(b, p, kind, count, depth)->Ok_0;
        let (v, n) = value_at(b, p, kind, depth)->Ok_0;
        let rest = elements_at(b, p + n, kind, (count - 1) as nat, depth)->Ok_0;
        lemma_elements_layout(b, p + n, kind, (count - 1) as nat, depth);
        assert(es == seq![(v, n)] + rest);
        assert forall|i: int| 0 <= i < es.len() implies value_at(
            b,
            p + elements_size(#[trigger] es.take(i)),
            kind,
            depth,
        ) == Ok::<(Tree, nat), DecodeError>(es[i]) by {
            if i == 0 {
                assert(es.take(0) =~= Seq::<(Tree, nat)>::empty());
            } else {
                let head = seq![(v, n)];
                assert(es.take(i) =~= head + rest.take(i - 1));
                lemma_elements_size_append(head, rest.take(i - 1));
                assert(head.drop_last() =~= Seq::<(Tree, nat)>::empty());
                assert(elements_size(Seq::<(Tree, nat)>::empty()) == 0);
                assert(elements_size(head) == n);
                assert(value_at(b, p + n + elements_size(rest.take(i - 1)), kind, depth) == Ok::<
                    (Tree, nat),
                    DecodeError,
                >(rest[i - 1]));
                assert(es[i] == rest[i - 1]);
            }
        }
    }
}

/// A list takes its element-kind byte and its 4-byte count, then exactly
/// the bytes of its elements, laid back to back; with a count of zero it
/// takes 5 bytes, whatever element kind it names.
pub proof fn list_size(b: Seq<u8>, pos: int, depth: nat)
    requires
        list_at(b, pos, depth) is Ok,
    ensures
        fits(b, pos, 5),
        int_at(b, pos + 1) >= 0,
        ({
            let es = elements_at(b, pos + 5, b[pos], int_at(b, pos + 1) as nat, depth)->Ok_0;
            &&& elements_at(b, pos + 5, b[pos], int_at(b, pos + 1) as nat, depth) is Ok
            &&& es.len() == int_at(b, pos + 1)
            &&& list_at(b, pos, depth)->Ok_0.1 == 5 + elements_size(es)
            &&& forall|i: int|
                0 <= i < es.len() ==> value_at(b, pos + 5 + elements_size(#[trigger] es.take(i)), b[pos], depth)
                    == Ok::<(Tree, nat), DecodeError>(es[i])
        }),
        int_at(b, pos + 1) == 0 ==> list_at(b, pos, depth) == Ok::<(Seq<Tree>, nat), DecodeError>(
            (Seq::empty(), 5),
        ),
{
    lemma_elements_layout(b, pos + 5, b[pos], int_at(b, pos + 1) as nat, depth);
    if int_at(b, pos + 1) == 0 {
        let es = elements_at(b, pos + 5, b[pos], 0, depth)->Ok_0;
        assert(es =~= Seq::<(Tree, nat)>::empty());
        assert(crate::wire::elements_trees(es) =~= Seq::<Tree>::empty());
    }
}

/// Each field of `fs` stands where the fields before it end, from `pos` on.
#[verifier::opaque]
pub open spec fn fields_laid_out(b: Seq<u8>, pos: int, depth: nat, fs: Seq<FieldRecord>) -> bool {
    forall|i: int| 0 <= i < fs.len() ==> field_at(b, pos + fields_size(#[trigger] fs.take(i)), depth, fs[i])
}

/// The fields of a compound, decoded one after another up to the End byte.
proof fn lemma_fields_layout(b: Seq<u8>, pos: int, depth: nat)
    requires
        fields_at(b, pos, depth) is Ok,
    ensures
        ({
            let fs = fields_at(b, pos, depth)->Ok_0;
            &&& fits(b, pos + fields_size(fs), 1)
            &&& b[pos + fields_size(fs)] == TAG_END
            &&& fields_laid_out(b, pos, depth, fs)
        }),
    decreases b.len() - pos,
{
    let fs = fields_at(b, pos, depth)->Ok_0;
    if b[pos] == TAG_END {
        assert(fs =~= Seq::<FieldRecord>::empty());
        reveal(fields_laid_out);
    } else {
        let (name, k) = text_at(b, pos + 1)->Ok_0;
        let (v, n) = value_at(b, pos + 1 + k, b[pos], depth)->Ok_0;
        let f = FieldRecord { name, name_size: k, value: v, value_size: n };
        let next = pos + 1 + k + n;
        let rest = fields_at(b, next, depth)->Ok_0;
        lemma_fields_layout(b, next, depth);
        assert(fs == seq![f] + rest);
        assert(seq![f].drop_last() =~= Seq::<FieldRecord>::empty());
        assert(fields_size(Seq::<FieldRecord>::empty()) == 0);
        assert(fields_size(seq![f]) == 1 + k + n);
        lemma_fields_size_append(seq![f], rest);
        lemma_fields_step(b, pos, depth, f, rest);
    }
}

proof fn lemma_fields_step(b: Seq<u8>, pos: int, depth: nat, f: FieldRecord, rest: Seq<FieldRecord>)
    requires
        field_at(b, pos, depth, f),
        fields_laid_out(b, pos + field_size(f), depth, rest),
    ensures
        fields_laid_out(b, pos, depth, seq![f] + rest),
{
    reveal(fields_laid_out);
    let fs = seq![f] + rest;
    let head = seq![f];
    assert(head.drop_last() =~= Seq::<FieldRecord>::empty());
    assert(fields_size(Seq::<FieldRecord>::empty()) == 0);
    assert(fields_size(head) == field_size(f));
    assert forall|i: int| 0 <= i < fs.len() implies field_at(
        b,
        pos + fields_size(#[trigger] fs.take(i)),
        depth,
        fs[i],
    ) by {
        if i == 0 {
            assert(fs.take(0) =~= Seq::<FieldRecord>::empty());
        } else {
            assert(fs.take(i) =~= head + rest.take(i - 1));
            lemma_fields_size_append(head, rest.take(i - 1));
            assert(field_at(b, pos + field_size(f) + fields_size(rest.take(i - 1)), depth, rest[i - 1]));
            assert(fs[i] == rest[i - 1]);
        }
    }
}

/// Field `f` stands at `at`: its tag-kind byte, its name, then its value.
pub open spec fn field_at(b: Seq<u8>, at: int, depth: nat, f: FieldRecord) -> bool {
    &&& fits(b, at, 1)
    &&& b[at] != TAG_END
    &&& text_at(b, at + 1) == Ok::<(Seq<char>, nat), DecodeError>((f.name, f.name_size))
    &&& value_at(b, at + 1 + f.name_size, b[at], depth) == Ok::<(Tree, nat), DecodeError>(
        (f.value, f.value_size),
    )
}

/// A compound takes, for each field, one tag-kind byte plus the bytes of its
/// name plus the bytes of its value, and one End byte after the last field.
pub proof fn compound_size(b: Seq<u8>, pos: int, depth: nat)
    requires
        compound_at(b, pos, depth) is Ok,
    ensures
        fields_at(b, pos, depth) is Ok,
        ({
            let fs = fields_at(b, pos, depth)->Ok_0;
            &&& compound_at(b, pos, depth) == Ok::<(Seq<(Seq<char>, Tree)>, nat), DecodeError>(
                (mapping_of(fs), fields_size(fs) + 1),
            )
            &&& forall|i: int|
                0 <= i < fs.len() ==> field_at(b, pos + fields_size(#[trigger] fs.take(i)), depth, fs[i])
            &&& b[pos + fields_size(fs)] == TAG_END
        }),
{
    lemma_fields_layout(b, pos, depth);
    reveal(fields_laid_out);
}

proof fn lemma_text_cut(b: Seq<u8>, k: int, pos: int)
    requires
        0 <= k <= b.len(),
        text_at(b, pos) is Ok,
    ensures
        ({
            let n = text_at(b, pos)->Ok_0.1;
            &&& 2 <= n
            &&& pos + n <= b.len()
            &&& pos + n <= k ==> text_at(b.take(k), pos) == text_at(b, pos)
            &&& k < pos + n ==> text_at(b.take(k), pos) is Err
        }),
{
    let t = b.take(k);
    if pos + 2 <= k {
        assert(be_u16(t, pos) == be_u16(b, pos));
        let len = be_u16(b, pos);
        if pos + 2 + len <= k {
            assert(t.subrange(pos + 2, pos + 2 + len) =~= b.subrange(pos + 2, pos + 2 + len));
        }
    }
}

proof fn lemma_array_cut(b: Seq<u8>, k: int, pos: int, elem: u8)
    requires
        0 <= k <= b.len(),
        array_at(b, pos, elem) is Ok,
        elem == crate::wire::TAG_BYTE || elem == crate::wire::TAG_INT || elem == crate::wire::TAG_LONG,
    ensures
        ({
            let n = array_at(b, pos, elem)->Ok_0.1;
            &&& 4 <= n
            &&& pos + n <= b.len()
            &&& pos + n <= k ==> array_at(b.take(k), pos, elem) == array_at(b, pos, elem)
            &&& k < pos + n ==> array_at(b.take(k), pos, elem) is Err
        }),
{
    let t = b.take(k);
    let w = width_of(elem);
    if pos + 4 <= k {
        assert(int_at(t, pos) == int_at(b, pos));
        let c = int_at(b, pos) as int;
        assert(c * w >= 0) by (nonlinear_arith)
            requires
                c >= 0,
                w >= 0,
        ;
        if pos + 4 + c * w <= k {
            assert forall|j: int| 0 <= j < c implies #[trigger] primitive_at(t, pos + 4 + j * w, elem)
                == primitive_at(b, pos + 4 + j * w, elem) by {
                assert(j * w + w <= c * w) by (nonlinear_arith)
                    requires
                        0 <= j < c,
                        w >= 0,
                ;
            }
            assert(Seq::new(c as nat, |j: int| primitive_at(t, pos + 4 + j * w, elem)) =~= Seq::new(
                c as nat,
                |j: int| primitive_at(b, pos + 4 + j * w, elem),
            ));
        }
    }
}

/// What a value decodes to depends on its own bytes only, and cutting the
/// buffer anywhere inside them makes it fault.
proof fn lemma_value_cut(b: Seq<u8>, k: int, pos: int, kind: u8, depth: nat)
    requires
        0 <= k <= b.len(),
        value_at(b, pos, kind, depth) is Ok,
    ensures
        ({
            let n = value_at(b, pos, kind, depth)->Ok_0.1;
            &&& 1 <= n
            &&& pos + n <= b.len()
            &&& pos + n <= k ==> value_at(b.take(k), pos, kind, depth) == value_at(b, pos, kind, depth)
            &&& k < pos + n ==> value_at(b.take(k), pos, kind, depth) is Err
        }),
    decreases depth, 0nat, 0int,
{
    let t = b.take(k);
    if is_primitive(kind) {
        if pos + width_of(kind) <= k {
            assert(primitive_at(t, pos, kind) == primitive_at(b, pos, kind));
        }
    } else if kind == TAG_STRING {
        lemma_text_cut(b, k, pos);
    } else if kind == TAG_BYTE_ARRAY || kind == TAG_INT_ARRAY || kind == TAG_LONG_ARRAY {
        lemma_array_cut(b, k, pos, array_element(kind));
    } else if kind == TAG_LIST {
        lemma_list_cut(b, k, pos, (depth - 1) as nat);
    } else if kind == TAG_COMPOUND {
        lemma_compound_cut(b, k, pos, (depth - 1) as nat);
    }
}

proof fn lemma_elements_cut(b: Seq<u8>, k: int, p: int, kind: u8, count: nat, depth: nat)
    requires
        0 <= k <= b.len(),
        elements_at(b, p, kind, count, depth) is Ok,
    ensures
        ({
            let es = elements_at(b, p, kind, count, depth)->Ok_0;
            &&& es.len() == count
            &&& count <= elements_size(es)
            &&& p + elements_size(es) <= b.len() || count == 0
            &&& p + elements_size(es) <= k ==> elements_at(b.take(k), p, kind, count, depth)
                == elements_at(b, p, kind, count, depth)
            &&& 0 < count && k < p + elements_size(es) ==> elements_at(b.take(k), p, kind, count, depth) is Err
        }),
    decreases depth, 1nat, count,
{
    if count > 0 {
        let es = elements_at(b, p, kind, count, depth)->Ok_0;
        let (v, n) = value_at(b, p, kind, depth)->Ok_0;
        let rest = elements_at(b, p + n, kind, (count - 1) as nat, depth)->Ok_0;
        lemma_value_cut(b, k, p, kind, depth);
        lemma_elements_cut(b, k, p + n, kind, (count - 1) as nat, depth);
        assert(es == seq![(v, n)] + rest);
        assert(seq![(v, n)].drop_last() =~= Seq::<(Tree, nat)>::empty());
        assert(elements_size(Seq::<(Tree, nat)>::empty()) == 0);
        lemma_elements_size_append(seq![(v, n)], rest);
        assert(elements_size(seq![(v, n)]) == n);
        if count == 1 {
            assert(rest =~= Seq::<(Tree, nat)>::empty());
        }
    } else {
        assert(elements_at(b, p, kind, count, depth)->Ok_0 =~= Seq::<(Tree, nat)>::empty());
    }
}

proof fn lemma_list_cut(b: Seq<u8>, k: int, pos: int, depth: nat)
    requires
        0 <= k <= b.len(),
        list_at(b, pos, depth) is Ok,
    ensures
        ({
            let n = list_at(b, pos, depth)->Ok_0.1;
            &&& 5 <= n
            &&& pos + n <= b.len()
            &&& pos + n <= k ==> list_at(b.take(k), pos, depth) == list_at(b, pos, depth)
            &&& k < pos + n ==> list_at(b.take(k), pos, depth) is Err
        }),
    decreases depth, 2nat, 0int,
{
    let t = b.take(k);
    let c = int_at(b, pos + 1) as nat;
    lemma_elements_cut(b, k, pos + 5, b[pos], c, depth);
    if pos + 5 <= k {
        assert(int_at(t, pos + 1) == int_at(b, pos + 1));
        assert(t[pos] == b[pos]);
    }
}

proof fn lemma_fields_cut(b: Seq<u8>, k: int, pos: int, depth: nat)
    requires
        0 <= k <= b.len(),
        fields_at(b, pos, depth) is Ok,
    ensures
        ({
            let fs = fields_at(b, pos, depth)->Ok_0;
            &&& pos + fields_size(fs) + 1 <= b.len()
            &&& pos + fields_size(fs) + 1 <= k ==> fields_at(b.take(k), pos, depth) == fields_at(b, pos, depth)
            &&& k < pos + fields_size(fs) + 1 ==> fields_at(b.take(k), pos, depth) is Err
        }),
    decreases depth, 1nat, b.len() - pos,
{
    let t = b.take(k);
    let fs = fields_at(b, pos, depth)->Ok_0;
    if b[pos] == TAG_END {
        assert(fs =~= Seq::<FieldRecord>::empty());
        assert(fields_size(fs) == 0);
    } else {
        let (name, kn) = text_at(b, pos + 1)->Ok_0;
        let (v, n) = value_at(b, pos + 1 + kn, b[pos], depth)->Ok_0;
        let f = FieldRecord { name, name_size: kn, value: v, value_size: n };
        let next = pos + 1 + kn + n;
        let rest = fields_at(b, next, depth)->Ok_0;
        lemma_text_cut(b, k, pos + 1);
        lemma_value_cut(b, k, pos + 1 + kn, b[pos], depth);
        lemma_fields_cut(b, k, next, depth);
        assert(fs == seq![f] + rest);
        assert(seq![f].drop_last() =~= Seq::<FieldRecord>::empty());
        assert(fields_size(Seq::<FieldRecord>::empty()) == 0);
        assert(fields_size(seq![f]) == 1 + kn + n);
        lemma_fields_size_append(seq![f], rest);
        if pos < k {
            assert(t[pos] == b[pos]);
        }
    }
}

proof fn lemma_compound_cut(b: Seq<u8>, k: int, pos: int, depth: nat)
    requires
        0 <= k <= b.len(),
        compound_at(b, pos, depth) is Ok,
    ensures
        ({
            let n = compound_at(b, pos, depth)->Ok_0.1;
            &&& 1 <= n
            &&& pos + n <= b.len()
            &&& pos + n <= k ==> compound_at(b.take(k), pos, depth) == compound_at(b, pos, depth)
            &&& k < pos + n ==> compound_at(b.take(k), pos, depth) is Err
        }),
    decreases depth, 2nat, 0int,
{
    lemma_fields_cut(b, k, pos, depth);
}

/// A document cut short anywhere before its last byte faults: decoding never
/// returns a smaller tree for a truncated buffer.
pub proof fn truncated_document_faults(b: Seq<u8>, k: int, depth: nat)
    requires
        document_at(b, depth) is Ok,
        0 <= k < document_at(b, depth)->Ok_0.1,
    ensures
        k <= b.len(),
        document_at(b.take(k), depth) is Err,
{
    let t = b.take(k);
    let (_, kn) = text_at(b, 1)->Ok_0;
    lemma_text_cut(b, b.len() as int, 1);
    lemma_value_cut(b, b.len() as int, 1 + kn as int, b[0], depth);
    lemma_text_cut(b, k, 1);
    lemma_value_cut(b, k, 1 + kn as int, b[0], depth);
    if 0 < k {
        assert(t[0] == b[0]);
    }
}

/// A value cut short anywhere inside its bytes faults.
pub proof fn truncated_value_faults(b: Seq<u8>, k: int, pos: int, kind: u8, depth: nat)
    requires
        value_at(b, pos, kind, depth) is Ok,
        0 <= k < pos + value_at(b, pos, kind, depth)->Ok_0.1,
        k <= b.len(),
    ensures
        value_at(b.take(k), pos, kind, depth) is Err,
{
    lemma_value_cut(b, k, pos, kind, depth);
}

/// No two entries of `m` share a key.
pub open spec fn keys_unique(m: Seq<(Seq<char>, Tree)>) -> bool {
    forall|i: int, j: int| 0 <= i < j < m.len() ==> #[trigger] m[i].0 != #[trigger] m[j].0
}

proof fn lemma_key_index(m: Seq<(Seq<char>, Tree)>, k: Seq<char>, j: int)
    requires
        0 <= j <= m.len(),
    ensures
        ({
            let x = key_index_from(m, k, j);
            &&& j <= x <= m.len()
            &&& x < m.len() ==> m[x].0 == k
            &&& forall|i: int| j <= i < x ==> #[trigger] m[i].0 != k
        }),
    decreases m.len() - j,
{
    if j < m.len() && m[j].0 != k {
        lemma_key_index(m, k, j + 1);
    }
}

proof fn lemma_with_entry(m: Seq<(Seq<char>, Tree)>, k: Seq<char>, v: Tree)
    requires
        keys_unique(m),
    ensures
        keys_unique(with_entry(m, k, v)),
        exists|i: int| 0 <= i < with_entry(m, k, v).len() && #[trigger] with_entry(m, k, v)[i] == (k, v),
{
    lemma_key_index(m, k, 0);
    let x = key_index_from(m, k, 0);
    let r = with_entry(m, k, v);
    assert(r[x] == (k, v));
}

/// The mapping built from any run of fields has unique keys, and holds the
/// last field under its name with that field's value.
proof fn lemma_mapping_of(fs: Seq<FieldRecord>)
    ensures
        keys_unique(mapping_of(fs)),
        fs.len() > 0 ==> exists|i: int|
            0 <= i < mapping_of(fs).len() && #[trigger] mapping_of(fs)[i] == (fs.last().name, fs.last().value),
    decreases fs.len(),
{
    if fs.len() > 0 {
        lemma_mapping_of(fs.drop_last());
        lemma_with_entry(mapping_of(fs.drop_last()), fs.last().name, fs.last().value);
    }
}

/// A decoded compound never holds two entries under one name, and the last
/// field in the stream under a name gives that name's value.
pub proof fn compound_keys_unique(b: Seq<u8>, pos: int, depth: nat)
    requires
        compound_at(b, pos, depth) is Ok,
    ensures
        keys_unique(compound_at(b, pos, depth)->Ok_0.0),
        ({
            let fs = fields_at(b, pos, depth)->Ok_0;
            let m = compound_at(b, pos, depth)->Ok_0.0;
            fs.len() > 0 ==> exists|i: int| 0 <= i < m.len() && #[trigger] m[i] == (fs.last().name, fs.last().value)
        }),
{
    lemma_mapping_of(fields_at(b, pos, depth)->Ok_0);
}

} // verus!
