//! How a file is written down, and that reading it gives back what was written.

use vstd::prelude::*;
use vstd::utf8::*;

use crate::error::GgufError;
use crate::parser::{
    aligned, array_type, dimensions, entries, entry, file, fixed_value, number, number_at, scalar,
    scalars, string, tensor, tensor_type, tensors, value, width,
};
use crate::types::{
    law_array_type_id_identifies_type, law_type_id_identifies_type, law_type_id_range, FileView,
    Meta, TensorView,
};

verus! {

/// How many numbers `n` bytes can hold.
pub open spec fn range(n: nat) -> nat
    decreases n,
{
    if n == 0 {
        1
    } else {
        256 * range((n - 1) as nat)
    }
}

/// The `n` bytes of a number, the lowest first.
pub open spec fn number_bytes(v: nat, n: nat) -> Seq<u8>
    decreases n,
{
    if n == 0 {
        Seq::empty()
    } else {
        seq![(v % 256) as u8] + number_bytes(v / 256, (n - 1) as nat)
    }
}

/// The number whose two's complement reading is `v`.
pub open spec fn unsigned(v: int, modulus: nat) -> nat {
    if v < 0 {
        (v + modulus) as nat
    } else {
        v as nat
    }
}

/// The bytes of a text: its length in bytes, and its UTF-8.
pub open spec fn text_bytes(s: Seq<char>) -> Seq<u8> {
    number_bytes(encode_utf8(s).len(), 8) + encode_utf8(s)
}

/// Whether the length of a text fits its 64 bits.
pub open spec fn short(s: Seq<char>) -> bool {
    encode_utf8(s).len() < range(8)
}

/// The number that stands for a value of fixed size.
pub open spec fn value_number(v: Meta) -> nat {
    match v {
        Meta::U8(x) => x as nat,
        Meta::I8(x) => unsigned(x as int, 0x100),
        Meta::U16(x) => x as nat,
        Meta::I16(x) => unsigned(x as int, 0x1_0000),
        Meta::U32(x) => x as nat,
        Meta::I32(x) => unsigned(x as int, 0x1_0000_0000),
        Meta::Float32(x) => x as nat,
        Meta::Bool(x) => if x {
            1
        } else {
            0
        },
        Meta::U64(x) => x as nat,
        Meta::I64(x) => unsigned(x as int, 0x1_0000_0000_0000_0000),
        Meta::Float64(x) => x as nat,
        _ => 0,
    }
}

/// The bytes of a value that is no array.
pub open spec fn scalar_bytes(v: Meta) -> Seq<u8> {
    match v {
        Meta::Text(s) => text_bytes(s),
        _ => number_bytes(value_number(v), width(v.spec_type_id())),
    }
}

/// The bytes of the items of an array.
pub open spec fn items_bytes(items: Seq<Meta>) -> Seq<u8>
    decreases items.len(),
{
    if items.len() == 0 {
        Seq::empty()
    } else {
        items_bytes(items.drop_last()) + scalar_bytes(items.last())
    }
}

/// Whether a value that is no array can be written down.
pub open spec fn scalar_writable(v: Meta) -> bool {
    &&& !(v is Array)
    &&& v matches Meta::Text(s) ==> short(s)
}

/// The bytes of a value.
pub open spec fn value_bytes(v: Meta) -> Seq<u8> {
    match v {
        Meta::Array(t, items) => number_bytes(t.spec_id() as nat, 4) + number_bytes(items.len(), 8)
            + items_bytes(items),
        _ => scalar_bytes(v),
    }
}

/// Whether a value can be written down: the items of an array are of its type.
pub open spec fn value_writable(v: Meta) -> bool {
    match v {
        Meta::Array(t, items) => {
            &&& items.len() < range(8)
            &&& forall|i: int|
                0 <= i < items.len() ==> scalar_writable(#[trigger] items[i])
                    && items[i].spec_type_id() == t.spec_id()
        },
        _ => scalar_writable(v),
    }
}

/// The bytes of a metadata entry.
pub open spec fn entry_bytes(key: Seq<char>, v: Meta) -> Seq<u8> {
    text_bytes(key) + number_bytes(v.spec_type_id() as nat, 4) + value_bytes(v)
}

/// The bytes of metadata entries.
pub open spec fn entries_bytes(es: Seq<(Seq<char>, Meta)>) -> Seq<u8>
    decreases es.len(),
{
    if es.len() == 0 {
        Seq::empty()
    } else {
        entries_bytes(es.drop_last()) + entry_bytes(es.last().0, es.last().1)
    }
}

/// The metadata that entries make up: the last one with a key counts.
pub open spec fn metadata_of(es: Seq<(Seq<char>, Meta)>) -> Map<Seq<char>, Meta>
    decreases es.len(),
{
    if es.len() == 0 {
        Map::empty()
    } else {
        metadata_of(es.drop_last()).insert(es.last().0, es.last().1)
    }
}

/// Whether metadata entries can be written down.
pub open spec fn entries_writable(es: Seq<(Seq<char>, Meta)>) -> bool {
    &&& es.len() < range(8)
    &&& forall|i: int| 0 <= i < es.len() ==> short((#[trigger] es[i]).0) && value_writable(es[i].1)
}

/// The bytes of dimensions.
pub open spec fn dimensions_bytes(dims: Seq<u64>) -> Seq<u8>
    decreases dims.len(),
{
    if dims.len() == 0 {
        Seq::empty()
    } else {
        dimensions_bytes(dims.drop_last()) + number_bytes(dims.last() as nat, 8)
    }
}

/// The bytes of a tensor description.
pub open spec fn tensor_bytes(t: TensorView) -> Seq<u8> {
    text_bytes(t.name) + number_bytes(t.n_dims as nat, 4) + dimensions_bytes(t.dims)
        + number_bytes(t.ggml_type.spec_id() as nat, 4) + number_bytes(t.byte_offset as nat, 8)
}

/// The bytes of tensor descriptions.
pub open spec fn tensors_bytes(ts: Seq<TensorView>) -> Seq<u8>
    decreases ts.len(),
{
    if ts.len() == 0 {
        Seq::empty()
    } else {
        tensors_bytes(ts.drop_last()) + tensor_bytes(ts.last())
    }
}

/// Whether tensor descriptions can be written down.
pub open spec fn tensors_writable(ts: Seq<TensorView>) -> bool {
    &&& ts.len() < range(8)
    &&& forall|i: int|
        0 <= i < ts.len() ==> short((#[trigger] ts[i]).name) && ts[i].n_dims == ts[i].dims.len()
}

/// The bytes of a file before its tensor data.
pub open spec fn file_bytes(
    version: u32,
    es: Seq<(Seq<char>, Meta)>,
    ts: Seq<TensorView>,
) -> Seq<u8> {
    seq![0x47u8, 0x47, 0x55, 0x46] + number_bytes(version as nat, 4) + number_bytes(ts.len(), 8)
        + number_bytes(es.len(), 8) + entries_bytes(es) + tensors_bytes(ts)
}

/// Reading gives back what was written: the bytes of a file, whatever follows them,
/// mean its version, its metadata and its tensors, and the tensor data begin at the next
/// multiple of 32.
pub proof fn law_reading_gives_what_was_written(
    version: u32,
    es: Seq<(Seq<char>, Meta)>,
    ts: Seq<TensorView>,
    rest: Seq<u8>,
)
    requires
        2 <= version <= 3,
        entries_writable(es),
        tensors_writable(ts),
    ensures
        file(file_bytes(version, es, ts) + rest) == Ok::<FileView, GgufError>(
            FileView {
                version,
                tensor_count: ts.len() as u64,
                metadata: metadata_of(es),
                tensors: ts,
                data_offset: aligned(file_bytes(version, es, ts).len() as int, 32) as u64,
            },
        ),
{
    let data = file_bytes(version, es, ts) + rest;
    lemma_layout(version, es, ts, rest);
    lemma_range();
    lemma_number(data, 4, version as nat, 4);
    lemma_number(data, 8, ts.len(), 8);
    lemma_number(data, 16, es.len(), 8);
    lemma_entries(data, 24, es);
    lemma_tensors(data, 24 + entries_bytes(es).len() as int, ts);
}

/// Where the parts of a file stand.
proof fn lemma_layout(
    version: u32,
    es: Seq<(Seq<char>, Meta)>,
    ts: Seq<TensorView>,
    rest: Seq<u8>,
)
    ensures
        ({
            let data = file_bytes(version, es, ts) + rest;
            let end = 24 + entries_bytes(es).len() as int;
            &&& data.len() >= 4
            &&& data.take(4) == seq![0x47u8, 0x47, 0x55, 0x46]
            &&& holds(data, 4, number_bytes(version as nat, 4))
            &&& holds(data, 8, number_bytes(ts.len(), 8))
            &&& holds(data, 16, number_bytes(es.len(), 8))
            &&& holds(data, 24, entries_bytes(es))
            &&& holds(data, end, tensors_bytes(ts))
            &&& file_bytes(version, es, ts).len() == end + tensors_bytes(ts).len()
        }),
{
    let whole = file_bytes(version, es, ts);
    let data = whole + rest;
    let magic = seq![0x47u8, 0x47, 0x55, 0x46];
    let a1 = number_bytes(version as nat, 4);
    let a2 = number_bytes(ts.len(), 8);
    let a3 = number_bytes(es.len(), 8);
    let a4 = entries_bytes(es);
    let a5 = tensors_bytes(ts);
    lemma_number_len(version as nat, 4);
    lemma_number_len(ts.len(), 8);
    lemma_number_len(es.len(), 8);
    assert(data.subrange(0, whole.len() as int) =~= whole);
    lemma_parts(data, 0, magic + a1 + a2 + a3 + a4, a5);
    lemma_parts(data, 0, magic + a1 + a2 + a3, a4);
    lemma_parts(data, 0, magic + a1 + a2, a3);
    lemma_parts(data, 0, magic + a1, a2);
    lemma_parts(data, 0, magic, a1);
    assert(data.take(4) =~= data.subrange(0, 4));
}

/// Whether `bytes` stand in `data` from `pos` on.
spec fn holds(data: Seq<u8>, pos: int, bytes: Seq<u8>) -> bool {
    &&& 0 <= pos
    &&& pos + bytes.len() <= data.len()
    &&& data.subrange(pos, pos + bytes.len()) == bytes
}

proof fn lemma_parts(data: Seq<u8>, pos: int, a: Seq<u8>, b: Seq<u8>)
    requires
        holds(data, pos, a + b),
    ensures
        holds(data, pos, a),
        holds(data, pos + a.len(), b),
{
    let whole = data.subrange(pos, pos + (a + b).len());
    assert(data.subrange(pos, pos + a.len()) =~= a) by {
        assert forall|i: int| 0 <= i < a.len() implies data[pos + i] == a[i] by {
            assert(whole[i] == (a + b)[i]);
        }
    }
    assert(data.subrange(pos + a.len(), pos + a.len() + b.len()) =~= b) by {
        assert forall|i: int| 0 <= i < b.len() implies data[pos + a.len() + i] == b[i] by {
            assert(whole[a.len() + i] == (a + b)[a.len() + i]);
        }
    }
}

proof fn lemma_range()
    ensures
        range(1) == 0x100,
        range(2) == 0x1_0000,
        range(4) == 0x1_0000_0000,
        range(8) == 0x1_0000_0000_0000_0000,
{
    reveal_with_fuel(range, 9);
}

proof fn lemma_number_len(v: nat, n: nat)
    ensures
        number_bytes(v, n).len() == n,
    decreases n,
{
    if n > 0 {
        lemma_number_len(v / 256, (n - 1) as nat);
    }
}

proof fn lemma_number(data: Seq<u8>, pos: int, v: nat, n: nat)
    requires
        holds(data, pos, number_bytes(v, n)),
        v < range(n),
    ensures
        number(data, pos, n) == Ok::<(nat, int), GgufError>((v, pos + n)),
        number_at(data, pos, n) == v,
    decreases n,
{
    lemma_number_len(v, n);
    if n > 0 {
        let first = seq![(v % 256) as u8];
        let others = number_bytes(v / 256, (n - 1) as nat);
        lemma_parts(data, pos, first, others);
        lemma_number(data, pos + 1, v / 256, (n - 1) as nat);
        assert(data.subrange(pos, pos + 1)[0] == data[pos]);
    }
}

proof fn lemma_text(data: Seq<u8>, pos: int, s: Seq<char>)
    requires
        holds(data, pos, text_bytes(s)),
        short(s),
    ensures
        string(data, pos) == Ok::<(Seq<char>, int), GgufError>((s, pos + text_bytes(s).len())),
{
    let bytes = encode_utf8(s);
    lemma_number_len(bytes.len(), 8);
    lemma_parts(data, pos, number_bytes(bytes.len(), 8), bytes);
    lemma_number(data, pos, bytes.len(), 8);
    encode_utf8_valid_utf8(s);
    encode_utf8_decode_utf8(s);
}

proof fn lemma_scalar(data: Seq<u8>, pos: int, v: Meta)
    requires
        holds(data, pos, scalar_bytes(v)),
        scalar_writable(v),
    ensures
        scalar(data, pos, v.spec_type_id()) == Ok::<(Meta, int), GgufError>(
            (v, pos + scalar_bytes(v).len()),
        ),
{
    lemma_range();
    match v {
        Meta::Text(s) => {
            lemma_text(data, pos, s);
        },
        _ => {
            let id = v.spec_type_id();
            let n = value_number(v);
            lemma_number_len(n, width(id));
            lemma_number(data, pos, n, width(id));
            assert(fixed_value(id, n) == v);
        },
    }
}

proof fn lemma_items(data: Seq<u8>, pos: int, id: u32, items: Seq<Meta>)
    requires
        holds(data, pos, items_bytes(items)),
        forall|i: int|
            0 <= i < items.len() ==> scalar_writable(#[trigger] items[i])
                && items[i].spec_type_id() == id,
    ensures
        scalars(data, pos, id, items.len()) == Ok::<(Seq<Meta>, int), GgufError>(
            (items, pos + items_bytes(items).len()),
        ),
    decreases items.len(),
{
    if items.len() == 0 {
        assert(items =~= Seq::empty());
    } else {
        let front = items.drop_last();
        lemma_parts(data, pos, items_bytes(front), scalar_bytes(items.last()));
        assert forall|i: int| 0 <= i < front.len() implies scalar_writable(#[trigger] front[i])
            && front[i].spec_type_id() == id by {
            assert(front[i] == items[i]);
        }
        lemma_items(data, pos, id, front);
        assert(scalar_writable(items[items.len() - 1]));
        lemma_scalar(data, pos + items_bytes(front).len(), items.last());
        assert(front.push(items.last()) =~= items);
    }
}

proof fn lemma_value(data: Seq<u8>, pos: int, v: Meta)
    requires
        holds(data, pos, value_bytes(v)),
        value_writable(v),
    ensures
        value(data, pos, v.spec_type_id()) == Ok::<(Meta, int), GgufError>(
            (v, pos + value_bytes(v).len()),
        ),
{
    lemma_range();
    match v {
        Meta::Array(t, items) => {
            let b1 = number_bytes(t.spec_id() as nat, 4);
            let b2 = number_bytes(items.len(), 8);
            lemma_number_len(t.spec_id() as nat, 4);
            lemma_number_len(items.len(), 8);
            lemma_parts(data, pos, b1 + b2, items_bytes(items));
            lemma_parts(data, pos, b1, b2);
            lemma_number(data, pos, t.spec_id() as nat, 4);
            lemma_number(data, pos + 4, items.len(), 8);
            lemma_items(data, pos + 12, t.spec_id(), items);
            law_array_type_id_identifies_type(array_type(t.spec_id()), t);
        },
        _ => {
            lemma_scalar(data, pos, v);
        },
    }
}

proof fn lemma_entry(data: Seq<u8>, pos: int, key: Seq<char>, v: Meta)
    requires
        holds(data, pos, entry_bytes(key, v)),
        short(key),
        value_writable(v),
    ensures
        entry(data, pos) == Ok::<((Seq<char>, Meta), int), GgufError>(
            ((key, v), pos + entry_bytes(key, v).len()),
        ),
{
    lemma_range();
    let id = number_bytes(v.spec_type_id() as nat, 4);
    lemma_number_len(v.spec_type_id() as nat, 4);
    lemma_parts(data, pos, text_bytes(key) + id, value_bytes(v));
    lemma_parts(data, pos, text_bytes(key), id);
    lemma_text(data, pos, key);
    lemma_number(data, pos + text_bytes(key).len(), v.spec_type_id() as nat, 4);
    lemma_value(data, pos + text_bytes(key).len() + 4, v);
}

proof fn lemma_entries(data: Seq<u8>, pos: int, es: Seq<(Seq<char>, Meta)>)
    requires
        holds(data, pos, entries_bytes(es)),
        entries_writable(es),
    ensures
        entries(data, pos, es.len()) == Ok::<(Map<Seq<char>, Meta>, int), GgufError>(
            (metadata_of(es), pos + entries_bytes(es).len()),
        ),
    decreases es.len(),
{
    if es.len() > 0 {
        let front = es.drop_last();
        let (key, v) = es.last();
        assert(short(es[es.len() - 1].0));
        lemma_parts(data, pos, entries_bytes(front), entry_bytes(key, v));
        assert forall|i: int| 0 <= i < front.len() implies short((#[trigger] front[i]).0)
            && value_writable(front[i].1) by {
            assert(front[i] == es[i]);
        }
        lemma_entries(data, pos, front);
        lemma_entry(data, pos + entries_bytes(front).len(), key, v);
    }
}

proof fn lemma_dimensions(data: Seq<u8>, pos: int, dims: Seq<u64>)
    requires
        holds(data, pos, dimensions_bytes(dims)),
    ensures
        dimensions(data, pos, dims.len()) == Ok::<(Seq<u64>, int), GgufError>(
            (dims, pos + dimensions_bytes(dims).len()),
        ),
    decreases dims.len(),
{
    lemma_range();
    if dims.len() == 0 {
        assert(dims =~= Seq::empty());
    } else {
        let front = dims.drop_last();
        let last = dims.last() as nat;
        lemma_number_len(last, 8);
        lemma_parts(data, pos, dimensions_bytes(front), number_bytes(last, 8));
        lemma_dimensions(data, pos, front);
        lemma_number(data, pos + dimensions_bytes(front).len(), last, 8);
        assert(front.push(dims.last()) =~= dims);
    }
}

proof fn lemma_tensor(data: Seq<u8>, pos: int, t: TensorView)
    requires
        holds(data, pos, tensor_bytes(t)),
        short(t.name),
        t.n_dims == t.dims.len(),
    ensures
        tensor(data, pos) == Ok::<(TensorView, int), GgufError>((t, pos + tensor_bytes(t).len())),
{
    lemma_range();
    let id = t.ggml_type.spec_id();
    let b1 = text_bytes(t.name);
    let b2 = number_bytes(t.n_dims as nat, 4);
    let b3 = dimensions_bytes(t.dims);
    let b4 = number_bytes(id as nat, 4);
    let b5 = number_bytes(t.byte_offset as nat, 8);
    lemma_number_len(t.n_dims as nat, 4);
    lemma_number_len(id as nat, 4);
    lemma_number_len(t.byte_offset as nat, 8);
    lemma_parts(data, pos, b1 + b2 + b3 + b4, b5);
    lemma_parts(data, pos, b1 + b2 + b3, b4);
    lemma_parts(data, pos, b1 + b2, b3);
    lemma_parts(data, pos, b1, b2);
    let p1 = pos + b1.len();
    let p3 = p1 + 4 + b3.len();
    lemma_text(data, pos, t.name);
    lemma_number(data, p1, t.n_dims as nat, 4);
    lemma_dimensions(data, p1 + 4, t.dims);
    lemma_number(data, p3, id as nat, 4);
    lemma_number(data, p3 + 4, t.byte_offset as nat, 8);
    law_type_id_range(t.ggml_type);
    law_type_id_identifies_type(tensor_type(id), t.ggml_type);
}

proof fn lemma_tensors(data: Seq<u8>, pos: int, ts: Seq<TensorView>)
    requires
        holds(data, pos, tensors_bytes(ts)),
        tensors_writable(ts),
    ensures
        tensors(data, pos, ts.len()) == Ok::<(Seq<TensorView>, int), GgufError>(
            (ts, pos + tensors_bytes(ts).len()),
        ),
    decreases ts.len(),
{
    if ts.len() == 0 {
        assert(ts =~= Seq::empty());
    } else {
        let front = ts.drop_last();
        assert(short(ts[ts.len() - 1].name));
        lemma_parts(data, pos, tensors_bytes(front), tensor_bytes(ts.last()));
        assert forall|i: int| 0 <= i < front.len() implies short((#[trigger] front[i]).name)
            && front[i].n_dims == front[i].dims.len() by {
            assert(front[i] == ts[i]);
        }
        lemma_tensors(data, pos, front);
        lemma_tensor(data, pos + tensors_bytes(front).len(), ts.last());
        assert(front.push(ts.last()) =~= ts);
    }
}

} // verus!
