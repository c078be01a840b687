//! A tensor as a whole and its rows: decoding the one gives the others, one after the
//! other.

use vstd::arithmetic::div_mod::lemma_fundamental_div_mod_converse;
use vstd::prelude::*;

use crate::model::weights::{row_ok, whole_decodable, whole_ok};
use crate::parser::number_at;
use crate::quant::block::{lemma_half_shifts, Element};
use crate::quant::{
    decodable, elements_of, holds_row, law_decoded_row_holds_the_values, q2_k, q4_k, q5_0, q5_k,
    q6_k, q8_0, Row,
};
use crate::types::{product, GgmlType, TensorView};

verus! {

/// The product of dimensions, with the first one taken out.
proof fn lemma_product_first(dims: Seq<u64>)
    requires
        dims.len() > 0,
    ensures
        product(dims) == dims[0] * product(dims.skip(1)),
    decreases dims.len(),
{
    let rest = dims.skip(1);
    let a = dims[0] as int;
    if dims.len() == 1 {
        assert(dims.drop_last() =~= Seq::empty());
        assert(rest =~= Seq::empty());
        assert(product(Seq::empty()) == 1);
        assert(product(dims) == 1 * a);
        assert(a * 1 == a);
    } else {
        lemma_product_first(dims.drop_last());
        assert(dims.drop_last().skip(1) =~= rest.drop_last());
        let b = product(rest.drop_last()) as int;
        let c = dims.last() as int;
        assert(a * b * c == a * (b * c)) by (nonlinear_arith);
        assert(rest.last() == dims.last());
        assert(product(rest) == b * c);
        assert(product(dims) == product(dims.drop_last()) * c);
        assert(product(dims.drop_last()) == a * b);
    }
}

/// A tensor has the elements of its rows.
proof fn lemma_elements_of_rows(t: TensorView)
    requires
        t.n_dims == t.dims.len(),
        t.dims.len() > 0,
    ensures
        t.spec_n_elements() == t.row_count() * t.row_len(),
{
    lemma_product_first(t.dims);
    if t.n_dims == 1 {
        assert(t.dims.skip(1) =~= Seq::empty());
    }
    let (a, b) = (t.row_len() as int, t.row_count() as int);
    assert(a * b == b * a) by (nonlinear_arith);
}

/// The place of the value `c` behind the first `s` blocks of `size` values and `bytes`
/// bytes.
proof fn lemma_place(size: int, bytes: int, s: int, c: int, m: int)
    requires
        0 < size,
        0 <= bytes,
        0 <= s,
        0 <= c < m,
    ensures
        0 <= s * bytes,
        0 <= s * size,
        (s * size + c) % size == c % size,
        bytes * ((s * size + c) / size) == s * bytes + bytes * (c / size),
        0 <= bytes * (c / size),
        bytes * (c / size) + bytes <= (m + size - 1) / size * bytes,
{
    let by = s * bytes;
    let i = s * size + c;
    let (q, r) = (c / size, c % size);
    assert(0 <= by && 0 <= s * size) by (nonlinear_arith)
        requires
            0 <= s,
            0 <= bytes,
            0 <= size,
            by == s * bytes,
    ;
    vstd::arithmetic::div_mod::lemma_fundamental_div_mod(c, size);
    vstd::arithmetic::div_mod::lemma_div_pos_is_pos(c, size);
    vstd::arithmetic::div_mod::lemma_mod_bound(c, size);
    assert(i == (s + q) * size + r) by (nonlinear_arith)
        requires
            i == s * size + c,
            c == size * q + r,
    ;
    lemma_fundamental_div_mod_converse(i, size, s + q, r);
    assert(bytes * (s + q) == by + bytes * q) by (nonlinear_arith)
        requires
            by == s * bytes,
    ;
    let blocks = (m + size - 1) / size;
    assert(q + 1 <= blocks) by {
        vstd::arithmetic::div_mod::lemma_div_is_ordered(c + size, m + size - 1, size);
        assert(c + size == (q + 1) * size + r) by (nonlinear_arith)
            requires
                c == size * q + r,
        ;
        lemma_fundamental_div_mod_converse(c + size, size, q + 1, r);
    }
    assert(0 <= bytes * q && bytes * q + bytes <= blocks * bytes) by (nonlinear_arith)
        requires
            0 <= q,
            q + 1 <= blocks,
            0 <= bytes,
    ;
}

proof fn lemma_q8_0_shifts(data: Seq<u8>, by: int, i: int, c: int)
    requires
        0 <= by,
        0 <= c,
        i % 32 == c % 32,
        34 * (i / 32) == by + 34 * (c / 32),
        by + 34 * (c / 32) + 34 <= data.len(),
    ensures
        q8_0::weight(data.skip(by), c) == q8_0::weight(data, i),
{
    let base = 34 * (c / 32);
    lemma_half_shifts(data, by, base);
}

proof fn lemma_q5_0_shifts(data: Seq<u8>, by: int, i: int, c: int)
    requires
        0 <= by,
        0 <= c,
        i % 32 == c % 32,
        22 * (i / 32) == by + 22 * (c / 32),
        by + 22 * (c / 32) + 22 <= data.len(),
    ensures
        q5_0::weight(data.skip(by), c) == q5_0::weight(data, i),
{
    let base = 22 * (c / 32);
    lemma_half_shifts(data, by, base);
}

proof fn lemma_q4_k_shifts(data: Seq<u8>, by: int, i: int, c: int)
    requires
        0 <= by,
        0 <= c,
        i % 256 == c % 256,
        144 * (i / 256) == by + 144 * (c / 256),
        by + 144 * (c / 256) + 144 <= data.len(),
    ensures
        q4_k::weight(data.skip(by), c) == q4_k::weight(data, i),
{
    let base = 144 * (c / 256);
    lemma_half_shifts(data, by, base);
    lemma_half_shifts(data, by, base + 2);
}

proof fn lemma_q5_k_shifts(data: Seq<u8>, by: int, i: int, c: int)
    requires
        0 <= by,
        0 <= c,
        i % 256 == c % 256,
        176 * (i / 256) == by + 176 * (c / 256),
        by + 176 * (c / 256) + 176 <= data.len(),
    ensures
        q5_k::weight(data.skip(by), c) == q5_k::weight(data, i),
{
    let base = 176 * (c / 256);
    lemma_half_shifts(data, by, base);
    lemma_half_shifts(data, by, base + 2);
}

proof fn lemma_q6_k_shifts(data: Seq<u8>, by: int, i: int, c: int)
    requires
        0 <= by,
        0 <= c,
        i % 256 == c % 256,
        210 * (i / 256) == by + 210 * (c / 256),
        by + 210 * (c / 256) + 210 <= data.len(),
    ensures
        q6_k::weight(data.skip(by), c) == q6_k::weight(data, i),
{
    let base = 210 * (c / 256);
    lemma_half_shifts(data, by, base + 208);
}

proof fn lemma_q2_k_shifts(data: Seq<u8>, by: int, i: int, c: int)
    requires
        0 <= by,
        0 <= c,
        i % 256 == c % 256,
        84 * (i / 256) == by + 84 * (c / 256),
        by + 84 * (c / 256) + 84 <= data.len(),
    ensures
        q2_k::weight(data.skip(by), c) == q2_k::weight(data, i),
{
    let base = 84 * (c / 256);
    lemma_half_shifts(data, by, base + 80);
    lemma_half_shifts(data, by, base + 82);
}

/// The value `c` behind the first `s` blocks.
proof fn lemma_blocks_shift(ty: GgmlType, data: Seq<u8>, s: int, c: int, n: nat, m: nat)
    requires
        decodable(ty),
        0 <= s,
        0 <= c < m,
        s * ty.spec_block_size() + c < n,
        s * ty.spec_block_bytes() + ty.spec_type_size(m) <= data.len(),
    ensures
        elements_of(ty, data.skip(s * ty.spec_block_bytes()), m)[c] == elements_of(ty, data, n)[s
            * ty.spec_block_size() + c],
{
    let size = ty.spec_block_size() as int;
    let bytes = ty.spec_block_bytes() as int;
    let by = s * bytes;
    let i = s * size + c;
    lemma_place(size, bytes, s, c, m as int);
    match ty {
        GgmlType::F32 => {
            reveal_with_fuel(number_at, 5);
        },
        GgmlType::F16 => {
            lemma_half_shifts(data, by, 2 * c);
        },
        GgmlType::BF16 => {
            lemma_half_shifts(data, by, 2 * c);
        },
        GgmlType::Q8_0 => lemma_q8_0_shifts(data, by, i, c),
        GgmlType::Q5_0 => lemma_q5_0_shifts(data, by, i, c),
        GgmlType::Q4_K => lemma_q4_k_shifts(data, by, i, c),
        GgmlType::Q5_K => lemma_q5_k_shifts(data, by, i, c),
        GgmlType::Q6_K => lemma_q6_k_shifts(data, by, i, c),
        _ => lemma_q2_k_shifts(data, by, i, c),
    }
}

/// Parts of `m` values each, one after the other, are the sequence whose value
/// `r * m + c` is value `c` of part `r`.
proof fn lemma_parts(parts: Seq<Seq<Element>>, m: nat, all: Seq<Element>)
    requires
        all.len() == parts.len() * m,
        forall|r: int| 0 <= r < parts.len() ==> (#[trigger] parts[r]).len() == m,
        forall|r: int, c: int|
            0 <= r < parts.len() && 0 <= c < m ==> #[trigger] parts[r][c] == all[r * m + c],
    ensures
        parts.flatten() == all,
    decreases parts.len(),
{
    if parts.len() == 0 {
        assert(all.len() == 0) by (nonlinear_arith)
            requires
                parts.len() == 0,
                all.len() == parts.len() * m,
        ;
        assert(parts.flatten() =~= all);
    } else {
        let rest = parts.drop_first();
        let later = all.skip(m as int);
        let k = parts.len() as int;
        assert(k * m == (k - 1) * m + m && (k - 1) * m >= 0) by (nonlinear_arith)
            requires
                k >= 1,
                m >= 0,
        ;
        assert forall|r: int, c: int| 0 <= r < rest.len() && 0 <= c < m implies #[trigger] rest[r][c]
            == later[r * m + c] by {
            assert(parts[r + 1][c] == all[(r + 1) * m + c]);
            assert((r + 1) * m == r * m + m && r * m >= 0) by (nonlinear_arith)
                requires
                    r >= 0,
                    m >= 0,
            ;
            assert(r * m + m <= (k - 1) * m) by (nonlinear_arith)
                requires
                    r + 1 <= k - 1,
                    m >= 0,
            ;
        }
        lemma_parts(rest, m, later);
        assert forall|c: int| 0 <= c < m implies parts[0][c] == all[c] by {
            assert(parts[0][c] == all[0 * m + c]);
        }
        assert(parts[0] + later =~= all);
        assert(parts.first() + rest.flatten() == parts.flatten());
    }
}

/// The bytes of whole rows.
proof fn lemma_row_blocks(t: TensorView)
    requires
        t.dims[0] as nat % t.ggml_type.spec_block_size() == 0,
    ensures
        ({
            let blocks = t.row_len() as int / t.ggml_type.spec_block_size() as int;
            &&& 0 <= blocks
            &&& t.row_len() == blocks * t.ggml_type.spec_block_size()
            &&& t.row_bytes() == blocks * t.ggml_type.spec_block_bytes()
        }),
{
    let size = t.ggml_type.spec_block_size() as int;
    let n = t.row_len() as int;
    let blocks = n / size;
    assert(n == size * blocks + n % size);
    assert(size * blocks == blocks * size) by (nonlinear_arith);
    lemma_fundamental_div_mod_converse(n + size - 1, size, blocks, size - 1);
}

/// The bytes of a tensor of whole rows are those of its rows.
proof fn lemma_whole_bytes(t: TensorView)
    requires
        t.n_dims == t.dims.len(),
        t.dims.len() > 0,
        t.dims[0] as nat % t.ggml_type.spec_block_size() == 0,
    ensures
        t.spec_byte_size() == t.row_count() * t.row_bytes(),
        t.spec_n_elements() as int % t.ggml_type.spec_block_size() as int == 0,
{
    lemma_elements_of_rows(t);
    lemma_row_blocks(t);
    let size = t.ggml_type.spec_block_size() as int;
    let bytes = t.ggml_type.spec_block_bytes() as int;
    let blocks = t.row_len() as int / size;
    let k = t.row_count() as int;
    let all = k * blocks;
    assert(k * (blocks * size) == all * size && k * (blocks * bytes) == all * bytes && all >= 0)
        by (nonlinear_arith)
        requires
            all == k * blocks,
            k >= 0,
            blocks >= 0,
    ;
    let n = t.spec_n_elements() as int;
    assert(n == all * size);
    lemma_fundamental_div_mod_converse(n, size, all, 0);
    lemma_fundamental_div_mod_converse(n + size - 1, size, all, size - 1);
}

/// Whether `rows` are the rows of a tensor, all of them decoded.
pub open spec fn are_rows(t: TensorView, data: Seq<u8>, rows: Seq<Row>) -> bool {
    &&& rows.len() == t.row_count()
    &&& forall|r: int|
        0 <= r < rows.len() ==> row_ok(t, data.len(), r as nat) && holds_row(
            t.ggml_type,
            data.skip(t.row_offset(r as nat) as int),
            t.row_len(),
            #[trigger] rows[r],
        )
}

/// The values of rows, one row after the other.
pub open spec fn flattened(rows: Seq<Row>) -> Seq<Element> {
    Seq::new(rows.len(), |r: int| rows[r].elements()).flatten()
}

proof fn lemma_row_value(t: TensorView, data: Seq<u8>, r: int, c: int)
    requires
        t.n_dims == t.dims.len(),
        t.dims.len() > 0,
        t.dims[0] as nat % t.ggml_type.spec_block_size() == 0,
        0 <= r < t.row_count(),
        0 <= c < t.row_len(),
        row_ok(t, data.len(), r as nat),
    ensures
        r * t.row_len() + c < t.spec_n_elements(),
        elements_of(t.ggml_type, data.skip(t.row_offset(r as nat) as int), t.row_len())[c]
            == elements_of(
            t.ggml_type,
            data.skip(t.byte_offset as int),
            t.spec_n_elements(),
        )[r * t.row_len() + c],
{
    lemma_elements_of_rows(t);
    lemma_row_blocks(t);
    let m = t.row_len() as int;
    let n = t.spec_n_elements() as int;
    let size = t.ggml_type.spec_block_size() as int;
    let bytes = t.ggml_type.spec_block_bytes() as int;
    let blocks = m / size;
    let k = t.row_count() as int;
    assert(r * m + m <= k * m) by (nonlinear_arith)
        requires
            r + 1 <= k,
            m >= 0,
    ;
    let s = r * blocks;
    assert(s >= 0 && s * size == r * (blocks * size) && s * bytes == r * (blocks * bytes))
        by (nonlinear_arith)
        requires
            s == r * blocks,
            r >= 0,
            blocks >= 0,
    ;
    let tail = data.skip(t.byte_offset as int);
    let offset = t.row_offset(r as nat) as int;
    assert(offset == t.byte_offset + s * bytes) by {
        if t.n_dims == 1 {
            assert(r == 0);
            assert(s == 0 && s * bytes == 0) by (nonlinear_arith)
                requires
                    r == 0,
                    s == r * blocks,
            ;
        }
    }
    assert(data.skip(offset) =~= tail.skip(s * bytes));
    lemma_blocks_shift(t.ggml_type, tail, s, c, n as nat, m as nat);
}

/// A tensor is its rows: where the rows of a tensor are whole blocks and all of them
/// can be decoded, so can the tensor as a whole (if its type is one of those that are
/// decoded as a whole), and its values are those of the rows, one row after the other.
pub proof fn law_a_tensor_is_its_rows(t: TensorView, data: Seq<u8>, whole: Row, rows: Seq<Row>)
    requires
        t.n_dims == t.dims.len(),
        t.dims.len() > 0,
        t.dims[0] as nat % t.ggml_type.spec_block_size() == 0,
        t.byte_offset <= data.len(),
        are_rows(t, data, rows),
    ensures
        whole_decodable(t.ggml_type) ==> whole_ok(t, data.len()),
        holds_row(t.ggml_type, data.skip(t.byte_offset as int), t.spec_n_elements(), whole)
            ==> whole.elements() == flattened(rows),
{
    lemma_elements_of_rows(t);
    lemma_whole_bytes(t);
    let k = t.row_count() as int;
    let rb = t.row_bytes() as int;
    if k > 0 {
        assert(row_ok(t, data.len(), (k - 1) as nat)) by {
            let last = rows[k - 1];
        }
        assert(k * rb == (k - 1) * rb + rb) by (nonlinear_arith);
        if t.n_dims == 1 {
            assert((k - 1) * rb == 0) by (nonlinear_arith)
                requires
                    k == 1,
            ;
        }
    } else {
        assert(k * rb == 0) by (nonlinear_arith)
            requires
                k == 0,
        ;
    }
    if holds_row(t.ggml_type, data.skip(t.byte_offset as int), t.spec_n_elements(), whole) {
        let tail = data.skip(t.byte_offset as int);
        law_decoded_row_holds_the_values(t.ggml_type, tail, t.spec_n_elements(), whole);
        let parts = Seq::new(rows.len(), |r: int| rows[r].elements());
        assert forall|r: int| 0 <= r < parts.len() implies (#[trigger] parts[r]).len()
            == t.row_len() by {
            law_decoded_row_holds_the_values(
                t.ggml_type,
                data.skip(t.row_offset(r as nat) as int),
                t.row_len(),
                rows[r],
            );
        }
        assert forall|r: int, c: int|
            0 <= r < parts.len() && 0 <= c < t.row_len() implies #[trigger] parts[r][c]
            == whole.elements()[r * t.row_len() + c] by {
            law_decoded_row_holds_the_values(
                t.ggml_type,
                data.skip(t.row_offset(r as nat) as int),
                t.row_len(),
                rows[r],
            );
            lemma_row_value(t, data, r, c);
        }
        lemma_parts(parts, t.row_len(), whole.elements());
    }
}

} // verus!
