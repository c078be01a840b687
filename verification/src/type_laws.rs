//! What holds of the types of a file: which number and which name each one has, what a
//! block of it is made of, and how values and numerals are read.

use vstd::prelude::*;

use crate::report::{count_of, parameters};
use crate::text::{
    all_digits, continues, decimal, decimal_int, digit, digits_value, is_digit,
    lemma_padded_denotes, padded, replaced, usize_of,
};
use crate::types::{
    comma_separated, product, total_bytes, FileView, FloatBits, GgmlType, Meta, MetadataArrayType,
    TensorView,
};

verus! {

// ── Types of tensors ────────────────────────────────────────────────────────

/// Every type has the number and the name that files and tools know it by.
pub proof fn law_types_have_their_numbers_and_names(t: GgmlType)
    ensures
        (t.spec_id(), t.spec_name()) == match t {
            GgmlType::F32 => (0u32, "F32"@),
            GgmlType::F16 => (1u32, "F16"@),
            GgmlType::Q4_0 => (2u32, "Q4_0"@),
            GgmlType::Q4_1 => (3u32, "Q4_1"@),
            GgmlType::Q5_0 => (6u32, "Q5_0"@),
            GgmlType::Q5_1 => (7u32, "Q5_1"@),
            GgmlType::Q8_0 => (8u32, "Q8_0"@),
            GgmlType::Q8_1 => (9u32, "Q8_1"@),
            GgmlType::Q2_K => (10u32, "Q2_K"@),
            GgmlType::Q3_K => (11u32, "Q3_K"@),
            GgmlType::Q4_K => (12u32, "Q4_K"@),
            GgmlType::Q5_K => (13u32, "Q5_K"@),
            GgmlType::Q6_K => (14u32, "Q6_K"@),
            GgmlType::Q8_K => (15u32, "Q8_K"@),
            GgmlType::IQ2_XXS => (16u32, "IQ2_XXS"@),
            GgmlType::IQ2_XS => (17u32, "IQ2_XS"@),
            GgmlType::IQ3_XXS => (18u32, "IQ3_XXS"@),
            GgmlType::IQ1_S => (19u32, "IQ1_S"@),
            GgmlType::IQ4_NL => (20u32, "IQ4_NL"@),
            GgmlType::IQ3_S => (21u32, "IQ3_S"@),
            GgmlType::IQ2_S => (22u32, "IQ2_S"@),
            GgmlType::IQ4_XS => (23u32, "IQ4_XS"@),
            GgmlType::I8 => (24u32, "I8"@),
            GgmlType::I16 => (25u32, "I16"@),
            GgmlType::I32 => (26u32, "I32"@),
            GgmlType::I64 => (27u32, "I64"@),
            GgmlType::F64 => (28u32, "F64"@),
            GgmlType::IQ1_M => (29u32, "IQ1_M"@),
            GgmlType::BF16 => (30u32, "BF16"@),
            GgmlType::Q4_0_4_4 => (31u32, "Q4_0_4_4"@),
            GgmlType::Q4_0_4_8 => (32u32, "Q4_0_4_8"@),
            GgmlType::Q4_0_8_8 => (33u32, "Q4_0_8_8"@),
        },
{
}

/// The bytes of a block: its scales, and its quants with so many bits each.
pub open spec fn block_of_bits(scales: nat, elements: nat, bits: nat) -> nat {
    scales + elements * bits / 8
}

/// A block holds its quants, with so many bits each, beside its scales: a half-precision
/// number for 32 elements, or for 256 elements one or two such numbers and the scales of
/// its parts.
pub proof fn law_blocks_are_scales_and_quants(t: GgmlType)
    ensures
        ({
            let (n, bytes) = (t.spec_block_size(), t.spec_block_bytes());
            match t {
                GgmlType::I8 => n == 1 && bytes == 1,
                GgmlType::F16 | GgmlType::BF16 | GgmlType::I16 => n == 1 && bytes == 2,
                GgmlType::F32 | GgmlType::I32 => n == 1 && bytes == 4,
                GgmlType::F64 | GgmlType::I64 => n == 1 && bytes == 8,
                GgmlType::Q4_0 | GgmlType::IQ4_NL => n == 32 && bytes == block_of_bits(2, 32, 4),
                GgmlType::Q4_0_4_4 | GgmlType::Q4_0_4_8 | GgmlType::Q4_0_8_8 => n == 32 && bytes
                    == block_of_bits(2, 32, 4),
                GgmlType::Q4_1 => n == 32 && bytes == block_of_bits(4, 32, 4),
                GgmlType::Q5_0 => n == 32 && bytes == block_of_bits(2, 32, 5),
                GgmlType::Q5_1 => n == 32 && bytes == block_of_bits(4, 32, 5),
                GgmlType::Q8_0 => n == 32 && bytes == block_of_bits(2, 32, 8),
                GgmlType::Q8_1 => n == 32 && bytes == block_of_bits(8, 32, 8),
                GgmlType::Q2_K => n == 256 && bytes == block_of_bits(4 + 16, 256, 2),
                GgmlType::Q3_K => n == 256 && bytes == block_of_bits(2 + 12, 256, 3),
                GgmlType::Q4_K => n == 256 && bytes == block_of_bits(4 + 12, 256, 4),
                GgmlType::Q5_K => n == 256 && bytes == block_of_bits(4 + 12, 256, 5),
                GgmlType::Q6_K => n == 256 && bytes == block_of_bits(2 + 16, 256, 6),
                GgmlType::Q8_K => n == 256 && bytes == block_of_bits(4 + 32, 256, 8),
                GgmlType::IQ2_XXS => n == 256 && bytes == block_of_bits(2, 256, 2),
                GgmlType::IQ2_XS => n == 256 && bytes == block_of_bits(2 + 8, 256, 2),
                GgmlType::IQ2_S => n == 256 && bytes == block_of_bits(2 + 16, 256, 2),
                GgmlType::IQ3_XXS => n == 256 && bytes == block_of_bits(2, 256, 3),
                GgmlType::IQ3_S => n == 256 && bytes == block_of_bits(2 + 12, 256, 3),
                GgmlType::IQ1_S => n == 256 && bytes == block_of_bits(2 + 16, 256, 1),
                GgmlType::IQ1_M => n == 256 && bytes == block_of_bits(24, 256, 1),
                GgmlType::IQ4_XS => n == 256 && bytes == block_of_bits(2 + 6, 256, 4),
            }
        }),
{
}

/// Elements take whole blocks: as many as have room for them, and no one more.
pub proof fn law_elements_take_whole_blocks(t: GgmlType, n: nat, blocks: nat)
    requires
        n <= blocks * t.spec_block_size(),
        blocks * t.spec_block_size() < n + t.spec_block_size(),
    ensures
        t.spec_type_size(n) == blocks * t.spec_block_bytes(),
{
    let size = t.spec_block_size() as int;
    let up = n + size - 1;
    assert(size > 0);
    let rest = up - blocks * size;
    vstd::arithmetic::div_mod::lemma_fundamental_div_mod_converse(up, size, blocks as int, rest);
}

/// The elements of a tensor are as many as its dimensions multiplied with each other; its
/// bytes are those of the blocks that they take.
pub proof fn law_dimensions_are_multiplied(t: TensorView, dims: Seq<u64>, d: u64)
    ensures
        product(Seq::empty()) == 1,
        product(dims.push(d)) == product(dims) * d,
        t.spec_n_elements() == product(t.dims),
        t.spec_byte_size() == t.ggml_type.spec_type_size(product(t.dims)),
{
    assert(dims.push(d).drop_last() =~= dims);
}

/// Bytes, parameters and counts of several tensors are taken up tensor by tensor.
pub proof fn law_tensors_are_counted_one_by_one(
    ts: Seq<TensorView>,
    t: TensorView,
    ty: GgmlType,
)
    ensures
        total_bytes(Seq::empty()) == 0,
        parameters(Seq::empty()) == 0,
        count_of(Seq::empty(), ty) == 0,
        total_bytes(ts.push(t)) == total_bytes(ts) + t.ggml_type.spec_type_size(product(t.dims)),
        parameters(ts.push(t)) == parameters(ts) + product(t.dims),
        count_of(ts.push(t), ty) == count_of(ts, ty) + if t.ggml_type == ty {
            1int
        } else {
            0int
        },
{
    assert(ts.push(t).drop_last() =~= ts);
}

// ── Values of keys ──────────────────────────────────────────────────────────

/// Unsigned values are numbers, of whatever width; no other value is one. Values of text,
/// floating-point numbers and booleans are read as what they are, and as nothing else.
pub proof fn law_values_are_read_as_what_they_are(
    a: u8,
    b: u16,
    c: u32,
    d: u64,
    s: Seq<char>,
    yes: bool,
    v: Meta,
)
    ensures
        Meta::U8(a).number() == Some(a as u64),
        Meta::U16(b).number() == Some(b as u64),
        Meta::U32(c).number() == Some(c as u64),
        Meta::U64(d).number() == Some(d),
        v.number() is Some ==> v is U8 || v is U16 || v is U32 || v is U64,
        Meta::Text(s).text() == Some(s),
        v.text() is Some ==> v is Text,
        Meta::Float32(c).float() == Some(FloatBits::Single(c)),
        Meta::Float64(d).float() == Some(FloatBits::Double(d)),
        v.float() is Some ==> v is Float32 || v is Float64,
        Meta::Bool(yes).flag() == Some(yes),
        v.flag() is Some ==> v is Bool,
        v.items() is Some ==> v is Array,
{
}

/// Integers of whatever width are read as signed numbers; an unsigned one that is too large
/// wraps around.
pub proof fn law_integers_are_read_as_signed_numbers(
    a: i8,
    b: i16,
    c: i32,
    d: i64,
    e: u64,
    v: Meta,
)
    ensures
        Meta::I8(a).integer() == Some(a as i64),
        Meta::I16(b).integer() == Some(b as i64),
        Meta::I32(c).integer() == Some(c as i64),
        Meta::I64(d).integer() == Some(d),
        Meta::U64(e).integer() matches Some(i) && (i == e || i == e - 0x1_0000_0000_0000_0000),
        v.number() matches Some(n) ==> (n <= i64::MAX ==> v.integer() == Some(n as i64)),
        v.integer() is Some <==> v.number() is Some || v is I8 || v is I16 || v is I32 || v is I64,
{
}

/// The texts of an array are those of its elements, in their order, where every one is
/// text; so are its integers.
pub proof fn law_arrays_are_read_element_by_element(f: FileView, key: Seq<char>, i: int)
    requires
        f.metadata.contains_key(key),
        f.metadata[key] matches Meta::Array(_, items) && 0 <= i < items.len(),
    ensures
        ({
            let items = f.metadata[key]->Array_1;
            &&& f.texts(key) matches Some(texts) ==> texts.len() == items.len() && items[i]
                == Meta::Text(texts[i])
            &&& f.texts(key) is None ==> exists|j: int|
                0 <= j < items.len() && !(#[trigger] items[j] is Text)
            &&& f.integers(key) matches Some(ints) ==> ints.len() == items.len()
                && items[i].integer() == Some(ints[i])
            &&& f.integers(key) is None ==> exists|j: int|
                0 <= j < items.len() && (#[trigger] items[j]).integer() is None
        }),
{
    let items = f.metadata[key]->Array_1;
    if f.texts(key) is None {
        let j = choose|j: int| 0 <= j < items.len() && !((#[trigger] items[j]).text() is Some);
        assert(!(items[j] is Text));
    } else {
        assert(items[i].text() is Some);
    }
    if f.integers(key) is Some {
        assert(items[i].integer() is Some);
    }
}

/// The kinds of array elements have the numbers of the kinds of values.
pub proof fn law_elements_have_the_numbers_of_values(a: MetadataArrayType, v: Meta)
    ensures
        a.spec_id() == v.spec_type_id() ==> match a {
            MetadataArrayType::U8 => v is U8,
            MetadataArrayType::I8 => v is I8,
            MetadataArrayType::U16 => v is U16,
            MetadataArrayType::I16 => v is I16,
            MetadataArrayType::U32 => v is U32,
            MetadataArrayType::I32 => v is I32,
            MetadataArrayType::Float32 => v is Float32,
            MetadataArrayType::Bool => v is Bool,
            MetadataArrayType::String => v is Text,
            MetadataArrayType::U64 => v is U64,
            MetadataArrayType::I64 => v is I64,
            MetadataArrayType::Float64 => v is Float64,
        },
        v.spec_type_id() <= 12,
{
}

// ── Numerals ────────────────────────────────────────────────────────────────

/// A numeral has the digit of its last place last, and before it the numeral of the rest,
/// if there is any. A negative number has a minus sign.
pub proof fn law_numerals_end_with_their_last_digit(n: nat, d: nat)
    requires
        d < 10,
    ensures
        decimal(d) == seq![digit(d)],
        n > 0 ==> decimal(10 * n + d) == decimal(n).push(digit(d)),
        digit(d) as int == '0' as int + d,
        decimal_int(n as int) == decimal(n),
        n > 0 ==> decimal_int(-(n as int)) == seq!['-'] + decimal(n),
{
}

/// A numeral denotes its number, with or without zeros before it, and is filled up to its
/// width.
pub proof fn law_numerals_denote_their_number(n: nat, width: int, i: int)
    requires
        n <= usize::MAX,
        0 <= i < padded(n, width).len(),
    ensures
        digits_value(padded(n, width)) == n,
        is_digit(padded(n, width)[i]),
        padded(n, width).len() >= width,
        padded(n, width).len() >= decimal(n).len(),
        i < width - decimal(n).len() ==> padded(n, width)[i] == '0',
{
    lemma_padded_denotes(n, width);
}

/// Several numbers are written with a comma and a space between them.
pub proof fn law_numbers_are_separated_by_commas(parts: Seq<u64>, last: u64)
    ensures
        comma_separated(Seq::empty()) == Seq::<char>::empty(),
        comma_separated(seq![last]) == decimal(last as nat),
        parts.len() > 0 ==> comma_separated(parts.push(last)) == comma_separated(parts) + ", "@
            + decimal(last as nat),
{
    assert(parts.push(last).drop_last() =~= parts);
}

/// Digits are read from the left: each one counts ten times less than the one before it. A
/// plus sign in front changes nothing.
pub proof fn law_digits_are_read_from_the_left(s: Seq<char>, d: nat)
    requires
        d < 10,
    ensures
        digits_value(Seq::empty()) == 0,
        digits_value(s.push(digit(d))) == 10 * digits_value(s) + d,
        all_digits(s) && s.len() > 0 ==> usize_of(seq!['+'] + s) == usize_of(s),
        all_digits(s) && s.len() > 0 && digits_value(s) <= usize::MAX ==> usize_of(s) == Some(
            digits_value(s),
        ),
        s.len() == 0 ==> usize_of(s) is None,
{
    assert(s.push(digit(d)).drop_last() =~= s);
    assert((seq!['+'] + s).skip(1) =~= s);
    if all_digits(s) && s.len() > 0 {
        assert(is_digit(s[0]));
    }
}

/// A text stands at a place where it was put, and where it stands it can be read.
pub proof fn law_a_text_stands_where_it_is(front: Seq<char>, s: Seq<char>, rest: Seq<char>, i: int)
    ensures
        continues(front + s + rest, front.len() as int, s),
        continues(rest, i, s) ==> 0 <= i && rest == rest.take(i) + s + rest.skip(
            i + s.len(),
        ),
{
    assert((front + s + rest).subrange(front.len() as int, front.len() as int + s.len()) =~= s);
    if continues(rest, i, s) {
        assert(rest =~= rest.take(i) + s + rest.skip(i + s.len()));
    }
}

/// Where a text is replaced, what is before its first place stays, the replacement comes
/// next, and all goes on behind the place.
pub proof fn law_places_are_replaced_from_the_left(
    chars: Seq<char>,
    from: Seq<char>,
    to: Seq<char>,
    i: int,
    p: int,
)
    requires
        0 <= i <= p < chars.len(),
        from.len() > 0,
        continues(chars, p, from),
        forall|k: int| i <= k < p ==> !#[trigger] continues(chars, k, from),
    ensures
        replaced(chars, from, to, i) == chars.subrange(i, p) + to + replaced(
            chars,
            from,
            to,
            p + from.len(),
        ),
    decreases p - i,
{
    if i < p {
        assert(!continues(chars, i, from));
        law_places_are_replaced_from_the_left(chars, from, to, i + 1, p);
        assert(chars.subrange(i, p) =~= seq![chars[i]] + chars.subrange(i + 1, p));
        assert(seq![chars[i]] + (chars.subrange(i + 1, p) + to + replaced(
            chars,
            from,
            to,
            p + from.len(),
        )) =~= (seq![chars[i]] + chars.subrange(i + 1, p)) + to + replaced(
            chars,
            from,
            to,
            p + from.len(),
        ));
    } else {
        assert(chars.subrange(i, p) =~= Seq::empty());
        assert(Seq::<char>::empty() + to =~= to);
    }
}

/// Behind the last place of a text nothing is replaced.
pub proof fn law_what_is_not_replaced_stays(chars: Seq<char>, from: Seq<char>, to: Seq<char>, i: int)
    requires
        0 <= i <= chars.len(),
        from.len() > 0,
        forall|k: int| i <= k ==> !#[trigger] continues(chars, k, from),
    ensures
        replaced(chars, from, to, i) == chars.skip(i),
    decreases chars.len() - i,
{
    if i < chars.len() {
        assert(!continues(chars, i, from));
        law_what_is_not_replaced_stays(chars, from, to, i + 1);
        assert(chars.skip(i) =~= seq![chars[i]] + chars.skip(i + 1));
    } else {
        assert(chars.skip(i) =~= Seq::empty());
    }
}

} // verus!
