//! Streaming text: bytes arrive token by token, and characters go out as soon as
//! they are complete.

use vstd::prelude::*;
use vstd::string::*;
use vstd::utf8::*;

use crate::text::string_from_utf8;
use crate::tokenizer::lemma_encode_concat;

verus! {

/// The length of the longest prefix that is valid UTF-8.
pub open spec fn valid_len(bytes: Seq<u8>) -> int
    decreases bytes.len(),
{
    if valid_first_scalar(bytes) {
        length_of_first_scalar(bytes) + valid_len(pop_first_scalar(bytes))
    } else {
        0
    }
}

/// The prefix of length `valid_len` is valid, and no longer prefix is.
pub proof fn law_valid_prefix_is_longest(bytes: Seq<u8>)
    ensures
        0 <= valid_len(bytes) <= bytes.len(),
        valid_utf8(bytes.take(valid_len(bytes))),
        forall|n: int|
            valid_len(bytes) < n <= bytes.len() ==> !valid_utf8(#[trigger] bytes.take(n)),
    decreases bytes.len(),
{
    if valid_first_scalar(bytes) {
        let k = length_of_first_scalar(bytes);
        let rest = pop_first_scalar(bytes);
        law_valid_prefix_is_longest(rest);
        let n = valid_len(bytes);
        let front = bytes.take(n);
        lemma_prefix_scalar(bytes, n);
        assert(pop_first_scalar(front) =~= rest.take(valid_len(rest)));
        assert forall|m: int| n < m <= bytes.len() implies !valid_utf8(
            #[trigger] bytes.take(m),
        ) by {
            lemma_prefix_scalar(bytes, m);
            assert(pop_first_scalar(bytes.take(m)) =~= rest.take(m - k));
        }
    } else {
        assert(bytes.take(0).len() == 0);
        assert forall|m: int| 0 < m <= bytes.len() implies !valid_utf8(
            #[trigger] bytes.take(m),
        ) by {
            if valid_first_scalar(bytes.take(m)) {
                lemma_scalar_of_prefix(bytes, m);
            }
        }
    }
}

/// A prefix that holds the first scalar begins with it.
proof fn lemma_prefix_scalar(bytes: Seq<u8>, n: int)
    requires
        valid_first_scalar(bytes),
        length_of_first_scalar(bytes) <= n <= bytes.len(),
    ensures
        valid_first_scalar(bytes.take(n)),
        length_of_first_scalar(bytes.take(n)) == length_of_first_scalar(bytes),
{
    let front = bytes.take(n);
    assert(front[0] == bytes[0]);
    assert(n > 1 ==> front[1] == bytes[1]);
    assert(n > 2 ==> front[2] == bytes[2]);
    assert(n > 3 ==> front[3] == bytes[3]);
}

proof fn lemma_scalar_of_prefix(bytes: Seq<u8>, n: int)
    requires
        0 <= n <= bytes.len(),
        valid_first_scalar(bytes.take(n)),
    ensures
        valid_first_scalar(bytes),
{
    let front = bytes.take(n);
    assert(front[0] == bytes[0]);
    assert(n > 1 ==> front[1] == bytes[1]);
    assert(n > 2 ==> front[2] == bytes[2]);
    assert(n > 3 ==> front[3] == bytes[3]);
}

fn is_continuation(b: u8) -> (r: bool)
    ensures
        r == is_continuation_byte(b),
{
    0x80 <= b && b <= 0xbf
}

/// The length of the scalar that begins at `i`, where a valid one begins there.
fn scalar_len(bytes: &[u8], i: usize) -> (r: Option<usize>)
    requires
        i <= bytes@.len(),
    ensures
        match r {
            Some(k) => valid_first_scalar(bytes@.skip(i as int)) && k == length_of_first_scalar(
                bytes@.skip(i as int),
            ),
            None => !valid_first_scalar(bytes@.skip(i as int)),
        },
{
    let ghost rest = bytes@.skip(i as int);
    let n: usize = bytes.len() - i;
    if n == 0 {
        return None;
    }
    let b0: u8 = bytes[i];
    assert(rest[0] == b0);
    if b0 <= 0x7f {
        proof {
            assert(((b0 & 0x7F) as u32) <= 0x7f) by (bit_vector);
        }
        return Some(1);
    }
    if n < 2 {
        return None;
    }
    let b1: u8 = bytes[i + 1];
    assert(rest[1] == b1);
    if 0xc0 <= b0 && b0 <= 0xdf {
        let c: u32 = (((b0 & 0x1F) as u32) << 6) | ((b1 & 0x3f) as u32);
        proof {
            assert((((b0 & 0x1F) as u32) << 6) | ((b1 & 0x3f) as u32) < 0x800) by (bit_vector);
        }
        if is_continuation(b1) && 0x80 <= c {
            return Some(2);
        }
        return None;
    }
    if n < 3 {
        return None;
    }
    let b2: u8 = bytes[i + 2];
    assert(rest[2] == b2);
    if 0xe0 <= b0 && b0 <= 0xef {
        let c: u32 = (((b0 & 0x0F) as u32) << 12) | (((b1 & 0x3f) as u32) << 6) | ((b2
            & 0x3f) as u32);
        if is_continuation(b1) && is_continuation(b2) && 0x800 <= c && !(0xD800 <= c && c
            <= 0xDFFF) {
            return Some(3);
        }
        return None;
    }
    if n < 4 {
        return None;
    }
    let b3: u8 = bytes[i + 3];
    assert(rest[3] == b3);
    if 0xf0 <= b0 && b0 <= 0xf7 {
        let c: u32 = (((b0 & 0x07) as u32) << 18) | (((b1 & 0x3f) as u32) << 12) | (((b2
            & 0x3f) as u32) << 6) | ((b3 & 0x3f) as u32);
        if is_continuation(b1) && is_continuation(b2) && is_continuation(b3) && 0x10000 <= c && c
            <= 0x10ffff {
            return Some(4);
        }
    }
    None
}

/// The length of the longest prefix that is valid UTF-8.
pub fn valid_prefix(bytes: &[u8]) -> (n: usize)
    ensures
        n == valid_len(bytes@),
        n <= bytes@.len(),
{
    let total: usize = bytes.len();
    let mut i: usize = 0;
    proof {
        assert(bytes@.skip(0) =~= bytes@);
    }
    loop
        invariant_except_break
            i <= bytes@.len(),
            total == bytes@.len(),
            valid_len(bytes@) == i + valid_len(bytes@.skip(i as int)),
        ensures
            i <= bytes@.len(),
            valid_len(bytes@) == i,
        decreases bytes@.len() - i,
    {
        match scalar_len(bytes, i) {
            Some(k) => {
                proof {
                    let rest = bytes@.skip(i as int);
                    assert(1 <= k <= rest.len());
                    assert(i + k <= total);
                    assert(pop_first_scalar(rest) =~= bytes@.skip(i + k));
                }
                i += k;
            },
            None => {
                break;
            },
        }
    }
    i
}

/// Drains the longest valid UTF-8 prefix of `buf` and gives it as text, keeping
/// any trailing incomplete multi-byte sequence for the next token.
pub fn flush_utf8(buf: &mut Vec<u8>) -> (s: String)
    ensures
        s@ == decode_utf8(old(buf)@.take(valid_len(old(buf)@))),
        final(buf)@ == old(buf)@.skip(valid_len(old(buf)@)),
        encode_utf8(s@) + final(buf)@ == old(buf)@,
{
    let ghost before = buf@;
    let n: usize = valid_prefix(buf.as_slice());
    let rest = buf.split_off(n);
    let mut head: Vec<u8> = rest;
    std::mem::swap(buf, &mut head);
    proof {
        law_valid_prefix_is_longest(before);
        assert(head@ =~= before.take(n as int));
        assert(buf@ =~= before.skip(n as int));
        decode_utf8_encode_utf8(head@);
        assert(before.take(n as int) + before.skip(n as int) =~= before);
    }
    string_from_utf8(head).unwrap()
}

/// What has gone out, and what is pending, after chunks of bytes have arrived.
pub open spec fn streamed(chunks: Seq<Seq<u8>>) -> (Seq<char>, Seq<u8>)
    decreases chunks.len(),
{
    if chunks.len() == 0 {
        (Seq::empty(), Seq::empty())
    } else {
        let (text, pending) = streamed(chunks.drop_last());
        let buf = pending + chunks.last();
        (text + decode_utf8(buf.take(valid_len(buf))), buf.skip(valid_len(buf)))
    }
}

/// Streaming loses nothing and changes nothing: what has gone out, and then what
/// is pending, are the bytes that have arrived.
pub proof fn law_streaming_keeps_every_byte(chunks: Seq<Seq<u8>>)
    ensures
        encode_utf8(streamed(chunks).0) + streamed(chunks).1 == chunks.flatten(),
    decreases chunks.len(),
{
    if chunks.len() == 0 {
        assert(encode_utf8(Seq::<char>::empty()) =~= Seq::<u8>::empty());
        assert(chunks.flatten() =~= Seq::<u8>::empty());
    } else {
        let front = chunks.drop_last();
        law_streaming_keeps_every_byte(front);
        let (text, pending) = streamed(front);
        let buf = pending + chunks.last();
        let n = valid_len(buf);
        law_valid_prefix_is_longest(buf);
        decode_utf8_encode_utf8(buf.take(n));
        lemma_encode_concat(text, decode_utf8(buf.take(n)));
        assert(buf.take(n) + buf.skip(n) =~= buf);
        chunks.lemma_flatten_and_flatten_alt_are_equivalent();
        front.lemma_flatten_and_flatten_alt_are_equivalent();
        assert(chunks.flatten() =~= front.flatten() + chunks.last());
        assert(encode_utf8(text) + buf.take(n) + buf.skip(n) =~= encode_utf8(text) + pending
            + chunks.last());
    }
}

/// Where the bytes that have arrived are valid UTF-8, all of them have gone out.
pub proof fn law_complete_text_goes_out(chunks: Seq<Seq<u8>>)
    requires
        valid_utf8(chunks.flatten()),
    ensures
        streamed(chunks).1 == Seq::<u8>::empty(),
        streamed(chunks).0 == decode_utf8(chunks.flatten()),
{
    law_streaming_keeps_every_byte(chunks);
    let (text, pending) = streamed(chunks);
    let all = chunks.flatten();
    encode_utf8_valid_utf8(text);
    encode_utf8_decode_utf8(text);
    let k = encode_utf8(text).len() as int;
    assert(all.subrange(0, k) =~= encode_utf8(text));
    assert(all.subrange(k, all.len() as int) =~= pending);
    if !valid_utf8(pending) {
        partial_valid_partial_invalid_utf8(all, k);
    }
    assert(pending.len() > 0 ==> valid_first_scalar(pending));
    if chunks.len() > 0 {
        let buf = streamed(chunks.drop_last()).1 + chunks.last();
        lemma_nothing_valid_remains(buf);
        assert(pending == buf.skip(valid_len(buf)));
    }
    assert(pending.len() == 0);
    assert(all =~= encode_utf8(text));
}

proof fn lemma_nothing_valid_remains(buf: Seq<u8>)
    ensures
        0 <= valid_len(buf) <= buf.len(),
        !valid_first_scalar(buf.skip(valid_len(buf))),
    decreases buf.len(),
{
    if valid_first_scalar(buf) {
        let k = length_of_first_scalar(buf);
        let rest = pop_first_scalar(buf);
        lemma_nothing_valid_remains(rest);
        assert(rest.skip(valid_len(rest)) =~= buf.skip(valid_len(buf)));
    } else {
        assert(buf.skip(0) =~= buf);
    }
}

} // verus!
