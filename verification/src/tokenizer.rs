//! GPT-2 byte-level BPE tokenizer, loaded from GGUF metadata.
//!
//! LFM2 (and Llama-3, Qwen2, etc.) ship a `tokenizer.ggml.model = gpt2`
//! tokenizer: byte-level BPE with a merge table. There is no byte-fallback —
//! every one of the 256 raw bytes is mapped to a printable Unicode char via
//! the GPT-2 `bytes_to_unicode` table, so any input is representable.
//!
//! Pipeline:
//!   text ──pretokenize──▶ words ──byte-level encode──▶ symbol strings
//!        ──BPE merges──▶ pieces ──vocab lookup──▶ token ids
//!
//! Special/control tokens (`<|im_start|>`, `<|im_end|>`, …) are matched
//! literally *before* BPE so they map to their single reserved id.

use std::collections::HashMap;

use vstd::hash_map::StringHashMap;
use vstd::prelude::*;
use vstd::string::*;
use vstd::utf8::*;

use crate::error::{GgufError, Result};
use crate::text::{
    alphabetic, continues, from_chars, numeric, quoted, quoted_string, stands_at, str_eq,
    string_from_utf8_lossy, string_views, to_chars, utf8_lossy, whitespace,
};
use crate::types::{str_views, FileView, GgufFile};

verus! {

// ── Byte-level alphabet ─────────────────────────────────────────────────────

/// Whether a byte stands for itself in the byte-level alphabet: the printable
/// Latin-1 characters.
pub open spec fn is_direct(b: u8) -> bool {
    0x21 <= b <= 0x7E || 0xA1 <= b <= 0xAC || 0xAE <= b
}

/// How many bytes below `b` do not stand for themselves.
pub open spec fn indirect_below(b: nat) -> nat
    decreases b,
{
    if b == 0 {
        0
    } else {
        indirect_below((b - 1) as nat) + if is_direct((b - 1) as u8) {
            0nat
        } else {
            1nat
        }
    }
}

/// The code point of a byte in the byte-level alphabet. Bytes that do not stand
/// for themselves take the code points from 256 on, in order.
pub open spec fn byte_code(b: u8) -> nat {
    if is_direct(b) {
        b as nat
    } else {
        256 + indirect_below(b as nat)
    }
}

/// The character of a byte in the byte-level alphabet.
pub open spec fn byte_char(b: u8) -> char {
    byte_code(b) as char
}

/// The byte of a character of the byte-level alphabet, by its code point.
pub open spec fn code_byte(code: nat) -> Option<u8> {
    if exists|b: u8| byte_code(b) == code {
        Some(choose|b: u8| byte_code(b) == code)
    } else {
        None
    }
}

/// What `indirect_below` comes to: the bytes that do not stand for themselves
/// are 0 to 0x20, 0x7F to 0xA0 and 0xAD.
pub(crate) proof fn lemma_indirect_below(b: nat)
    requires
        b <= 256,
    ensures
        b <= 0x21 ==> indirect_below(b) == b,
        0x21 <= b <= 0x7F ==> indirect_below(b) == 0x21,
        0x7F <= b <= 0xA1 ==> indirect_below(b) == 0x21 + (b - 0x7F),
        0xA1 <= b <= 0xAD ==> indirect_below(b) == 0x43,
        0xAE <= b ==> indirect_below(b) == 0x44,
    decreases b,
{
    if b > 0 {
        lemma_indirect_below((b - 1) as nat);
    }
}

proof fn lemma_byte_code_injective(a: u8, b: u8)
    requires
        byte_code(a) == byte_code(b),
    ensures
        a == b,
{
    lemma_indirect_below(a as nat);
    lemma_indirect_below(b as nat);
}

proof fn lemma_byte_code_range(b: u8)
    ensures
        byte_code(b) < 324,
        (byte_char(b) as u32) as nat == byte_code(b),
{
    lemma_indirect_below(b as nat);
}

/// Bytes and characters of the byte-level alphabet correspond one to one: the
/// character of a byte leads back to the byte, and the byte of a character leads
/// back to the character.
pub proof fn law_byte_alphabet_bijective(b: u8, code: nat)
    ensures
        code_byte(byte_code(b)) == Some(b),
        code_byte(code) matches Some(back) ==> byte_code(back) == code,
{
    let back = choose|x: u8| byte_code(x) == byte_code(b);
    assert(byte_code(b) == byte_code(b));
    lemma_byte_code_injective(back, b);
}

/// Build the GPT-2 `bytes_to_unicode` bijection: the character of each byte, and
/// the byte of each character by its code point.
pub fn build_byte_maps() -> (r: ([char; 256], HashMap<u32, u8>))
    ensures
        forall|b: u8| #[trigger] r.0@[b as int] == byte_char(b),
        forall|code: u32|
            #![trigger r.1@.contains_key(code)]
            r.1@.contains_key(code) <==> code_byte(code as nat) is Some,
        forall|code: u32|
            #![trigger r.1@[code]]
            r.1@.contains_key(code) ==> code_byte(code as nat) == Some(r.1@[code]),
        r.1@.dom().len() == 256,
{
    broadcast use vstd::std_specs::hash::group_hash_axioms;

    let mut byte_to_char: [char; 256] = ['\0'; 256];
    let mut char_to_byte: HashMap<u32, u8> = HashMap::new();
    let mut next: u32 = 256;  // code points for the bytes that do not stand for themselves
    let mut b: usize = 0;
    while b < 256
        invariant
            b <= 256,
            next == 256 + indirect_below(b as nat),
            forall|x: u8| x < b ==> #[trigger] byte_to_char@[x as int] == byte_char(x),
            forall|x: u8|
                x < b ==> char_to_byte@.contains_key(#[trigger] byte_code(x) as u32)
                    && char_to_byte@[byte_code(x) as u32] == x,
            forall|code: u32| #[trigger]
                char_to_byte@.contains_key(code) ==> exists|x: u8|
                    x < b && #[trigger] byte_code(x) == code,
            char_to_byte@.dom().len() == b,
        decreases 256 - b,
    {
        broadcast use vstd::std_specs::hash::group_hash_axioms;

        let direct: bool = (0x21 <= b && b <= 0x7E) || (0xA1 <= b && b <= 0xAC) || 0xAE <= b;
        let cp: u32 = if direct {
            b as u32
        } else {
            next
        };
        proof {
            lemma_indirect_below(b as nat);
            lemma_indirect_below(b as nat + 1);
            assert(direct == is_direct(b as u8));
            assert(cp == byte_code(b as u8));
            assert forall|x: u8| x < b implies #[trigger] byte_code(x) != cp by {
                if byte_code(x) == cp {
                    lemma_byte_code_injective(x, b as u8);
                }
            }
            assert forall|x: u8| #[trigger] byte_code(x) < 324 by {
                lemma_byte_code_range(x);
            }
            lemma_byte_code_range(b as u8);
        }
        if !direct {
            next = next + 1;
        }
        let ch: char = char::from_u32(cp).unwrap();
        let ghost before = char_to_byte@;
        let ghost chars_before = byte_to_char@;
        byte_to_char[b] = ch;
        char_to_byte.insert(cp, b as u8);
        proof {
            char_u32_cast(ch, cp);
            assert(ch == byte_char(b as u8));
            assert(byte_to_char@ == chars_before.update(b as int, ch));
            assert forall|x: u8| x < b + 1 implies #[trigger] byte_to_char@[x as int] == byte_char(
                x,
            ) by {
                if x < b {
                    assert(chars_before[x as int] == byte_char(x));
                } else {
                    assert(x == b as u8);
                }
            }
            assert(!before.contains_key(cp));
            assert forall|code: u32| #[trigger] char_to_byte@.contains_key(code) implies exists|
                x: u8,
            |
                x < b + 1 && #[trigger] byte_code(x) == code by {
                if code == cp {
                    assert(byte_code(b as u8) == code);
                } else {
                    assert(before.contains_key(code));
                    let x = choose|x: u8| x < b && #[trigger] byte_code(x) == code;
                    assert(byte_code(x) == code);
                }
            }
        }
        b += 1;
    }
    proof {
        assert forall|code: u32| #![trigger char_to_byte@.contains_key(code)]
            char_to_byte@.contains_key(code) <==> code_byte(code as nat) is Some by {
            if code_byte(code as nat) is Some {
                let x = choose|x: u8| byte_code(x) == code;
                assert(char_to_byte@.contains_key(byte_code(x) as u32));
            }
        }
        assert forall|code: u32| #![trigger char_to_byte@[code]]
            char_to_byte@.contains_key(code) implies code_byte(code as nat) == Some(
            char_to_byte@[code],
        ) by {
            let x = choose|x: u8| x < 256 && #[trigger] byte_code(x) == code;
            assert(char_to_byte@[byte_code(x) as u32] == x);
            law_byte_alphabet_bijective(x, code as nat);
        }
    }
    (byte_to_char, char_to_byte)
}

// ── Pretokenization ─────────────────────────────────────────────────────────

/// The classes of characters that make up a word.
#[derive(Clone, Copy, PartialEq, Eq, Structural)]
pub enum CharClass {
    Letter,
    Number,
    Space,
    /// Neither a letter nor a number nor white space.
    Other,
}

impl CharClass {
    /// Whether a character belongs to this class.
    pub open spec fn holds(self, c: char) -> bool {
        match self {
            CharClass::Letter => alphabetic(c),
            CharClass::Number => numeric(c),
            CharClass::Space => whitespace(c),
            CharClass::Other => !whitespace(c) && !alphabetic(c) && !numeric(c),
        }
    }

    fn contains(self, c: char) -> (r: bool)
        ensures
            r == self.holds(c),
    {
        match self {
            CharClass::Letter => c.is_alphabetic(),
            CharClass::Number => c.is_numeric(),
            CharClass::Space => c.is_whitespace(),
            CharClass::Other => !c.is_whitespace() && !c.is_alphabetic() && !c.is_numeric(),
        }
    }
}

/// Where the run of characters of one class that begins at `j` ends.
pub open spec fn run_end(chars: Seq<char>, j: int, class: CharClass) -> int
    decreases chars.len() - j,
{
    if 0 <= j < chars.len() && class.holds(chars[j]) {
        run_end(chars, j + 1, class)
    } else {
        j
    }
}

proof fn lemma_run_end(chars: Seq<char>, j: int, class: CharClass)
    requires
        0 <= j <= chars.len(),
    ensures
        j <= run_end(chars, j, class) <= chars.len(),
    decreases chars.len() - j,
{
    if j < chars.len() && class.holds(chars[j]) {
        lemma_run_end(chars, j + 1, class);
    }
}

fn scan_run(chars: &[char], from: usize, class: CharClass) -> (end: usize)
    requires
        from <= chars@.len(),
    ensures
        end == run_end(chars@, from as int, class),
        from <= end <= chars@.len(),
{
    let mut j: usize = from;
    while j < chars.len() && class.contains(chars[j])
        invariant
            from <= j <= chars@.len(),
            run_end(chars@, from as int, class) == run_end(chars@, j as int, class),
        decreases chars@.len() - j,
    {
        j += 1;
    }
    j
}

/// The length of the contraction suffix (`'s`, `'t`, `'re`, `'ve`, `'m`, `'ll`,
/// `'d`) that stands at `i`, with its apostrophe.
pub open spec fn contraction(chars: Seq<char>, i: int) -> Option<int> {
    if continues(chars, i, seq!['\'', 's']) || continues(chars, i, seq!['\'', 't']) || continues(
        chars,
        i,
        seq!['\'', 'm'],
    ) || continues(chars, i, seq!['\'', 'd']) {
        Some(2int)
    } else if continues(chars, i, seq!['\'', 'r', 'e']) || continues(
        chars,
        i,
        seq!['\'', 'v', 'e'],
    ) || continues(chars, i, seq!['\'', 'l', 'l']) {
        Some(3int)
    } else {
        None
    }
}

proof fn lemma_continues2(chars: Seq<char>, i: int, a: char, b: char)
    requires
        0 <= i,
    ensures
        continues(chars, i, seq![a, b]) <==> i + 2 <= chars.len() && chars[i] == a && chars[i + 1]
            == b,
{
    if i + 2 <= chars.len() {
        let part = chars.subrange(i, i + 2);
        assert(part[0] == chars[i] && part[1] == chars[i + 1]);
        if chars[i] == a && chars[i + 1] == b {
            assert(part =~= seq![a, b]);
        }
    }
}

proof fn lemma_continues3(chars: Seq<char>, i: int, a: char, b: char, c: char)
    requires
        0 <= i,
    ensures
        continues(chars, i, seq![a, b, c]) <==> i + 3 <= chars.len() && chars[i] == a && chars[i
            + 1] == b && chars[i + 2] == c,
{
    if i + 3 <= chars.len() {
        let part = chars.subrange(i, i + 3);
        assert(part[0] == chars[i] && part[1] == chars[i + 1] && part[2] == chars[i + 2]);
        if chars[i] == a && chars[i + 1] == b && chars[i + 2] == c {
            assert(part =~= seq![a, b, c]);
        }
    }
}

/// Match a GPT-2 contraction suffix at `i`. Returns the length in chars including
/// the apostrophe.
fn match_contraction(chars: &[char], i: usize) -> (r: Option<usize>)
    requires
        i < chars@.len(),
    ensures
        match r {
            Some(len) => contraction(chars@, i as int) == Some(len as int),
            None => contraction(chars@, i as int) is None,
        },
{
    proof {
        lemma_continues2(chars@, i as int, '\'', 's');
        lemma_continues2(chars@, i as int, '\'', 't');
        lemma_continues2(chars@, i as int, '\'', 'm');
        lemma_continues2(chars@, i as int, '\'', 'd');
        lemma_continues3(chars@, i as int, '\'', 'r', 'e');
        lemma_continues3(chars@, i as int, '\'', 'v', 'e');
        lemma_continues3(chars@, i as int, '\'', 'l', 'l');
    }
    let left: usize = chars.len() - i;
    if left < 2 || chars[i] != '\'' {
        return None;
    }
    let a: char = chars[i + 1];
    if a == 's' || a == 't' || a == 'm' || a == 'd' {
        return Some(2);
    }
    if left < 3 {
        return None;
    }
    let b: char = chars[i + 2];
    if (a == 'r' && b == 'e') || (a == 'v' && b == 'e') || (a == 'l' && b == 'l') {
        return Some(3);
    }
    None
}

/// Where the word that begins at `i` ends: a contraction suffix; an optional
/// space and a run of letters, of numbers, or of other characters; or a run of
/// white space, whose last character is left to the word that follows it.
pub open spec fn word_end(chars: Seq<char>, i: int) -> int {
    let n = chars.len();
    let start = if chars[i] == ' ' {
        i + 1
    } else {
        i
    };
    if contraction(chars, i) is Some {
        i + contraction(chars, i)->0
    } else if start < n && alphabetic(chars[start]) {
        run_end(chars, start + 1, CharClass::Letter)
    } else if start < n && numeric(chars[start]) {
        run_end(chars, start + 1, CharClass::Number)
    } else if start < n && !whitespace(chars[start]) {
        run_end(chars, start + 1, CharClass::Other)
    } else {
        let end = run_end(chars, i + 1, CharClass::Space);
        if end < n && end - i > 1 {
            end - 1
        } else {
            end
        }
    }
}

proof fn lemma_word_end(chars: Seq<char>, i: int)
    requires
        0 <= i < chars.len(),
    ensures
        i < word_end(chars, i) <= chars.len(),
{
    let start = if chars[i] == ' ' {
        i + 1
    } else {
        i
    };
    lemma_run_end(chars, i + 1, CharClass::Space);
    if start < chars.len() {
        lemma_run_end(chars, start + 1, CharClass::Letter);
        lemma_run_end(chars, start + 1, CharClass::Number);
        lemma_run_end(chars, start + 1, CharClass::Other);
    }
}

/// The words that a text is cut into, from the character `i` on.
pub open spec fn words_from(chars: Seq<char>, i: int) -> Seq<Seq<char>>
    decreases chars.len() - i,
{
    if 0 <= i < chars.len() && i < word_end(chars, i) <= chars.len() {
        seq![chars.subrange(i, word_end(chars, i))] + words_from(chars, word_end(chars, i))
    } else {
        Seq::empty()
    }
}

/// The words that a text is cut into.
pub open spec fn words(chars: Seq<char>) -> Seq<Seq<char>> {
    words_from(chars, 0)
}

/// Cutting a text into words loses nothing: the words, one after the other, are
/// the text from `i` on.
proof fn lemma_words_cover(chars: Seq<char>, i: int)
    requires
        0 <= i <= chars.len(),
    ensures
        words_from(chars, i).flatten() == chars.subrange(i, chars.len() as int),
        forall|k: int|
            0 <= k < words_from(chars, i).len() ==> (#[trigger] words_from(chars, i)[k]).len() > 0,
    decreases chars.len() - i,
{
    let all = words_from(chars, i);
    if i < chars.len() {
        lemma_word_end(chars, i);
        let e = word_end(chars, i);
        lemma_words_cover(chars, e);
        assert(all.first() == chars.subrange(i, e));
        assert(all.drop_first() =~= words_from(chars, e));
        assert(all.flatten() == all.first() + all.drop_first().flatten());
        assert(chars.subrange(i, e) + chars.subrange(e, chars.len() as int) =~= chars.subrange(
            i,
            chars.len() as int,
        ));
        assert forall|k: int| 0 <= k < all.len() implies (#[trigger] all[k]).len() > 0 by {
            if k > 0 {
                assert(all[k] == words_from(chars, e)[k - 1]);
            }
        }
    } else {
        assert(all =~= Seq::empty());
        assert(chars.subrange(i, chars.len() as int) =~= Seq::empty());
    }
}

/// The words of a text, one after the other, are the text, and no word is empty.
pub proof fn law_words_are_the_text(text: Seq<char>)
    ensures
        words(text).flatten() == text,
        forall|k: int| 0 <= k < words(text).len() ==> (#[trigger] words(text)[k]).len() > 0,
{
    lemma_words_cover(text, 0);
    assert(text.subrange(0, text.len() as int) =~= text);
}

/// GPT-2 pretokenization.
///
/// Pattern approximated:
///   's|'t|'re|'ve|'m|'ll|'d | ?\p{L}+ | ?\p{N}+ | ?[^\s\p{L}\p{N}]+ |
///   \s+(?!\S) | \s+
///
/// Returns the list of word spans (as owned strings) in order.
pub fn pretokenize(text: &str) -> (r: Vec<String>)
    ensures
        string_views(r@) == words(text@),
{
    let chars: Vec<char> = to_chars(text);
    let n: usize = chars.len();
    let mut out: Vec<String> = Vec::new();
    let mut i: usize = 0;
    proof {
        assert(string_views(out@) + words_from(text@, 0) =~= words(text@));
    }
    while i < n
        invariant
            i <= n,
            n == chars@.len(),
            chars@ == text@,
            words(text@) == string_views(out@) + words_from(text@, i as int),
        decreases n - i,
    {
        proof {
            lemma_word_end(text@, i as int);
        }
        let end: usize = next_word_end(chars.as_slice(), i);
        let word = from_chars(chars.as_slice(), i, end);
        let ghost before = out@;
        out.push(word);
        proof {
            assert(string_views(out@) =~= string_views(before).push(word@));
            assert(words_from(text@, i as int) == seq![word@] + words_from(text@, end as int));
            assert(string_views(before) + (seq![word@] + words_from(text@, end as int))
                =~= string_views(out@) + words_from(text@, end as int));
        }
        i = end;
    }
    proof {
        assert(words_from(text@, n as int) =~= Seq::empty());
        assert(string_views(out@) + words_from(text@, n as int) =~= string_views(out@));
    }
    out
}

/// Where the word that begins at `i` ends.
fn next_word_end(chars: &[char], i: usize) -> (end: usize)
    requires
        i < chars@.len(),
    ensures
        end == word_end(chars@, i as int),
{
    let n: usize = chars.len();

    // Contractions: '  followed by known suffix.
    if let Some(len) = match_contraction(chars, i) {
        return i + len;
    }
    // Optional single leading space, then a run of one category.

    let start: usize = if chars[i] == ' ' {
        i + 1
    } else {
        i
    };
    if start < n {
        let c: char = chars[start];
        if c.is_alphabetic() {
            return scan_run(chars, start + 1, CharClass::Letter);
        }
        if c.is_numeric() {
            return scan_run(chars, start + 1, CharClass::Number);
        }
        if !c.is_whitespace() {
            return scan_run(chars, start + 1, CharClass::Other);
        }
    }
    // White space. If it is followed by something else, its last character is
    // left to prefix that word.

    let end: usize = scan_run(chars, i + 1, CharClass::Space);
    if end < n && end - i > 1 {
        end - 1
    } else {
        end
    }
}

// ── Merging ─────────────────────────────────────────────────────────────────

/// The key of a pair of symbols in the merge table. The separator U+0001 does not
/// occur in a symbol, which is made of the byte-level alphabet only.
pub open spec fn pair_key(left: Seq<char>, right: Seq<char>) -> Seq<char> {
    left.push('\u{1}') + right
}

/// The rank of the pair of symbols at `i`, where the merge table has one.
pub open spec fn pair_rank(
    ranks: Map<Seq<char>, u32>,
    symbols: Seq<Seq<char>>,
    i: int,
) -> Option<u32> {
    let key = pair_key(symbols[i], symbols[i + 1]);
    if ranks.contains_key(key) && ranks[key] < u32::MAX {
        Some(ranks[key])
    } else {
        None
    }
}

/// Whether the pair at `i` is the one to merge next: the one of the lowest rank,
/// and the leftmost of those.
pub open spec fn is_best_pair(
    ranks: Map<Seq<char>, u32>,
    symbols: Seq<Seq<char>>,
    i: int,
) -> bool {
    &&& 0 <= i < symbols.len() - 1
    &&& pair_rank(ranks, symbols, i) is Some
    &&& forall|j: int|
        0 <= j < symbols.len() - 1 && #[trigger] pair_rank(ranks, symbols, j) is Some ==> {
            ||| pair_rank(ranks, symbols, i)->0 < pair_rank(ranks, symbols, j)->0
            ||| pair_rank(ranks, symbols, i)->0 == pair_rank(ranks, symbols, j)->0 && i <= j
        }
}

/// The symbols with the pair at `i` merged into one symbol.
pub open spec fn merge_at(symbols: Seq<Seq<char>>, i: int) -> Seq<Seq<char>> {
    symbols.update(i, symbols[i] + symbols[i + 1]).remove(i + 1)
}

/// The symbols after all merges: as long as some pair has a rank, the best pair
/// is merged.
pub open spec fn merged(ranks: Map<Seq<char>, u32>, symbols: Seq<Seq<char>>) -> Seq<Seq<char>>
    decreases symbols.len(),
{
    if exists|i: int| is_best_pair(ranks, symbols, i) {
        merged(ranks, merge_at(symbols, choose|i: int| is_best_pair(ranks, symbols, i)))
    } else {
        symbols
    }
}

proof fn lemma_merge_step(ranks: Map<Seq<char>, u32>, symbols: Seq<Seq<char>>, i: int)
    requires
        is_best_pair(ranks, symbols, i),
    ensures
        merged(ranks, symbols) == merged(ranks, merge_at(symbols, i)),
{
    let c = choose|c: int| is_best_pair(ranks, symbols, c);
    assert(is_best_pair(ranks, symbols, c));
    assert(pair_rank(ranks, symbols, i) is Some);
    assert(pair_rank(ranks, symbols, c) is Some);
    assert(c == i);
}

proof fn lemma_flatten_merge_at(symbols: Seq<Seq<char>>, i: int)
    requires
        0 <= i < symbols.len() - 1,
    ensures
        merge_at(symbols, i).flatten() == symbols.flatten(),
    decreases symbols.len(),
{
    let after = merge_at(symbols, i);
    assert(symbols.flatten() == symbols.first() + symbols.drop_first().flatten());
    assert(after.flatten() == after.first() + after.drop_first().flatten());
    if i == 0 {
        let rest = symbols.drop_first();
        assert(rest.flatten() == rest.first() + rest.drop_first().flatten());
        assert(after.drop_first() =~= rest.drop_first());
        assert(after.first() == symbols[0] + symbols[1]);
        assert(symbols[0] + symbols[1] + rest.drop_first().flatten() =~= symbols[0] + (symbols[1]
            + rest.drop_first().flatten()));
    } else {
        lemma_flatten_merge_at(symbols.drop_first(), i - 1);
        assert(after.drop_first() =~= merge_at(symbols.drop_first(), i - 1));
    }
}

/// Merging never changes what the symbols spell, one after the other.
pub proof fn law_merging_keeps_the_text(ranks: Map<Seq<char>, u32>, symbols: Seq<Seq<char>>)
    ensures
        merged(ranks, symbols).flatten() == symbols.flatten(),
    decreases symbols.len(),
{
    if exists|i: int| is_best_pair(ranks, symbols, i) {
        let i = choose|i: int| is_best_pair(ranks, symbols, i);
        lemma_flatten_merge_at(symbols, i);
        law_merging_keeps_the_text(ranks, merge_at(symbols, i));
    }
}

/// Whether the rank `r` is no better than the rank `best`.
spec fn no_better(best: Option<u32>, r: Option<u32>) -> bool {
    r is Some ==> best is Some && best->0 <= r->0
}

/// The leftmost of the best of the first ranks.
proof fn lemma_best_rank(ranks: Seq<Option<u32>>) -> (b: int)
    requires
        ranks.len() > 0,
    ensures
        0 <= b < ranks.len(),
        forall|j: int| 0 <= j < ranks.len() ==> #[trigger] no_better(ranks[b], ranks[j]),
        forall|j: int|
            0 <= j < b && ranks[j] is Some ==> #[trigger] ranks[j] != ranks[b],
    decreases ranks.len(),
{
    let last = ranks.len() - 1;
    if last == 0 {
        0
    } else {
        let front = ranks.drop_last();
        let b = lemma_best_rank(front);
        assert forall|j: int| 0 <= j < last implies #[trigger] no_better(ranks[b], ranks[j]) by {
            assert(no_better(front[b], front[j]));
        }
        assert forall|j: int| 0 <= j < b && ranks[j] is Some implies #[trigger] ranks[j]
            != ranks[b] by {
            assert(front[j] != front[b]);
        }
        if no_better(ranks[b], ranks[last]) {
            b
        } else {
            assert forall|j: int| 0 <= j < last implies #[trigger] no_better(
                ranks[last],
                ranks[j],
            ) && (ranks[j] is Some ==> ranks[j] != ranks[last]) by {
                assert(no_better(ranks[b], ranks[j]));
            }
            last
        }
    }
}

/// After all merges, no pair of neighbours has a rank any more, and merging again
/// changes nothing.
pub proof fn law_merging_is_exhaustive(ranks: Map<Seq<char>, u32>, symbols: Seq<Seq<char>>)
    ensures
        forall|i: int|
            0 <= i < merged(ranks, symbols).len() - 1 ==> #[trigger] pair_rank(
                ranks,
                merged(ranks, symbols),
                i,
            ) is None,
        merged(ranks, merged(ranks, symbols)) == merged(ranks, symbols),
    decreases symbols.len(),
{
    if exists|i: int| is_best_pair(ranks, symbols, i) {
        let i = choose|i: int| is_best_pair(ranks, symbols, i);
        law_merging_is_exhaustive(ranks, merge_at(symbols, i));
    } else {
        if exists|i: int|
            0 <= i < symbols.len() - 1 && #[trigger] pair_rank(ranks, symbols, i) is Some {
            let some = choose|i: int|
                0 <= i < symbols.len() - 1 && #[trigger] pair_rank(ranks, symbols, i) is Some;
            let all = Seq::new((symbols.len() - 1) as nat, |i: int| pair_rank(ranks, symbols, i));
            let i = lemma_best_rank(all);
            assert(no_better(all[i], all[some]));
            assert forall|j: int|
                0 <= j < symbols.len() - 1 && #[trigger] pair_rank(ranks, symbols, j)
                    is Some implies {
                ||| pair_rank(ranks, symbols, i)->0 < pair_rank(ranks, symbols, j)->0
                ||| pair_rank(ranks, symbols, i)->0 == pair_rank(ranks, symbols, j)->0 && i <= j
            } by {
                assert(no_better(all[i], all[j]));
                assert(j < i ==> all[j] != all[i]);
            }
            assert(is_best_pair(ranks, symbols, i));
        }
    }
}

/// Whether `runs` are the symbols cut into runs of neighbours, each run written as one
/// symbol. The run `i` starts at `cuts[i]` and ends ahead of `cuts[i + 1]`.
pub open spec fn are_runs(
    symbols: Seq<Seq<char>>,
    cuts: Seq<int>,
    runs: Seq<Seq<char>>,
) -> bool {
    &&& cuts.len() == runs.len() + 1
    &&& cuts.first() == 0
    &&& cuts.last() == symbols.len()
    &&& forall|i: int, j: int| 0 <= i < j < cuts.len() ==> cuts[i] < cuts[j]
    &&& forall|i: int|
        0 <= i < runs.len() ==> #[trigger] runs[i] == symbols.subrange(
            cuts[i],
            cuts[i + 1],
        ).flatten()
}

/// The place, among the symbols, of what has the place `c` once the pair at `i` is
/// merged.
spec fn place_before(i: int, c: int) -> int {
    if c <= i {
        c
    } else {
        c + 1
    }
}

proof fn lemma_run_before_merge(symbols: Seq<Seq<char>>, i: int, a: int, b: int)
    requires
        0 <= i < symbols.len() - 1,
        0 <= a < b < symbols.len(),
    ensures
        merge_at(symbols, i).subrange(a, b).flatten() == symbols.subrange(
            place_before(i, a),
            place_before(i, b),
        ).flatten(),
{
    let after = merge_at(symbols, i);
    if a <= i < b {
        let run = symbols.subrange(a, b + 1);
        assert(after.subrange(a, b) =~= merge_at(run, i - a));
        lemma_flatten_merge_at(run, i - a);
    } else {
        assert(after.subrange(a, b) =~= symbols.subrange(place_before(i, a), place_before(i, b)));
    }
}

/// Each symbol after all merges is a run of neighbouring symbols, and there are no more
/// of them than before.
pub proof fn law_merged_symbols_are_runs(ranks: Map<Seq<char>, u32>, symbols: Seq<Seq<char>>)
    ensures
        merged(ranks, symbols).len() <= symbols.len(),
        exists|cuts: Seq<int>| are_runs(symbols, cuts, merged(ranks, symbols)),
    decreases symbols.len(),
{
    if exists|i: int| is_best_pair(ranks, symbols, i) {
        let i = choose|i: int| is_best_pair(ranks, symbols, i);
        let after = merge_at(symbols, i);
        law_merged_symbols_are_runs(ranks, after);
        let runs = merged(ranks, after);
        let later = choose|cuts: Seq<int>| are_runs(after, cuts, runs);
        let cuts = Seq::new(later.len(), |j: int| place_before(i, later[j]));
        assert forall|j: int| 0 <= j < runs.len() implies #[trigger] runs[j] == symbols.subrange(
            cuts[j],
            cuts[j + 1],
        ).flatten() by {
            let (a, b) = (later[j], later[j + 1]);
            assert(0 <= a) by {
                if j > 0 {
                    assert(later[0] < later[j]);
                }
            }
            assert(b <= after.len()) by {
                if j + 1 < later.len() - 1 {
                    assert(later[j + 1] < later[later.len() - 1]);
                }
            }
            lemma_run_before_merge(symbols, i, a, b);
        }
        assert(are_runs(symbols, cuts, runs));
    } else {
        let cuts = Seq::new(symbols.len() + 1, |j: int| j);
        assert forall|j: int| 0 <= j < symbols.len() implies #[trigger] symbols[j]
            == symbols.subrange(cuts[j], cuts[j + 1]).flatten() by {
            let run = symbols.subrange(j, j + 1);
            assert(run =~= seq![symbols[j]]);
            run.lemma_flatten_one_element();
        }
        assert(are_runs(symbols, cuts, symbols));
    }
}

/// The symbols of some bytes: one of the byte-level alphabet for each byte.
pub open spec fn byte_symbols(bytes: Seq<u8>) -> Seq<Seq<char>> {
    Seq::new(bytes.len(), |i: int| seq![byte_char(bytes[i])])
}

/// The ids of the characters of a symbol that are tokens themselves.
pub open spec fn char_ids(vocab: Map<Seq<char>, u32>, symbol: Seq<char>) -> Seq<u32>
    decreases symbol.len(),
{
    if symbol.len() == 0 {
        Seq::empty()
    } else {
        let before = char_ids(vocab, symbol.drop_last());
        if vocab.contains_key(seq![symbol.last()]) {
            before.push(vocab[seq![symbol.last()]])
        } else {
            before
        }
    }
}

/// The ids of a symbol: its own, or those of its characters where the vocabulary
/// does not have it.
pub open spec fn symbol_ids(vocab: Map<Seq<char>, u32>, symbol: Seq<char>) -> Seq<u32> {
    if vocab.contains_key(symbol) {
        seq![vocab[symbol]]
    } else {
        char_ids(vocab, symbol)
    }
}

/// The ids of several symbols.
pub open spec fn symbols_ids(vocab: Map<Seq<char>, u32>, symbols: Seq<Seq<char>>) -> Seq<u32>
    decreases symbols.len(),
{
    if symbols.len() == 0 {
        Seq::empty()
    } else {
        symbols_ids(vocab, symbols.drop_last()) + symbol_ids(vocab, symbols.last())
    }
}

/// A tokenizer as mathematics sees it.
#[verifier::ext_equal]
pub struct TokenizerView {
    /// The token of each id, in the byte-level alphabet.
    pub tokens: Seq<Seq<char>>,
    /// The id of each token.
    pub vocab: Map<Seq<char>, u32>,
    /// The rank of each pair of symbols that merges.
    pub ranks: Map<Seq<char>, u32>,
    /// The control and user-defined tokens with their ids.
    pub special: Seq<(Seq<char>, u32)>,
    pub bos_token_id: Option<u32>,
    pub eos_token_id: Option<u32>,
    pub add_bos: bool,
    pub add_eos: bool,
}

impl TokenizerView {
    /// The ids of one word.
    pub open spec fn word_ids(self, word: Seq<char>) -> Seq<u32> {
        symbols_ids(self.vocab, merged(self.ranks, byte_symbols(encode_utf8(word))))
    }

    /// The ids of several words.
    pub open spec fn words_ids(self, ws: Seq<Seq<char>>) -> Seq<u32>
        decreases ws.len(),
    {
        if ws.len() == 0 {
            Seq::empty()
        } else {
            self.words_ids(ws.drop_last()) + self.word_ids(ws.last())
        }
    }

    /// The ids of a text without special tokens in it.
    pub open spec fn plain_ids(self, text: Seq<char>) -> Seq<u32> {
        self.words_ids(words(text))
    }

    /// Whether the special token `k` at the character `pos` is the one to take
    /// first from a text: the earliest one; at one place, the longest; of equal
    /// ones, the first.
    pub open spec fn is_next_special(self, text: Seq<char>, pos: int, k: int) -> bool {
        &&& 0 <= k < self.special.len()
        &&& continues(text, pos, self.special[k].0)
        &&& forall|p: int, j: int|
            0 <= j < self.special.len() && #[trigger] continues(text, p, self.special[j].0) ==> {
                ||| pos < p
                ||| pos == p && self.special[j].0.len() < self.special[k].0.len()
                ||| pos == p && self.special[j].0.len() == self.special[k].0.len() && k <= j
            }
    }

    /// The ids of a text: special tokens stand for themselves, what is between
    /// them is cut into words and merged.
    pub open spec fn text_ids(self, text: Seq<char>) -> Seq<u32>
        decreases text.len(),
    {
        if text.len() == 0 {
            Seq::empty()
        } else if exists|pos: int, k: int| self.is_next_special(text, pos, k) {
            let (pos, k) = choose|pos: int, k: int| self.is_next_special(text, pos, k);
            let len = self.special[k].0.len();
            if len > 0 {
                self.plain_ids(text.take(pos)) + seq![self.special[k].1] + self.text_ids(
                    text.skip(pos + len),
                )
            } else {
                Seq::empty()
            }
        } else {
            self.plain_ids(text)
        }
    }

    /// A text whose encoding comes to an end: the empty string, where it is a special
    /// token, is never the next one, so that each special token that is found takes
    /// characters away.
    pub open spec fn encodable(self, text: Seq<char>) -> bool
        decreases text.len(),
    {
        if text.len() == 0 {
            true
        } else if exists|pos: int, k: int| self.is_next_special(text, pos, k) {
            let (pos, k) = choose|pos: int, k: int| self.is_next_special(text, pos, k);
            let len = self.special[k].0.len();
            len > 0 && self.encodable(text.skip(pos + len))
        } else {
            true
        }
    }

    /// The ids of a text, with the tokens for its beginning and its end where the
    /// model wants them.
    pub open spec fn framed_ids(self, text: Seq<char>) -> Seq<u32> {
        let front = if self.add_bos && self.bos_token_id is Some {
            seq![self.bos_token_id->0]
        } else {
            Seq::empty()
        };
        let back = if self.add_eos && self.eos_token_id is Some {
            seq![self.eos_token_id->0]
        } else {
            Seq::empty()
        };
        front + self.text_ids(text) + back
    }

    /// No special token is the empty string, which would occur everywhere.
    pub open spec fn specials_nonempty(self) -> bool {
        forall|k: int| 0 <= k < self.special.len() ==> (#[trigger] self.special[k]).0.len() > 0
    }
}

/// The bytes that a piece in the byte-level alphabet stands for. Characters
/// outside the alphabet stand for nothing.
pub open spec fn piece_bytes(piece: Seq<char>) -> Seq<u8>
    decreases piece.len(),
{
    if piece.len() == 0 {
        Seq::empty()
    } else {
        let before = piece_bytes(piece.drop_last());
        match code_byte((piece.last() as u32) as nat) {
            Some(b) => before.push(b),
            None => before,
        }
    }
}

impl TokenizerView {
    /// The bytes of one token: none for an id outside the vocabulary.
    pub open spec fn id_bytes(self, id: u32) -> Seq<u8> {
        if id < self.tokens.len() {
            piece_bytes(self.tokens[id as int])
        } else {
            Seq::empty()
        }
    }

    /// The bytes of several tokens, one after the other.
    pub open spec fn ids_bytes(self, ids: Seq<u32>) -> Seq<u8>
        decreases ids.len(),
    {
        if ids.len() == 0 {
            Seq::empty()
        } else {
            self.ids_bytes(ids.drop_last()) + self.id_bytes(ids.last())
        }
    }
}

/// The tables of a tokenizer.
pub struct Tables {
    /// token string (byte-level unicode form) → id
    vocab: StringHashMap<u32>,
    /// id → token string (byte-level unicode form)
    tokens: Vec<String>,
    /// merge rank: lower rank = higher priority, by the key of the pair
    merge_ranks: StringHashMap<u32>,
    /// byte value → mapped unicode char
    byte_to_char: [char; 256],
    /// code point of the mapped unicode char → byte value
    char_to_byte: HashMap<u32, u8>,
    /// special tokens (control + user-defined) and their ids
    special: Vec<(Vec<char>, u32)>,
}

/// A byte-level BPE tokenizer.
pub struct Tokenizer {
    pub tables: Tables,
    pub bos_token_id: Option<u32>,
    pub eos_token_id: Option<u32>,
    pub add_bos: bool,
    pub add_eos: bool,
}

/// The views of several special tokens.
pub open spec fn special_views(v: Seq<(Vec<char>, u32)>) -> Seq<(Seq<char>, u32)> {
    Seq::new(v.len(), |i: int| (v[i].0@, v[i].1))
}

impl Tables {
    /// The token of each id.
    pub closed spec fn tokens(&self) -> Seq<Seq<char>> {
        string_views(self.tokens@)
    }

    /// The id of each token.
    pub closed spec fn vocab(&self) -> Map<Seq<char>, u32> {
        self.vocab@
    }

    /// The rank of each pair of symbols that merges.
    pub closed spec fn ranks(&self) -> Map<Seq<char>, u32> {
        self.merge_ranks@
    }

    /// The special tokens with their ids.
    pub closed spec fn special(&self) -> Seq<(Seq<char>, u32)> {
        special_views(self.special@)
    }

    /// The tables of the byte-level alphabet are right.
    pub closed spec fn wf(&self) -> bool {
        &&& forall|b: u8| #[trigger] self.byte_to_char@[b as int] == byte_char(b)
        &&& forall|code: u32|
            #![trigger self.char_to_byte@.contains_key(code)]
            self.char_to_byte@.contains_key(code) <==> code_byte(code as nat) is Some
        &&& forall|code: u32|
            #![trigger self.char_to_byte@[code]]
            self.char_to_byte@.contains_key(code) ==> code_byte(code as nat) == Some(
                self.char_to_byte@[code],
            )
    }
}

impl View for Tokenizer {
    type V = TokenizerView;

    open spec fn view(&self) -> TokenizerView {
        TokenizerView {
            tokens: self.tables.tokens(),
            vocab: self.tables.vocab(),
            ranks: self.tables.ranks(),
            special: self.tables.special(),
            bos_token_id: self.bos_token_id,
            eos_token_id: self.eos_token_id,
            add_bos: self.add_bos,
            add_eos: self.add_eos,
        }
    }
}

impl Tokenizer {
    /// The tables of the byte-level alphabet are right.
    pub open spec fn wf(&self) -> bool {
        self.tables.wf()
    }

    /// Repeatedly merge the highest-priority adjacent pair until none remain.
    fn merge_symbols(&self, symbols: &mut Vec<String>)
        ensures
            string_views(final(symbols)@) == merged(self@.ranks, string_views(old(symbols)@)),
    {
        let ghost ranks = self@.ranks;
        loop
            invariant
                ranks == self.tables.merge_ranks@,
                merged(ranks, string_views(old(symbols)@)) == merged(
                    ranks,
                    string_views(symbols@),
                ),
            ensures
                string_views(symbols@) == merged(ranks, string_views(old(symbols)@)),
            decreases symbols@.len(),
        {
            let ghost views = string_views(symbols@);
            match self.best_pair(symbols) {
                Some(i) => {
                    proof {
                        lemma_merge_step(ranks, views, i as int);
                    }
                    let n: usize = symbols.len();
                    assert(i + 1 < n);
                    let mut joined = symbols[i].clone();
                    joined.append(symbols[i + 1].as_str());
                    symbols.set(i, joined);
                    symbols.remove(i + 1);
                    proof {
                        assert(string_views(symbols@) =~= merge_at(views, i as int));
                    }
                },
                None => {
                    proof {
                        assert(self@.ranks == ranks);
                        assert(forall|i: int| !is_best_pair(ranks, views, i));
                        assert(merged(ranks, views) == views);
                    }
                    break;
                },
            }
        }
    }

    /// The place of the pair to merge next.
    fn best_pair(&self, symbols: &Vec<String>) -> (r: Option<usize>)
        ensures
            match r {
                Some(i) => is_best_pair(self@.ranks, string_views(symbols@), i as int),
                None => forall|i: int| !is_best_pair(self@.ranks, string_views(symbols@), i),
            },
    {
        let ghost ranks = self@.ranks;
        let ghost views = string_views(symbols@);
        let mut best_rank: u32 = u32::MAX;
        let mut best: Option<usize> = None;
        if symbols.len() < 2 {
            return None;
        }
        let last: usize = symbols.len() - 1;
        let mut i: usize = 0;
        while i < last
            invariant
                i <= last,
                last == symbols@.len() - 1,
                ranks == self.tables.merge_ranks@,
                views == string_views(symbols@),
                match best {
                    None => best_rank == u32::MAX && forall|j: int|
                        0 <= j < i ==> #[trigger] pair_rank(ranks, views, j) is None,
                    Some(b) => b < i && pair_rank(ranks, views, b as int) == Some(best_rank)
                        && forall|j: int|
                        0 <= j < i && #[trigger] pair_rank(ranks, views, j) is Some ==> best_rank
                            < pair_rank(ranks, views, j)->0 || best_rank == pair_rank(
                            ranks,
                            views,
                            j,
                        )->0 && b <= j,
                },
            decreases last - i,
        {
            let mut key = symbols[i].clone();
            key.push('\u{1}');
            key.append(symbols[i + 1].as_str());
            proof {
                assert(key@ == pair_key(views[i as int], views[i as int + 1]));
            }
            if let Some(rank) = self.tables.merge_ranks.get(key.as_str()) {
                if *rank < best_rank {
                    best_rank = *rank;
                    best = Some(i);
                }
            }
            i += 1;
        }
        best
    }

    /// Byte-level BPE over a plain-text span (no special tokens inside).
    fn bpe_encode(&self, text: &str, out: &mut Vec<u32>)
        requires
            self.wf(),
        ensures
            final(out)@ == old(out)@ + self@.plain_ids(text@),
    {
        let list = pretokenize(text);
        let ghost ws = words(text@);
        let ghost start = out@;
        let mut w: usize = 0;
        proof {
            assert(ws.take(0) =~= Seq::empty());
            assert(start + self@.words_ids(ws.take(0)) =~= start);
        }
        while w < list.len()
            invariant
                self.wf(),
                w <= list@.len(),
                ws == string_views(list@),
                out@ == start + self@.words_ids(ws.take(w as int)),
            decreases list@.len() - w,
        {
            proof {
                let next = ws.take(w as int + 1);
                assert(next.drop_last() =~= ws.take(w as int));
                assert(next.last() == list@[w as int]@);
                assert(start + (self@.words_ids(ws.take(w as int)) + self@.word_ids(next.last()))
                    =~= start + self@.words_ids(ws.take(w as int)) + self@.word_ids(next.last()));
            }
            self.encode_word(list[w].as_str(), out);
            w += 1;
        }
        proof {
            assert(ws.take(ws.len() as int) =~= ws);
        }
    }

    /// Byte-level BPE over one word.
    fn encode_word(&self, word: &str, out: &mut Vec<u32>)
        requires
            self.wf(),
        ensures
            final(out)@ == old(out)@ + self@.word_ids(word@),
    {
        // Map the word's raw UTF-8 bytes to the byte-level unicode symbols.
        let bytes = word.as_bytes();
        let mut symbols: Vec<String> = Vec::new();
        let mut i: usize = 0;
        while i < bytes.len()
            invariant
                self.wf(),
                i <= bytes@.len(),
                bytes@ == encode_utf8(word@),
                string_views(symbols@) == byte_symbols(bytes@.take(i as int)),
            decreases bytes@.len() - i,
        {
            let b: u8 = bytes[i];
            let mut symbol = String::new();
            symbol.push(self.tables.byte_to_char[b as usize]);
            proof {
                assert(self.tables.byte_to_char@[b as int] == byte_char(b));
                assert(symbol@ =~= seq![byte_char(b)]);
            }
            let ghost before = symbols@;
            symbols.push(symbol);
            proof {
                assert(string_views(symbols@) =~= string_views(before).push(symbol@));
                assert(byte_symbols(bytes@.take(i as int + 1)) =~= byte_symbols(
                    bytes@.take(i as int),
                ).push(seq![byte_char(b)]));
            }
            i += 1;
        }
        proof {
            assert(bytes@.take(bytes@.len() as int) =~= bytes@);
        }
        self.merge_symbols(&mut symbols);
        let ghost views = string_views(symbols@);
        let ghost start = out@;
        let mut k: usize = 0;
        proof {
            assert(views.take(0) =~= Seq::empty());
            assert(start + symbols_ids(self@.vocab, views.take(0)) =~= start);
        }
        while k < symbols.len()
            invariant
                k <= symbols@.len(),
                views == string_views(symbols@),
                out@ == start + symbols_ids(self@.vocab, views.take(k as int)),
            decreases symbols@.len() - k,
        {
            proof {
                let next = views.take(k as int + 1);
                assert(next.drop_last() =~= views.take(k as int));
                assert(next.last() == symbols@[k as int]@);
                assert(start + (symbols_ids(self@.vocab, views.take(k as int)) + symbol_ids(
                    self@.vocab,
                    next.last(),
                )) =~= start + symbols_ids(self@.vocab, views.take(k as int)) + symbol_ids(
                    self@.vocab,
                    next.last(),
                ));
            }
            self.push_symbol(symbols[k].as_str(), out);
            k += 1;
        }
        proof {
            assert(views.take(views.len() as int) =~= views);
        }
    }

    /// Appends the ids of one symbol.
    fn push_symbol(&self, symbol: &str, out: &mut Vec<u32>)
        ensures
            final(out)@ == old(out)@ + symbol_ids(self@.vocab, symbol@),
    {
        match self.tables.vocab.get(symbol) {
            Some(id) => {
                out.push(*id);
                proof {
                    assert(out@ =~= old(out)@ + seq![*id]);
                }
            },
            None => {
                // Does not happen with a complete byte-level vocabulary; the
                // per-character lookup keeps the encoding lossless.
                let chars = to_chars(symbol);
                let ghost start = out@;
                let mut i: usize = 0;
                proof {
                    assert(symbol@.take(0) =~= Seq::empty());
                    assert(start + char_ids(self@.vocab, symbol@.take(0)) =~= start);
                }
                while i < chars.len()
                    invariant
                        i <= chars@.len(),
                        chars@ == symbol@,
                        out@ == start + char_ids(self@.vocab, symbol@.take(i as int)),
                    decreases chars@.len() - i,
                {
                    let one = from_chars(chars.as_slice(), i, i + 1);
                    proof {
                        let next = symbol@.take(i as int + 1);
                        assert(next.drop_last() =~= symbol@.take(i as int));
                        assert(next.last() == symbol@[i as int]);
                        assert(one@ =~= seq![symbol@[i as int]]);
                    }
                    let ghost before = out@;
                    if let Some(id) = self.tables.vocab.get(one.as_str()) {
                        out.push(*id);
                        proof {
                            assert(before.push(*id) =~= start + char_ids(
                                self@.vocab,
                                symbol@.take(i as int),
                            ).push(*id));
                        }
                    }
                    i += 1;
                }
                proof {
                    assert(symbol@.take(symbol@.len() as int) =~= symbol@);
                }
            },
        }
    }
}

// ── Special tokens and whole texts ──────────────────────────────────────────

/// The first place at which `token` stands in `chars`.
fn find_token(chars: &[char], token: &[char]) -> (r: Option<usize>)
    ensures
        match r {
            Some(pos) => pos <= chars@.len() && continues(chars@, pos as int, token@) && forall|
                p: int,
            |
                p < pos ==> !#[trigger] continues(chars@, p, token@),
            None => forall|p: int| !#[trigger] continues(chars@, p, token@),
        },
{
    let mut pos: usize = 0;
    while pos < chars.len()
        invariant
            pos <= chars@.len(),
            forall|p: int| p < pos ==> !#[trigger] continues(chars@, p, token@),
        decreases chars@.len() - pos,
    {
        if stands_at(chars, pos, token) {
            return Some(pos);
        }
        pos += 1;
    }
    if stands_at(chars, pos, token) {
        return Some(pos);
    }
    None
}

impl Tokenizer {
    /// Find the earliest occurrence of any special token in `text`.
    /// Returns its place in characters and the index of the special token.
    fn find_next_special(&self, text: &[char]) -> (r: Option<(usize, usize)>)
        ensures
            match r {
                Some((pos, k)) => self@.is_next_special(text@, pos as int, k as int),
                None => forall|pos: int, k: int| !self@.is_next_special(text@, pos, k),
            },
    {
        let ghost special = self@.special;
        let mut best: Option<(usize, usize)> = None;
        let mut i: usize = 0;
        while i < self.tables.special.len()
            invariant
                i <= self.tables.special@.len(),
                special == special_views(self.tables.special@),
                special == self@.special,
                match best {
                    None => forall|p: int, j: int|
                        0 <= j < i ==> !#[trigger] continues(text@, p, special[j].0),
                    Some((pos, k)) => k < i && continues(text@, pos as int, special[k as int].0)
                        && forall|p: int, j: int|
                        0 <= j < i && #[trigger] continues(text@, p, special[j].0) ==> {
                            ||| pos < p
                            ||| pos == p && special[j].0.len() < special[k as int].0.len()
                            ||| pos == p && special[j].0.len() == special[k as int].0.len() && k
                                <= j
                        },
                },
            decreases self.tables.special@.len() - i,
        {
            let token = self.tables.special[i].0.as_slice();
            proof {
                assert(special[i as int].0 == token@);
            }
            if let Some(pos) = find_token(text, token) {
                let better: bool = match best {
                    None => true,
                    // earlier position wins; on a tie the longer match wins
                    Some((bpos, b)) => pos < bpos || (pos == bpos && token.len()
                        > self.tables.special[b].0.len()),
                };
                if better {
                    best = Some((pos, i));
                }
            }
            i += 1;
        }
        best
    }

    /// Append the token ids of `text` to `out`: the ids that
    /// [`Tokenizer::encode_ordinary`] gives for it.
    pub fn encode_into(&self, text: &str, out: &mut Vec<u32>)
        requires
            self.wf(),
            self@.encodable(text@),
        ensures
            final(out)@ == old(out)@ + self@.text_ids(text@),
    {
        // Split around special tokens first; encode the gaps with BPE.
        let chars = to_chars(text);
        let mut rest: &[char] = chars.as_slice();
        let ghost whole = old(out)@ + self@.text_ids(text@);
        while rest.len() > 0
            invariant_except_break
                whole == out@ + self@.text_ids(rest@),
            invariant
                self.wf(),
                self@.encodable(rest@),
            ensures
                out@ == whole,
            decreases rest@.len(),
        {
            let ghost before = out@;
            match self.find_next_special(rest) {
                Some((start, k)) => {
                    let len: usize = self.tables.special[k].0.len();
                    let id: u32 = self.tables.special[k].1;
                    let ghost special = self@.special;
                    proof {
                        assert(special[k as int] == (self.tables.special@[k as int].0@, id));
                        let (p, j) = choose|p: int, j: int| self@.is_next_special(rest@, p, j);
                        assert(self@.is_next_special(rest@, start as int, k as int));
                        assert(self@.is_next_special(rest@, p, j));
                        assert(continues(rest@, p, special[j].0));
                        assert(continues(rest@, start as int, special[k as int].0));
                        assert(p == start && j == k);
                    }
                    let gap = from_chars(rest, 0, start);
                    proof {
                        assert(rest@.subrange(0, start as int) =~= rest@.take(start as int));
                    }
                    self.bpe_encode(gap.as_str(), out);
                    out.push(id);
                    let ghost later = rest@.skip(start + len);
                    let n: usize = rest.len();
                    rest = vstd::slice::slice_subrange(rest, start + len, n);
                    proof {
                        assert(rest@ =~= later);
                        assert(before + (self@.plain_ids(gap@) + seq![id] + self@.text_ids(later))
                            =~= (before + self@.plain_ids(gap@)).push(id) + self@.text_ids(later));
                    }
                },
                None => {
                    let gap = from_chars(rest, 0, rest.len());
                    proof {
                        assert(gap@ =~= rest@);
                        assert(self@.text_ids(rest@) == self@.plain_ids(rest@));
                    }
                    self.bpe_encode(gap.as_str(), out);
                    break;
                },
            }
        }
    }

    /// Encode text into token ids, honoring `add_bos`/`add_eos`.
    pub fn encode(&self, text: &str) -> (ids: Vec<u32>)
        requires
            self.wf(),
            self@.encodable(text@),
        ensures
            ids@ == self@.framed_ids(text@),
    {
        let mut ids: Vec<u32> = Vec::new();
        if self.add_bos {
            if let Some(bos) = self.bos_token_id {
                ids.push(bos);
            }
        }
        let ghost front = ids@;
        self.encode_into(text, &mut ids);
        if self.add_eos {
            if let Some(eos) = self.eos_token_id {
                ids.push(eos);
            }
        }
        proof {
            assert(ids@ =~= self@.framed_ids(text@));
        }
        ids
    }

    /// Encode without adding BOS/EOS (used for chat templates that manage
    /// their own control tokens).
    pub fn encode_ordinary(&self, text: &str) -> (ids: Vec<u32>)
        requires
            self.wf(),
            self@.encodable(text@),
        ensures
            ids@ == self@.text_ids(text@),
    {
        let mut ids: Vec<u32> = Vec::new();
        self.encode_into(text, &mut ids);
        proof {
            assert(ids@ =~= self@.text_ids(text@));
        }
        ids
    }

    /// Whether the encoding of a text comes to an end.
    pub fn can_encode(&self, text: &str) -> (r: bool)
        ensures
            r == self@.encodable(text@),
    {
        let chars = to_chars(text);
        let mut rest: &[char] = chars.as_slice();
        while rest.len() > 0
            invariant
                self@.encodable(text@) == self@.encodable(rest@),
            decreases rest@.len(),
        {
            match self.find_next_special(rest) {
                Some((start, k)) => {
                    let len: usize = self.tables.special[k].0.len();
                    let ghost special = self@.special;
                    proof {
                        assert(special[k as int].0 == self.tables.special@[k as int].0@);
                        let (p, j) = choose|p: int, j: int| self@.is_next_special(rest@, p, j);
                        assert(self@.is_next_special(rest@, start as int, k as int));
                        assert(self@.is_next_special(rest@, p, j));
                        assert(continues(rest@, p, special[j].0));
                        assert(continues(rest@, start as int, special[k as int].0));
                        assert(p == start && j == k);
                    }
                    if len == 0 {
                        return false;
                    }
                    let ghost later = rest@.skip(start + len);
                    let n: usize = rest.len();
                    rest = vstd::slice::slice_subrange(rest, start + len, n);
                    proof {
                        assert(rest@ =~= later);
                    }
                },
                None => {
                    return true;
                },
            }
        }
        true
    }

    /// Whether no special token is the empty string.
    pub fn specials_nonempty(&self) -> (r: bool)
        ensures
            r == self@.specials_nonempty(),
    {
        let ghost special = self@.special;
        let mut i: usize = 0;
        while i < self.tables.special.len()
            invariant
                i <= self.tables.special@.len(),
                special == special_views(self.tables.special@),
                special == self@.special,
                forall|k: int| 0 <= k < i ==> (#[trigger] special[k]).0.len() > 0,
            decreases self.tables.special@.len() - i,
        {
            if self.tables.special[i].0.len() == 0 {
                proof {
                    assert(special[i as int].0.len() == 0);
                }
                return false;
            }
            proof {
                assert(special[i as int].0.len() > 0);
            }
            i += 1;
        }
        true
    }

    /// How many tokens there are.
    pub fn vocab_size(&self) -> (n: usize)
        ensures
            n == self@.tokens.len(),
    {
        self.tables.tokens.len()
    }

    /// Map a byte-level unicode token string back to its raw bytes.
    fn piece_to_bytes(&self, raw: &str) -> (bytes: Vec<u8>)
        requires
            self.wf(),
        ensures
            bytes@ == piece_bytes(raw@),
    {
        broadcast use vstd::std_specs::hash::group_hash_axioms;

        let chars = to_chars(raw);
        let mut bytes: Vec<u8> = Vec::new();
        let mut i: usize = 0;
        while i < chars.len()
            invariant
                self.wf(),
                i <= chars@.len(),
                chars@ == raw@,
                bytes@ == piece_bytes(raw@.take(i as int)),
            decreases chars@.len() - i,
        {
            broadcast use vstd::std_specs::hash::group_hash_axioms;

            proof {
                let next = raw@.take(i as int + 1);
                assert(next.drop_last() =~= raw@.take(i as int));
                assert(next.last() == raw@[i as int]);
            }
            let c: char = chars[i];
            let code: u32 = c as u32;
            proof {
                assert(self.tables.char_to_byte@.contains_key(code) <==> code_byte(code as nat) is Some);
            }
            if let Some(b) = self.tables.char_to_byte.get(&code) {
                bytes.push(*b);
            }
            i += 1;
        }
        proof {
            assert(raw@.take(raw@.len() as int) =~= raw@);
        }
        bytes
    }

    /// Raw bytes a single token decodes to. Use this for streaming: accumulate
    /// bytes across tokens and flush complete UTF-8, since a multi-byte char may
    /// span two tokens.
    pub fn token_bytes(&self, id: u32) -> (bytes: Vec<u8>)
        requires
            self.wf(),
        ensures
            bytes@ == self@.id_bytes(id),
    {
        if (id as usize) < self.tables.tokens.len() {
            self.piece_to_bytes(self.tables.tokens[id as usize].as_str())
        } else {
            Vec::new()
        }
    }

    /// Look up the string form (decoded UTF-8, may be lossy) of a single id.
    pub fn id_to_piece(&self, id: u32) -> (s: String)
        requires
            self.wf(),
        ensures
            id >= self@.tokens.len() ==> s@ == Seq::<char>::empty(),
            id < self@.tokens.len() ==> s@ == utf8_lossy(self@.id_bytes(id)),
            valid_utf8(self@.id_bytes(id)) ==> s@ == decode_utf8(self@.id_bytes(id)),
    {
        if (id as usize) < self.tables.tokens.len() {
            string_from_utf8_lossy(self.token_bytes(id).as_slice())
        } else {
            String::new()
        }
    }

    /// The bytes of several tokens, one after the other.
    fn ids_to_bytes(&self, ids: &[u32]) -> (bytes: Vec<u8>)
        requires
            self.wf(),
        ensures
            bytes@ == self@.ids_bytes(ids@),
    {
        let mut bytes: Vec<u8> = Vec::new();
        let mut i: usize = 0;
        while i < ids.len()
            invariant
                self.wf(),
                i <= ids@.len(),
                bytes@ == self@.ids_bytes(ids@.take(i as int)),
            decreases ids@.len() - i,
        {
            proof {
                let next = ids@.take(i as int + 1);
                assert(next.drop_last() =~= ids@.take(i as int));
                assert(next.last() == ids@[i as int]);
            }
            let mut piece = self.token_bytes(ids[i]);
            bytes.append(&mut piece);
            i += 1;
        }
        proof {
            assert(ids@.take(ids@.len() as int) =~= ids@);
        }
        bytes
    }

    /// Decode a slice of ids back into a UTF-8 string.
    pub fn decode(&self, ids: &[u32]) -> (s: String)
        requires
            self.wf(),
        ensures
            s@ == utf8_lossy(self@.ids_bytes(ids@)),
            valid_utf8(self@.ids_bytes(ids@)) ==> s@ == decode_utf8(self@.ids_bytes(ids@)),
    {
        string_from_utf8_lossy(self.ids_to_bytes(ids).as_slice())
    }
}

// ── Loading ─────────────────────────────────────────────────────────────────

/// The vocabulary of the first `n` tokens. A token that comes again takes the
/// later id.
pub open spec fn vocab_of(tokens: Seq<Seq<char>>, n: int) -> Map<Seq<char>, u32>
    decreases n,
{
    if n <= 0 {
        Map::empty()
    } else {
        vocab_of(tokens, n - 1).insert(tokens[n - 1], (n - 1) as u32)
    }
}

/// The place of the first space of `s` from `i` on, or the length of `s`.
pub open spec fn first_space(s: Seq<char>, i: int) -> int
    decreases s.len() - i,
{
    if 0 <= i < s.len() && s[i] != ' ' {
        first_space(s, i + 1)
    } else {
        i
    }
}

/// The merge table of the first `n` merges. A merge is its two symbols, separated
/// by the first space, and its rank is its place; what holds no space is no
/// merge.
pub open spec fn ranks_of(merges: Seq<Seq<char>>, n: int) -> Map<Seq<char>, u32>
    decreases n,
{
    if n <= 0 {
        Map::empty()
    } else {
        let before = ranks_of(merges, n - 1);
        let m = merges[n - 1];
        let space = first_space(m, 0);
        if space < m.len() {
            before.insert(pair_key(m.take(space), m.skip(space + 1)), (n - 1) as u32)
        } else {
            before
        }
    }
}

/// Token types (as in llama.cpp's `llama_token_type`) of special tokens.
pub const TOKEN_TYPE_CONTROL: i64 = 3;

pub const TOKEN_TYPE_USER_DEFINED: i64 = 4;

/// Whether the token `id` is a control or user-defined token.
pub open spec fn is_special(types: Seq<i64>, id: int) -> bool {
    0 <= id < types.len() && (types[id] == TOKEN_TYPE_CONTROL || types[id]
        == TOKEN_TYPE_USER_DEFINED)
}

/// The special tokens among the first `n` tokens, with their ids.
pub open spec fn specials_of(tokens: Seq<Seq<char>>, types: Seq<i64>, n: int) -> Seq<
    (Seq<char>, u32),
>
    decreases n,
{
    if n <= 0 {
        Seq::empty()
    } else {
        let before = specials_of(tokens, types, n - 1);
        if is_special(types, n - 1) {
            before.push((tokens[n - 1], (n - 1) as u32))
        } else {
            before
        }
    }
}

/// The id that a number in the metadata stands for.
pub open spec fn id_of(v: Option<u64>) -> Option<u32> {
    match v {
        Some(x) => Some(x as u32),
        None => None,
    }
}

/// The tokenizer that the metadata of a file describes.
pub open spec fn described(f: FileView) -> TokenizerView {
    let tokens = f.texts("tokenizer.ggml.tokens"@)->0;
    let merges = f.texts("tokenizer.ggml.merges"@)->0;
    let types = match f.integers("tokenizer.ggml.token_type"@) {
        Some(types) => types,
        None => Seq::empty(),
    };
    TokenizerView {
        tokens,
        vocab: vocab_of(tokens, tokens.len() as int),
        ranks: ranks_of(merges, merges.len() as int),
        special: specials_of(tokens, types, tokens.len() as int),
        bos_token_id: id_of(f.number("tokenizer.ggml.bos_token_id"@)),
        eos_token_id: id_of(f.number("tokenizer.ggml.eos_token_id"@)),
        add_bos: f.flag("tokenizer.ggml.add_bos_token"@) == Some(true),
        add_eos: f.flag("tokenizer.ggml.add_eos_token"@) == Some(true),
    }
}

/// The message for a tokenizer model that is not `gpt2`, given the model's name
/// in quotes.
pub open spec fn unsupported_model(name: Seq<char>) -> Seq<char> {
    "unsupported tokenizer model "@ + name + " (only gpt2 BPE is implemented)"@
}

/// The message for a tokenizer model that is not `gpt2`, given the model's name
/// in quotes.
pub fn unsupported_model_message(name: &str) -> (s: String)
    ensures
        s@ == unsupported_model(name@),
{
    "unsupported tokenizer model ".to_owned().concat(name).concat(" (only gpt2 BPE is implemented)")
}

/// The ids of a vocabulary, from its tokens.
fn build_vocab(tokens: &Vec<String>) -> (vocab: StringHashMap<u32>)
    ensures
        vocab@ == vocab_of(string_views(tokens@), tokens@.len() as int),
{
    let mut vocab: StringHashMap<u32> = StringHashMap::new();
    let ghost views = string_views(tokens@);
    let mut id: usize = 0;
    while id < tokens.len()
        invariant
            id <= tokens@.len(),
            views == string_views(tokens@),
            vocab@ == vocab_of(views, id as int),
        decreases tokens@.len() - id,
    {
        proof {
            assert(views[id as int] == tokens@[id as int]@);
        }
        vocab.insert(tokens[id].clone(), id as u32);
        id += 1;
    }
    vocab
}

/// The merge table, from its merges.
fn build_merge_ranks(merges: &Vec<&str>) -> (ranks: StringHashMap<u32>)
    ensures
        ranks@ == ranks_of(str_views(merges@), merges@.len() as int),
{
    let mut ranks: StringHashMap<u32> = StringHashMap::new();
    let ghost views = str_views(merges@);
    let mut rank: usize = 0;
    while rank < merges.len()
        invariant
            rank <= merges@.len(),
            views == str_views(merges@),
            ranks@ == ranks_of(views, rank as int),
        decreases merges@.len() - rank,
    {
        // Each merge is "left right" separated by a single ASCII space.
        let chars = to_chars(merges[rank]);
        let ghost m = views[rank as int];
        let mut space: usize = 0;
        while space < chars.len() && chars[space] != ' '
            invariant
                space <= chars@.len(),
                chars@ == m,
                first_space(m, 0) == first_space(m, space as int),
            decreases chars@.len() - space,
        {
            space += 1;
        }
        if space < chars.len() {
            let mut key = from_chars(chars.as_slice(), 0, space);
            let right = from_chars(chars.as_slice(), space + 1, chars.len());
            key.push('\u{1}');
            key.append(right.as_str());
            proof {
                assert(m.subrange(0, space as int) =~= m.take(space as int));
                assert(m.subrange(space + 1, m.len() as int) =~= m.skip(space + 1));
            }
            ranks.insert(key, rank as u32);
        }
        rank += 1;
    }
    ranks
}

/// The special tokens, from the tokens and their types.
fn build_specials(tokens: &Vec<String>, types: &Vec<i64>) -> (special: Vec<(Vec<char>, u32)>)
    ensures
        special_views(special@) == specials_of(
            string_views(tokens@),
            types@,
            tokens@.len() as int,
        ),
{
    let mut special: Vec<(Vec<char>, u32)> = Vec::new();
    let ghost views = string_views(tokens@);
    let mut id: usize = 0;
    proof {
        assert(special_views(special@) =~= Seq::empty());
    }
    while id < tokens.len()
        invariant
            id <= tokens@.len(),
            views == string_views(tokens@),
            special_views(special@) == specials_of(views, types@, id as int),
        decreases tokens@.len() - id,
    {
        if id < types.len() && (types[id] == TOKEN_TYPE_CONTROL || types[id]
            == TOKEN_TYPE_USER_DEFINED) {
            let token = to_chars(tokens[id].as_str());
            let ghost before = special@;
            special.push((token, id as u32));
            proof {
                assert(views[id as int] == tokens@[id as int]@);
                assert(special_views(special@) =~= special_views(before).push(
                    (token@, id as u32),
                ));
            }
        }
        id += 1;
    }
    special
}

/// Owned copies of several strings.
fn own_all(list: &Vec<&str>) -> (out: Vec<String>)
    ensures
        string_views(out@) == str_views(list@),
{
    let mut out: Vec<String> = Vec::new();
    let ghost views = str_views(list@);
    let mut i: usize = 0;
    proof {
        assert(string_views(out@) =~= views.take(0));
    }
    while i < list.len()
        invariant
            i <= list@.len(),
            views == str_views(list@),
            string_views(out@) == views.take(i as int),
        decreases list@.len() - i,
    {
        let ghost before = out@;
        let s = list[i].to_owned();
        out.push(s);
        proof {
            assert(string_views(out@) =~= string_views(before).push(s@));
            assert(views.take(i as int + 1) =~= views.take(i as int).push(views[i as int]));
        }
        i += 1;
    }
    proof {
        assert(views.take(views.len() as int) =~= views);
    }
    out
}

/// Whether a file describes a tokenizer of this kind.
pub open spec fn describable(f: FileView) -> bool {
    &&& f.text("tokenizer.ggml.model"@) == Some("gpt2"@)
    &&& f.texts("tokenizer.ggml.tokens"@) is Some
    &&& f.texts("tokenizer.ggml.merges"@) is Some
}

/// Whether `e` is the error of a file that does not describe a tokenizer.
pub open spec fn is_tokenizer_error(f: FileView, e: GgufError) -> bool {
    match f.text("tokenizer.ggml.model"@) {
        None => e.is_missing("tokenizer.ggml.model"@),
        Some(model) => if model != "gpt2"@ {
            e.is_backend(unsupported_model(quoted(model)))
        } else if f.texts("tokenizer.ggml.tokens"@) is None {
            e.is_missing("tokenizer.ggml.tokens"@)
        } else {
            e.is_missing("tokenizer.ggml.merges"@)
        },
    }
}

impl Tokenizer {
    /// Build a tokenizer from parsed GGUF metadata.
    pub fn from_gguf(gguf: &GgufFile) -> (r: Result<Self>)
        ensures
            match r {
                Ok(t) => describable(gguf@) && t.wf() && t@ == described(gguf@),
                Err(e) => !describable(gguf@) && is_tokenizer_error(gguf@, e),
            },
    {
        let model = match gguf.get_string("tokenizer.ggml.model") {
            Some(model) => model,
            None => {
                return Err(GgufError::MissingMetadata("tokenizer.ggml.model".to_owned()));
            },
        };
        if !str_eq(model, "gpt2") {
            let name = quoted_string(model);
            return Err(GgufError::BackendError(unsupported_model_message(name.as_str())));
        }
        let token_strs = match gguf.get_str_array("tokenizer.ggml.tokens") {
            Some(list) => list,
            None => {
                return Err(GgufError::MissingMetadata("tokenizer.ggml.tokens".to_owned()));
            },
        };
        let tokens = own_all(&token_strs);
        let token_types: Vec<i64> = match gguf.get_i64_array("tokenizer.ggml.token_type") {
            Some(types) => types,
            None => Vec::new(),
        };
        let merges = match gguf.get_str_array("tokenizer.ggml.merges") {
            Some(list) => list,
            None => {
                return Err(GgufError::MissingMetadata("tokenizer.ggml.merges".to_owned()));
            },
        };
        let vocab = build_vocab(&tokens);
        let merge_ranks = build_merge_ranks(&merges);
        let (byte_to_char, char_to_byte) = build_byte_maps();
        let special = build_specials(&tokens, &token_types);
        let bos_token_id: Option<u32> = match gguf.get_u64("tokenizer.ggml.bos_token_id") {
            Some(v) => Some(v as u32),
            None => None,
        };
        let eos_token_id: Option<u32> = match gguf.get_u64("tokenizer.ggml.eos_token_id") {
            Some(v) => Some(v as u32),
            None => None,
        };
        let add_bos: bool = gguf.get_bool("tokenizer.ggml.add_bos_token").unwrap_or(false);
        let add_eos: bool = gguf.get_bool("tokenizer.ggml.add_eos_token").unwrap_or(false);
        let tables = Tables {
            vocab,
            tokens,
            merge_ranks,
            byte_to_char,
            char_to_byte,
            special,
        };
        let t = Tokenizer {
            tables,
            bos_token_id,
            eos_token_id,
            add_bos,
            add_eos,
        };
        proof {
            let types = match gguf@.integers("tokenizer.ggml.token_type"@) {
                Some(types) => types,
                None => Seq::empty(),
            };
            assert(token_types@ =~= types);
            assert(t@ =~= described(gguf@));
        }
        Ok(t)
    }
}

// ── Decoding what was encoded ───────────────────────────────────────────────

impl TokenizerView {
    /// Every id that the vocabulary gives leads back to its token.
    pub open spec fn faithful(self) -> bool {
        &&& forall|s: Seq<char>| #[trigger]
            self.vocab.contains_key(s) ==> self.vocab[s] < self.tokens.len()
                && self.tokens[self.vocab[s] as int] == s
        &&& forall|k: int|
            0 <= k < self.special.len() ==> (#[trigger] self.special[k]).1 < self.tokens.len()
                && self.tokens[self.special[k].1 as int] == self.special[k].0
    }

    /// Every byte is a token.
    pub open spec fn complete(self) -> bool {
        forall|b: u8| #[trigger] self.vocab.contains_key(seq![byte_char(b)])
    }

    /// The special tokens decode to the text that they are written as.
    pub open spec fn specials_literal(self) -> bool {
        forall|k: int|
            0 <= k < self.special.len() ==> piece_bytes((#[trigger] self.special[k]).0)
                == encode_utf8(self.special[k].0)
    }
}

proof fn lemma_vocab_faithful(tokens: Seq<Seq<char>>, n: int, s: Seq<char>)
    requires
        0 <= n <= tokens.len() <= 0x1_0000_0000,
        vocab_of(tokens, n).contains_key(s),
    ensures
        vocab_of(tokens, n)[s] < n,
        tokens[vocab_of(tokens, n)[s] as int] == s,
    decreases n,
{
    if tokens[n - 1] != s {
        lemma_vocab_faithful(tokens, n - 1, s);
    }
}

proof fn lemma_specials_faithful(tokens: Seq<Seq<char>>, types: Seq<i64>, n: int, k: int)
    requires
        0 <= n <= tokens.len() <= 0x1_0000_0000,
        0 <= k < specials_of(tokens, types, n).len(),
    ensures
        specials_of(tokens, types, n)[k].1 < n,
        tokens[specials_of(tokens, types, n)[k].1 as int] == specials_of(tokens, types, n)[k].0,
    decreases n,
{
    if n > 0 {
        if k < specials_of(tokens, types, n - 1).len() {
            lemma_specials_faithful(tokens, types, n - 1, k);
        }
    }
}

/// In a tokenizer that was loaded from a file with as many tokens as ids can
/// number, every id leads back to the token that it was given for.
pub proof fn law_loaded_tokenizer_is_faithful(f: FileView)
    requires
        described(f).tokens.len() <= 0x1_0000_0000,
    ensures
        described(f).faithful(),
{
    let t = described(f);
    let types = match f.integers("tokenizer.ggml.token_type"@) {
        Some(types) => types,
        None => Seq::empty(),
    };
    assert forall|s: Seq<char>| #[trigger] t.vocab.contains_key(s) implies t.vocab[s]
        < t.tokens.len() && t.tokens[t.vocab[s] as int] == s by {
        lemma_vocab_faithful(t.tokens, t.tokens.len() as int, s);
    }
    assert forall|k: int| 0 <= k < t.special.len() implies (#[trigger] t.special[k]).1
        < t.tokens.len() && t.tokens[t.special[k].1 as int] == t.special[k].0 by {
        lemma_specials_faithful(t.tokens, types, t.tokens.len() as int, k);
    }
}

proof fn lemma_ids_bytes_concat(t: TokenizerView, a: Seq<u32>, b: Seq<u32>)
    ensures
        t.ids_bytes(a + b) == t.ids_bytes(a) + t.ids_bytes(b),
    decreases b.len(),
{
    if b.len() == 0 {
        assert(a + b =~= a);
        assert(t.ids_bytes(a) + t.ids_bytes(b) =~= t.ids_bytes(a));
    } else {
        lemma_ids_bytes_concat(t, a, b.drop_last());
        assert((a + b).drop_last() =~= a + b.drop_last());
        assert((a + b).last() == b.last());
        assert(t.ids_bytes(a) + t.ids_bytes(b.drop_last()) + t.id_bytes(b.last()) =~= t.ids_bytes(a)
            + (t.ids_bytes(b.drop_last()) + t.id_bytes(b.last())));
    }
}

proof fn lemma_ids_bytes_one(t: TokenizerView, id: u32)
    ensures
        t.ids_bytes(seq![id]) == t.id_bytes(id),
{
    reveal_with_fuel(TokenizerView::ids_bytes, 2);
    assert(seq![id].drop_last() =~= Seq::empty());
    assert(t.ids_bytes(seq![id]) =~= t.id_bytes(id));
}

proof fn lemma_piece_bytes_concat(a: Seq<char>, b: Seq<char>)
    ensures
        piece_bytes(a + b) == piece_bytes(a) + piece_bytes(b),
    decreases b.len(),
{
    if b.len() == 0 {
        assert(a + b =~= a);
        assert(piece_bytes(a) + piece_bytes(b) =~= piece_bytes(a));
    } else {
        lemma_piece_bytes_concat(a, b.drop_last());
        assert((a + b).drop_last() =~= a + b.drop_last());
        assert((a + b).last() == b.last());
        assert(piece_bytes(a + b) =~= piece_bytes(a) + piece_bytes(b));
    }
}

/// Whether a text is written in the byte-level alphabet.
spec fn in_alphabet(s: Seq<char>) -> bool {
    forall|i: int| 0 <= i < s.len() ==> is_byte_char(#[trigger] s[i])
}

/// Whether a character stands for a byte.
spec fn is_byte_char(c: char) -> bool {
    exists|b: u8| byte_char(b) == c
}

spec fn all_in_alphabet(symbols: Seq<Seq<char>>) -> bool {
    forall|k: int| 0 <= k < symbols.len() ==> in_alphabet(#[trigger] symbols[k])
}

proof fn lemma_merged_in_alphabet(ranks: Map<Seq<char>, u32>, symbols: Seq<Seq<char>>)
    requires
        all_in_alphabet(symbols),
    ensures
        all_in_alphabet(merged(ranks, symbols)),
    decreases symbols.len(),
{
    if exists|i: int| is_best_pair(ranks, symbols, i) {
        let i = choose|i: int| is_best_pair(ranks, symbols, i);
        let after = merge_at(symbols, i);
        assert forall|k: int| 0 <= k < after.len() implies in_alphabet(#[trigger] after[k]) by {
            if k == i {
                assert(in_alphabet(symbols[i]) && in_alphabet(symbols[i + 1]));
                let joined = symbols[i] + symbols[i + 1];
                assert forall|c: int| 0 <= c < joined.len() implies is_byte_char(
                    #[trigger] joined[c],
                ) by {
                    if c < symbols[i].len() {
                        assert(joined[c] == symbols[i][c]);
                    } else {
                        assert(joined[c] == symbols[i + 1][c - symbols[i].len()]);
                    }
                }
                assert(in_alphabet(joined));
                assert(after[k] == joined);
            } else if k < i {
                assert(after[k] == symbols[k]);
                assert(in_alphabet(symbols[k]));
            } else {
                assert(after[k] == symbols[k + 1]);
                assert(in_alphabet(symbols[k + 1]));
            }
        }
        lemma_merged_in_alphabet(ranks, after);
    }
}

proof fn lemma_char_ids_bytes(t: TokenizerView, symbol: Seq<char>)
    requires
        t.faithful(),
        t.complete(),
        in_alphabet(symbol),
    ensures
        t.ids_bytes(char_ids(t.vocab, symbol)) == piece_bytes(symbol),
    decreases symbol.len(),
{
    if symbol.len() > 0 {
        let head = symbol.drop_last();
        let one = seq![symbol.last()];
        assert forall|i: int| 0 <= i < head.len() implies is_byte_char(#[trigger] head[i]) by {
            assert(head[i] == symbol[i]);
        }
        lemma_char_ids_bytes(t, head);
        assert(is_byte_char(symbol[symbol.len() - 1]));
        let b = choose|b: u8| byte_char(b) == symbol.last();
        assert(t.vocab.contains_key(seq![byte_char(b)]));
        assert(one == seq![byte_char(b)]);
        let id = t.vocab[one];
        assert(char_ids(t.vocab, symbol) =~= char_ids(t.vocab, head) + seq![id]);
        lemma_ids_bytes_concat(t, char_ids(t.vocab, head), seq![id]);
        lemma_ids_bytes_one(t, id);
        lemma_piece_bytes_concat(head, one);
        assert(head + one =~= symbol);
    }
}

proof fn lemma_symbol_ids_bytes(t: TokenizerView, symbol: Seq<char>)
    requires
        t.faithful(),
        t.complete(),
        in_alphabet(symbol),
    ensures
        t.ids_bytes(symbol_ids(t.vocab, symbol)) == piece_bytes(symbol),
{
    if t.vocab.contains_key(symbol) {
        lemma_ids_bytes_one(t, t.vocab[symbol]);
    } else {
        lemma_char_ids_bytes(t, symbol);
    }
}

proof fn lemma_flatten_drop_last(ss: Seq<Seq<char>>)
    requires
        ss.len() > 0,
    ensures
        ss.flatten() == ss.drop_last().flatten() + ss.last(),
    decreases ss.len(),
{
    if ss.len() == 1 {
        assert(ss.drop_first() =~= Seq::empty());
        assert(ss.drop_last() =~= Seq::empty());
        assert(ss.flatten() =~= ss.drop_last().flatten() + ss.last());
    } else {
        let rest = ss.drop_first();
        lemma_flatten_drop_last(rest);
        let front = ss.drop_last();
        assert(front.drop_first() =~= rest.drop_last());
        assert(front.first() == ss.first());
        assert(front.flatten() == front.first() + front.drop_first().flatten());
        assert(ss.first() + (rest.drop_last().flatten() + rest.last()) =~= ss.first()
            + rest.drop_last().flatten() + rest.last());
    }
}

proof fn lemma_symbols_ids_bytes(t: TokenizerView, symbols: Seq<Seq<char>>)
    requires
        t.faithful(),
        t.complete(),
        all_in_alphabet(symbols),
    ensures
        t.ids_bytes(symbols_ids(t.vocab, symbols)) == piece_bytes(symbols.flatten()),
    decreases symbols.len(),
{
    if symbols.len() == 0 {
        assert(symbols.flatten() =~= Seq::empty());
    } else {
        let front = symbols.drop_last();
        assert forall|k: int| 0 <= k < front.len() implies in_alphabet(#[trigger] front[k]) by {
            assert(front[k] == symbols[k]);
        }
        lemma_symbols_ids_bytes(t, front);
        assert(in_alphabet(symbols[symbols.len() - 1]));
        lemma_symbol_ids_bytes(t, symbols.last());
        lemma_ids_bytes_concat(
            t,
            symbols_ids(t.vocab, front),
            symbol_ids(t.vocab, symbols.last()),
        );
        lemma_flatten_drop_last(symbols);
        lemma_piece_bytes_concat(front.flatten(), symbols.last());
    }
}

proof fn lemma_byte_symbols_bytes(bytes: Seq<u8>)
    ensures
        all_in_alphabet(byte_symbols(bytes)),
        piece_bytes(byte_symbols(bytes).flatten()) == bytes,
    decreases bytes.len(),
{
    let symbols = byte_symbols(bytes);
    assert forall|k: int| 0 <= k < symbols.len() implies in_alphabet(#[trigger] symbols[k]) by {
        assert forall|i: int| 0 <= i < symbols[k].len() implies is_byte_char(
            #[trigger] symbols[k][i],
        ) by {
            assert(byte_char(bytes[k]) == symbols[k][i]);
        }
    }
    if bytes.len() == 0 {
        assert(symbols =~= Seq::empty());
        assert(symbols.flatten() =~= Seq::empty());
        assert(bytes =~= Seq::empty());
    } else {
        let front = bytes.drop_last();
        let b = bytes.last();
        lemma_byte_symbols_bytes(front);
        assert(symbols.drop_last() =~= byte_symbols(front));
        lemma_flatten_drop_last(symbols);
        lemma_piece_bytes_concat(byte_symbols(front).flatten(), seq![byte_char(b)]);
        reveal_with_fuel(piece_bytes, 2);
        assert(seq![byte_char(b)].drop_last() =~= Seq::empty());
        lemma_byte_code_range(b);
        law_byte_alphabet_bijective(b, 0);
        assert(piece_bytes(seq![byte_char(b)]) =~= seq![b]);
        assert(front + seq![b] =~= bytes);
    }
}

/// The ids of a word stand for the UTF-8 bytes of the word, whatever the merges.
pub proof fn law_word_bytes(t: TokenizerView, word: Seq<char>)
    requires
        t.faithful(),
        t.complete(),
    ensures
        t.ids_bytes(t.word_ids(word)) == encode_utf8(word),
{
    let symbols = byte_symbols(encode_utf8(word));
    lemma_byte_symbols_bytes(encode_utf8(word));
    lemma_merged_in_alphabet(t.ranks, symbols);
    lemma_symbols_ids_bytes(t, merged(t.ranks, symbols));
    law_merging_keeps_the_text(t.ranks, symbols);
}

/// The encoding of two texts one after the other.
pub(crate) proof fn lemma_encode_concat(a: Seq<char>, b: Seq<char>)
    ensures
        encode_utf8(a + b) == encode_utf8(a) + encode_utf8(b),
    decreases a.len(),
{
    if a.len() == 0 {
        assert(a + b =~= b);
        assert(encode_utf8(a) + encode_utf8(b) =~= encode_utf8(b));
    } else {
        lemma_encode_concat(a.drop_first(), b);
        assert((a + b).drop_first() =~= a.drop_first() + b);
        assert((a + b)[0] == a[0]);
        assert(encode_utf8(a + b) =~= encode_utf8(a) + encode_utf8(b));
    }
}

proof fn lemma_words_bytes(t: TokenizerView, ws: Seq<Seq<char>>)
    requires
        t.faithful(),
        t.complete(),
    ensures
        t.ids_bytes(t.words_ids(ws)) == encode_utf8(ws.flatten()),
    decreases ws.len(),
{
    if ws.len() == 0 {
        assert(ws.flatten() =~= Seq::empty());
        assert(encode_utf8(ws.flatten()) =~= Seq::empty());
    } else {
        lemma_words_bytes(t, ws.drop_last());
        law_word_bytes(t, ws.last());
        lemma_ids_bytes_concat(t, t.words_ids(ws.drop_last()), t.word_ids(ws.last()));
        lemma_flatten_drop_last(ws);
        lemma_encode_concat(ws.drop_last().flatten(), ws.last());
    }
}

/// Encoding is lossless: the ids of a text stand for the UTF-8 bytes of the text.
pub proof fn law_encoding_is_lossless(t: TokenizerView, text: Seq<char>)
    requires
        t.faithful(),
        t.complete(),
        t.encodable(text),
        t.specials_literal(),
    ensures
        t.ids_bytes(t.text_ids(text)) == encode_utf8(text),
    decreases text.len(),
{
    if text.len() == 0 {
        assert(encode_utf8(text) =~= Seq::empty());
    } else if exists|pos: int, k: int| t.is_next_special(text, pos, k) {
        let (pos, k) = choose|pos: int, k: int| t.is_next_special(text, pos, k);
        let token = t.special[k].0;
        let id = t.special[k].1;
        let head = text.take(pos);
        let tail = text.skip(pos + token.len());
        assert(token.len() > 0);
        law_words_are_the_text(head);
        lemma_words_bytes(t, words(head));
        law_encoding_is_lossless(t, tail);
        lemma_ids_bytes_one(t, id);
        lemma_ids_bytes_concat(t, t.plain_ids(head), seq![id]);
        lemma_ids_bytes_concat(t, t.plain_ids(head) + seq![id], t.text_ids(tail));
        lemma_encode_concat(head, token);
        lemma_encode_concat(head + token, tail);
        assert(head + token + tail =~= text) by {
            assert(text.subrange(pos, pos + token.len()) == token);
        }
    } else {
        law_words_are_the_text(text);
        lemma_words_bytes(t, words(text));
    }
}

/// Decoding gives back the text that was encoded: the bytes of the ids of a text
/// are valid UTF-8, and what they decode to is the text.
pub proof fn law_decode_of_encode(t: TokenizerView, text: Seq<char>)
    requires
        t.faithful(),
        t.complete(),
        t.encodable(text),
        t.specials_literal(),
    ensures
        valid_utf8(t.ids_bytes(t.text_ids(text))),
        decode_utf8(t.ids_bytes(t.text_ids(text))) == text,
{
    law_encoding_is_lossless(t, text);
    encode_utf8_valid_utf8(text);
    encode_utf8_decode_utf8(text);
}

/// The empty text can be encoded and has no ids, whatever the special tokens.
pub proof fn law_the_empty_text_has_no_ids(t: TokenizerView)
    ensures
        t.encodable(Seq::empty()),
        t.text_ids(Seq::empty()) == Seq::<u32>::empty(),
{
}

/// Where no special token is the empty string, every text can be encoded.
pub proof fn law_every_text_is_encodable(t: TokenizerView, text: Seq<char>)
    requires
        t.specials_nonempty(),
    ensures
        t.encodable(text),
    decreases text.len(),
{
    if text.len() > 0 && exists|pos: int, k: int| t.is_next_special(text, pos, k) {
        let (pos, k) = choose|pos: int, k: int| t.is_next_special(text, pos, k);
        assert(t.special[k].0.len() > 0);
        law_every_text_is_encodable(t, text.skip(pos + t.special[k].0.len()));
    }
}

/// Whether every id is that of a token.
pub open spec fn ids_below(ids: Seq<u32>, size: nat) -> bool {
    forall|i: int| 0 <= i < ids.len() ==> #[trigger] ids[i] < size
}

proof fn lemma_char_ids_below(t: TokenizerView, symbol: Seq<char>)
    requires
        t.faithful(),
    ensures
        ids_below(char_ids(t.vocab, symbol), t.tokens.len()),
    decreases symbol.len(),
{
    if symbol.len() > 0 {
        lemma_char_ids_below(t, symbol.drop_last());
    }
}

proof fn lemma_symbols_ids_below(t: TokenizerView, symbols: Seq<Seq<char>>)
    requires
        t.faithful(),
    ensures
        ids_below(symbols_ids(t.vocab, symbols), t.tokens.len()),
    decreases symbols.len(),
{
    if symbols.len() > 0 {
        lemma_symbols_ids_below(t, symbols.drop_last());
        lemma_char_ids_below(t, symbols.last());
    }
}

proof fn lemma_words_ids_below(t: TokenizerView, ws: Seq<Seq<char>>)
    requires
        t.faithful(),
    ensures
        ids_below(t.words_ids(ws), t.tokens.len()),
    decreases ws.len(),
{
    if ws.len() > 0 {
        lemma_words_ids_below(t, ws.drop_last());
        lemma_symbols_ids_below(t, merged(t.ranks, byte_symbols(encode_utf8(ws.last()))));
    }
}

/// The ids of a text lie below the size of the vocabulary, those of its plain parts as
/// those of its special tokens.
pub proof fn law_ids_lie_below_the_vocabulary_size(t: TokenizerView, text: Seq<char>)
    requires
        t.faithful(),
    ensures
        ids_below(t.plain_ids(text), t.tokens.len()),
        ids_below(t.text_ids(text), t.tokens.len()),
    decreases text.len(),
{
    lemma_words_ids_below(t, words(text));
    if exists|pos: int, k: int| t.is_next_special(text, pos, k) {
        let (pos, k) = choose|pos: int, k: int| t.is_next_special(text, pos, k);
        let len = t.special[k].0.len();
        if len > 0 {
            lemma_words_ids_below(t, words(text.take(pos)));
            law_ids_lie_below_the_vocabulary_size(t, text.skip(pos + len));
        }
    }
}

} // verus!
