//! What holds of every text that is cut into words, encoded and decoded.

use vstd::prelude::*;
use vstd::string::*;
use vstd::utf8::encode_utf8;

use crate::text::{alphabetic, continues, numeric, whitespace};
use crate::tokenizer::{
    byte_code, contraction, described, first_space, is_best_pair, law_merging_is_exhaustive,
    law_words_are_the_text, merge_at, merged, pair_rank, piece_bytes, ranks_of, run_end,
    specials_of, symbol_ids, symbols_ids, vocab_of, word_end, words, words_from, CharClass,
    TokenizerView,
};
use crate::types::FileView;

verus! {

// ── Words ───────────────────────────────────────────────────────────────────

/// The suffixes of contractions that are words of their own.
pub open spec fn suffixes() -> Seq<Seq<char>> {
    seq!["'s"@, "'t"@, "'re"@, "'ve"@, "'m"@, "'ll"@, "'d"@]
}

proof fn lemma_suffix(text: Seq<char>, k: int)
    requires
        0 <= k < suffixes().len(),
        continues(text, 0, suffixes()[k]),
    ensures
        contraction(text, 0) == Some(suffixes()[k].len() as int),
{
    reveal_strlit("'s");
    reveal_strlit("'t");
    reveal_strlit("'re");
    reveal_strlit("'ve");
    reveal_strlit("'m");
    reveal_strlit("'ll");
    reveal_strlit("'d");
    let s = suffixes()[k];
    assert("'s"@ =~= seq!['\'', 's']);
    assert("'t"@ =~= seq!['\'', 't']);
    assert("'re"@ =~= seq!['\'', 'r', 'e']);
    assert("'ve"@ =~= seq!['\'', 'v', 'e']);
    assert("'m"@ =~= seq!['\'', 'm']);
    assert("'ll"@ =~= seq!['\'', 'l', 'l']);
    assert("'d"@ =~= seq!['\'', 'd']);
    if s.len() == 3 {
        assert(text.subrange(0, 3)[1] == text[1]);
        if continues(text, 0, seq!['\'', 's']) {
            assert(text.subrange(0, 2)[1] == text[1]);
        }
        if continues(text, 0, seq!['\'', 't']) {
            assert(text.subrange(0, 2)[1] == text[1]);
        }
        if continues(text, 0, seq!['\'', 'm']) {
            assert(text.subrange(0, 2)[1] == text[1]);
        }
        if continues(text, 0, seq!['\'', 'd']) {
            assert(text.subrange(0, 2)[1] == text[1]);
        }
    }
}

proof fn lemma_some_suffix(text: Seq<char>)
    requires
        contraction(text, 0) is Some,
    ensures
        exists|k: int| 0 <= k < suffixes().len() && continues(text, 0, #[trigger] suffixes()[k]),
{
    reveal_strlit("'s");
    reveal_strlit("'t");
    reveal_strlit("'re");
    reveal_strlit("'ve");
    reveal_strlit("'m");
    reveal_strlit("'ll");
    reveal_strlit("'d");
    let all = suffixes();
    assert(all[0] =~= seq!['\'', 's']);
    assert(all[1] =~= seq!['\'', 't']);
    assert(all[2] =~= seq!['\'', 'r', 'e']);
    assert(all[3] =~= seq!['\'', 'v', 'e']);
    assert(all[4] =~= seq!['\'', 'm']);
    assert(all[5] =~= seq!['\'', 'l', 'l']);
    assert(all[6] =~= seq!['\'', 'd']);
}

proof fn lemma_first_word(text: Seq<char>)
    requires
        text.len() > 0,
    ensures
        0 < word_end(text, 0) <= text.len(),
        words(text).len() > 0,
        words(text)[0] == text.take(word_end(text, 0)),
{
    law_words_are_the_text(text);
    if words(text).len() == 0 {
        assert(words(text) =~= Seq::empty());
        assert(words(text).flatten() =~= Seq::<char>::empty());
    }
    assert(text.subrange(0, word_end(text, 0)) =~= text.take(word_end(text, 0)));
}

/// A contraction suffix is one whole word: where a text begins with one of `'s`, `'t`,
/// `'re`, `'ve`, `'m`, `'ll` and `'d`, its first word is exactly that.
pub proof fn law_contractions_are_words(text: Seq<char>, k: int)
    requires
        0 <= k < suffixes().len(),
        continues(text, 0, suffixes()[k]),
    ensures
        words(text).len() > 0,
        words(text)[0] == suffixes()[k],
{
    lemma_suffix(text, k);
    reveal_strlit("'s");
    reveal_strlit("'t");
    reveal_strlit("'re");
    reveal_strlit("'ve");
    reveal_strlit("'m");
    reveal_strlit("'ll");
    reveal_strlit("'d");
    lemma_first_word(text);
    assert(text.subrange(0, suffixes()[k].len() as int) =~= text.take(word_end(text, 0)));
}

proof fn lemma_run(text: Seq<char>, j: int, class: CharClass)
    requires
        0 <= j <= text.len(),
    ensures
        j <= run_end(text, j, class) <= text.len(),
        forall|i: int| j <= i < run_end(text, j, class) ==> class.holds(#[trigger] text[i]),
        run_end(text, j, class) < text.len() ==> !class.holds(text[run_end(text, j, class)]),
    decreases text.len() - j,
{
    if j < text.len() && class.holds(text[j]) {
        lemma_run(text, j + 1, class);
    }
}

/// Whether the first word of a text takes a space in front of it along.
pub open spec fn lead(text: Seq<char>) -> int {
    if text[0] == ' ' {
        1
    } else {
        0
    }
}

/// Where a text does not begin with a contraction, and a letter, a number or another
/// character that is no white space stands first, or second behind a space, the first
/// word is that space and all that follows of the same kind: it is as long as it can be.
pub proof fn law_words_are_whole_runs(text: Seq<char>)
    requires
        text.len() > lead(text),
        forall|k: int| 0 <= k < suffixes().len() ==> !continues(text, 0, #[trigger] suffixes()[k]),
        !whitespace(text[lead(text)]) || alphabetic(text[lead(text)]) || numeric(
            text[lead(text)],
        ),
    ensures
        ({
            let w = words(text)[0];
            let c = text[lead(text)];
            let alike = |d: char|
                if alphabetic(c) {
                    alphabetic(d)
                } else if numeric(c) {
                    numeric(d)
                } else {
                    !whitespace(d) && !alphabetic(d) && !numeric(d)
                };
            &&& lead(text) < w.len() <= text.len()
            &&& w == text.take(w.len() as int)
            &&& forall|i: int| lead(text) < i < w.len() ==> alike(#[trigger] text[i])
            &&& w.len() < text.len() ==> !alike(text[w.len() as int])
        }),
{
    if contraction(text, 0) is Some {
        lemma_some_suffix(text);
    }
    lemma_first_word(text);
    let start = lead(text);
    lemma_run(text, start + 1, CharClass::Letter);
    lemma_run(text, start + 1, CharClass::Number);
    lemma_run(text, start + 1, CharClass::Other);
}

/// Where a text begins with white space, and not with a space and something else behind
/// it, its first word is white space: all of it up to the end of the text; else all but
/// the last character, which is left to the word behind it, unless it is the only one.
pub proof fn law_white_space_is_a_word(text: Seq<char>)
    requires
        text.len() > 0,
        forall|k: int| 0 <= k < suffixes().len() ==> !continues(text, 0, #[trigger] suffixes()[k]),
        text.len() > lead(text) ==> whitespace(text[lead(text)]) && !alphabetic(text[lead(text)])
            && !numeric(text[lead(text)]),
    ensures
        ({
            let w = words(text)[0];
            &&& 0 < w.len() <= text.len()
            &&& w == text.take(w.len() as int)
            &&& forall|i: int| 0 <= i < w.len() ==> whitespace(#[trigger] text[i])
            &&& w.len() < text.len() ==> if whitespace(text[w.len() as int]) {
                w.len() + 1 < text.len() && !whitespace(text[w.len() as int + 1])
            } else {
                w.len() == 1
            }
        }),
{
    if contraction(text, 0) is Some {
        lemma_some_suffix(text);
    }
    lemma_first_word(text);
    lemma_run(text, 1, CharClass::Space);
    assert(whitespace(' '));
    assert(whitespace(text[0]));
}

proof fn lemma_run_shifts(text: Seq<char>, by: int, j: int, class: CharClass)
    requires
        0 <= by,
        0 <= j,
        by + j <= text.len(),
    ensures
        run_end(text, by + j, class) == by + run_end(text.skip(by), j, class),
    decreases text.len() - by - j,
{
    if by + j < text.len() && class.holds(text[by + j]) {
        lemma_run_shifts(text, by, j + 1, class);
    }
}

proof fn lemma_continues_shifts(text: Seq<char>, by: int, i: int, s: Seq<char>)
    requires
        0 <= by <= text.len(),
        0 <= i,
    ensures
        continues(text, by + i, s) == continues(text.skip(by), i, s),
{
    if by + i + s.len() <= text.len() {
        assert(text.subrange(by + i, by + i + s.len()) =~= text.skip(by).subrange(i, i + s.len()));
    }
}

proof fn lemma_word_end_shifts(text: Seq<char>, by: int, i: int)
    requires
        0 <= by,
        0 <= i,
        by + i < text.len(),
    ensures
        word_end(text, by + i) == by + word_end(text.skip(by), i),
{
    let rest = text.skip(by);
    lemma_continues_shifts(text, by, i, seq!['\'', 's']);
    lemma_continues_shifts(text, by, i, seq!['\'', 't']);
    lemma_continues_shifts(text, by, i, seq!['\'', 'm']);
    lemma_continues_shifts(text, by, i, seq!['\'', 'd']);
    lemma_continues_shifts(text, by, i, seq!['\'', 'r', 'e']);
    lemma_continues_shifts(text, by, i, seq!['\'', 'v', 'e']);
    lemma_continues_shifts(text, by, i, seq!['\'', 'l', 'l']);
    let start = if rest[i] == ' ' {
        i + 1
    } else {
        i
    };
    if by + start < text.len() {
        lemma_run_shifts(text, by, start + 1, CharClass::Letter);
        lemma_run_shifts(text, by, start + 1, CharClass::Number);
        lemma_run_shifts(text, by, start + 1, CharClass::Other);
    }
    lemma_run_shifts(text, by, i + 1, CharClass::Space);
}

proof fn lemma_words_shift(text: Seq<char>, by: int, i: int)
    requires
        0 <= by,
        0 <= i,
        by + i <= text.len(),
    ensures
        words_from(text, by + i) == words_from(text.skip(by), i),
    decreases text.len() - by - i,
{
    if by + i < text.len() {
        lemma_word_end_shifts(text, by, i);
        let e = word_end(text.skip(by), i);
        if i < e <= text.skip(by).len() {
            lemma_words_shift(text, by, e);
            assert(text.subrange(by + i, by + e) =~= text.skip(by).subrange(i, e));
        }
    }
}

/// A text is cut from the left: behind its first word come the words of what follows.
pub proof fn law_words_follow_each_other(text: Seq<char>)
    requires
        text.len() > 0,
    ensures
        words(text).len() > 0,
        words(text)[0].len() <= text.len(),
        words(text) == seq![words(text)[0]] + words(text.skip(words(text)[0].len() as int)),
{
    lemma_first_word(text);
    let e = word_end(text, 0);
    lemma_words_shift(text, e, 0);
}

// ── Merges and ids ──────────────────────────────────────────────────────────

/// The rank that a table has for two neighbours, under the first, a character of the
/// code 1, and the second.
pub open spec fn rank_between(
    ranks: Map<Seq<char>, u32>,
    left: Seq<char>,
    right: Seq<char>,
) -> Option<u32> {
    let key = left + seq!['\u{1}'] + right;
    if ranks.contains_key(key) && ranks[key] != u32::MAX {
        Some(ranks[key])
    } else {
        None
    }
}

/// The pair that is merged first is the leftmost of those with the lowest rank: it
/// becomes one symbol, and all goes on with that.
pub proof fn law_the_lowest_rank_is_merged_first(
    ranks: Map<Seq<char>, u32>,
    symbols: Seq<Seq<char>>,
    i: int,
)
    requires
        0 <= i < symbols.len() - 1,
        rank_between(ranks, symbols[i], symbols[i + 1]) is Some,
        forall|j: int|
            0 <= j < symbols.len() - 1 ==> match rank_between(
                ranks,
                #[trigger] symbols[j],
                symbols[j + 1],
            ) {
                Some(r) => {
                    let best = rank_between(ranks, symbols[i], symbols[i + 1])->0;
                    best <= r && (j < i ==> best < r)
                },
                None => true,
            },
    ensures
        merged(ranks, symbols) == merged(
            ranks,
            symbols.take(i) + seq![symbols[i] + symbols[i + 1]] + symbols.skip(i + 2),
        ),
{
    assert forall|j: int| 0 <= j < symbols.len() - 1 implies #[trigger] pair_rank(
        ranks,
        symbols,
        j,
    ) == rank_between(ranks, symbols[j], symbols[j + 1]) by {
        assert(symbols[j].push('\u{1}') + symbols[j + 1] =~= symbols[j] + seq!['\u{1}']
            + symbols[j + 1]);
    }
    assert(is_best_pair(ranks, symbols, i)) by {
        assert(pair_rank(ranks, symbols, i) is Some);
        assert forall|j: int|
            0 <= j < symbols.len() - 1 && #[trigger] pair_rank(ranks, symbols, j) is Some implies {
            ||| pair_rank(ranks, symbols, i)->0 < pair_rank(ranks, symbols, j)->0
            ||| pair_rank(ranks, symbols, i)->0 == pair_rank(ranks, symbols, j)->0 && i <= j
        } by {
            assert(rank_between(ranks, symbols[j], symbols[j + 1]) is Some);
        }
    }
    let c = choose|c: int| is_best_pair(ranks, symbols, c);
    assert(is_best_pair(ranks, symbols, c));
    assert(pair_rank(ranks, symbols, i) is Some);
    assert(pair_rank(ranks, symbols, c) is Some);
    assert(c == i);
    assert(merge_at(symbols, i) =~= symbols.take(i) + seq![symbols[i] + symbols[i + 1]]
        + symbols.skip(i + 2));
}

/// Symbols stay as they are where no two neighbours have a rank, and after all merges no
/// two neighbours have one.
pub proof fn law_what_has_no_rank_stays(ranks: Map<Seq<char>, u32>, symbols: Seq<Seq<char>>)
    ensures
        (forall|j: int|
            0 <= j < symbols.len() - 1 ==> rank_between(
                ranks,
                #[trigger] symbols[j],
                symbols[j + 1],
            ) is None) ==> merged(ranks, symbols) == symbols,
        forall|j: int|
            0 <= j < merged(ranks, symbols).len() - 1 ==> rank_between(
                ranks,
                #[trigger] merged(ranks, symbols)[j],
                merged(ranks, symbols)[j + 1],
            ) is None,
{
    law_merging_is_exhaustive(ranks, symbols);
    let all = merged(ranks, symbols);
    assert forall|j: int| 0 <= j < all.len() - 1 implies rank_between(
        ranks,
        #[trigger] all[j],
        all[j + 1],
    ) is None by {
        assert(pair_rank(ranks, all, j) is None);
        assert(all[j].push('\u{1}') + all[j + 1] =~= all[j] + seq!['\u{1}'] + all[j + 1]);
    }
    if forall|j: int|
        0 <= j < symbols.len() - 1 ==> rank_between(
            ranks,
            #[trigger] symbols[j],
            symbols[j + 1],
        ) is None {
        assert forall|i: int| !is_best_pair(ranks, symbols, i) by {
            if is_best_pair(ranks, symbols, i) {
                assert(symbols[i].push('\u{1}') + symbols[i + 1] =~= symbols[i] + seq!['\u{1}']
                    + symbols[i + 1]);
                assert(rank_between(ranks, symbols[i], symbols[i + 1]) is None);
            }
        }
    }
}

proof fn lemma_first_space(left: Seq<char>, right: Seq<char>, i: int)
    requires
        !left.contains(' '),
        0 <= i <= left.len(),
    ensures
        first_space(left + seq![' '] + right, i) == left.len(),
    decreases left.len() - i,
{
    let m = left + seq![' '] + right;
    if i < left.len() {
        assert(left.contains(left[i]));
        assert(m[i] == left[i]);
        lemma_first_space(left, right, i + 1);
    } else {
        assert(m[i] == ' ');
    }
}

proof fn lemma_same_pair(a: Seq<char>, b: Seq<char>, c: Seq<char>, d: Seq<char>)
    requires
        a + seq!['\u{1}'] + b == c + seq!['\u{1}'] + d,
        !a.contains('\u{1}'),
        !c.contains('\u{1}'),
    ensures
        a == c,
        b == d,
{
    let x = a + seq!['\u{1}'] + b;
    let y = c + seq!['\u{1}'] + d;
    assert(x[a.len() as int] == '\u{1}');
    assert(y[c.len() as int] == '\u{1}');
    if a.len() < c.len() {
        assert(c.contains(c[a.len() as int]));
        assert(y[a.len() as int] == c[a.len() as int]);
    }
    if c.len() < a.len() {
        assert(a.contains(a[c.len() as int]));
        assert(x[c.len() as int] == a[c.len() as int]);
    }
    assert(x.take(a.len() as int) =~= a);
    assert(y.take(a.len() as int) =~= c);
    assert(x.skip(a.len() as int + 1) =~= b);
    assert(y.skip(a.len() as int + 1) =~= d);
}

proof fn lemma_first_space_stops(s: Seq<char>, i: int)
    requires
        0 <= i <= s.len(),
    ensures
        i <= first_space(s, i) <= s.len(),
        first_space(s, i) < s.len() ==> s[first_space(s, i)] == ' ',
    decreases s.len() - i,
{
    if i < s.len() && s[i] != ' ' {
        lemma_first_space_stops(s, i + 1);
    }
}

/// A merge `left right` of a file gives the pair its place in the list as its rank, of
/// equal ones the last place. The separator of the table occurs in no merge.
pub proof fn law_ranks_are_places(
    merges: Seq<Seq<char>>,
    n: int,
    k: int,
    left: Seq<char>,
    right: Seq<char>,
)
    requires
        0 <= k < n <= merges.len(),
        n < u32::MAX,
        !left.contains(' '),
        merges[k] == left + seq![' '] + right,
        forall|j: int| k < j < n ==> #[trigger] merges[j] != merges[k],
        forall|j: int| 0 <= j < n ==> !(#[trigger] merges[j]).contains('\u{1}'),
    ensures
        rank_between(ranks_of(merges, n), left, right) == Some(k as u32),
    decreases n,
{
    let key = left + seq!['\u{1}'] + right;
    let m = merges[n - 1];
    if k == n - 1 {
        lemma_first_space(left, right, 0);
        assert(m.take(left.len() as int) =~= left);
        assert(m.skip(left.len() as int + 1) =~= right);
        assert(left.push('\u{1}') + right =~= key);
    } else {
        law_ranks_are_places(merges, n - 1, k, left, right);
        let space = first_space(m, 0);
        lemma_first_space_stops(m, 0);
        if space < m.len() {
            let (a, b) = (m.take(space), m.skip(space + 1));
            assert(a.push('\u{1}') + b =~= a + seq!['\u{1}'] + b);
            if a + seq!['\u{1}'] + b == key {
                assert(!a.contains('\u{1}')) by {
                    if a.contains('\u{1}') {
                        let i = choose|i: int| 0 <= i < a.len() && a[i] == '\u{1}';
                        assert(m[i] == '\u{1}');
                        assert(m.contains('\u{1}'));
                    }
                }
                assert(!left.contains('\u{1}')) by {
                    if left.contains('\u{1}') {
                        let i = choose|i: int| 0 <= i < left.len() && left[i] == '\u{1}';
                        assert(merges[k][i] == '\u{1}');
                        assert(merges[k].contains('\u{1}'));
                    }
                }
                lemma_same_pair(a, b, left, right);
                assert(m =~= left + seq![' '] + right);
            }
        }
    }
}

/// A symbol that is a token has the id of the token; another one has, of its characters
/// in turn, the ids of those that are tokens.
pub proof fn law_ids_of_symbols(
    vocab: Map<Seq<char>, u32>,
    symbol: Seq<char>,
    c: char,
    symbols: Seq<Seq<char>>,
)
    ensures
        vocab.contains_key(symbol) ==> symbol_ids(vocab, symbol) == seq![vocab[symbol]],
        !vocab.contains_key(Seq::<char>::empty()) ==> symbol_ids(vocab, Seq::empty())
            == Seq::<u32>::empty(),
        !vocab.contains_key(symbol) && !vocab.contains_key(symbol.push(c)) ==> symbol_ids(
            vocab,
            symbol.push(c),
        ) == symbol_ids(vocab, symbol) + (if vocab.contains_key(seq![c]) {
            seq![vocab[seq![c]]]
        } else {
            Seq::empty()
        }),
        symbols_ids(vocab, symbols.push(symbol)) == symbols_ids(vocab, symbols) + symbol_ids(
            vocab,
            symbol,
        ),
        symbols_ids(vocab, Seq::empty()) == Seq::<u32>::empty(),
{
    assert(symbol.push(c).drop_last() =~= symbol);
    assert(symbols.push(symbol).drop_last() =~= symbols);
}

/// The character of each byte: printable ones stand for themselves, and all others, in
/// their order, for the characters from U+0100 on.
pub proof fn law_characters_of_bytes(b: u8)
    ensures
        byte_code(b) == if b <= 0x20 {
            0x100 + b
        } else if b <= 0x7E {
            b as int
        } else if b <= 0xA0 {
            0x121 + (b - 0x7F)
        } else if b == 0xAD {
            0x143
        } else {
            b as int
        },
{
    crate::tokenizer::lemma_indirect_below(b as nat);
}

/// A word is encoded by its UTF-8 bytes: one symbol for each, merged, and looked up in
/// the vocabulary; and a text word by word.
pub proof fn law_words_are_encoded_in_turn(t: TokenizerView, text: Seq<char>)
    requires
        text.len() > 0,
    ensures
        ({
            let w = words(text)[0];
            let bytes = encode_utf8(w);
            let symbols = Seq::new(bytes.len(), |i: int| seq![byte_code(bytes[i]) as char]);
            t.plain_ids(text) == symbols_ids(t.vocab, merged(t.ranks, symbols)) + t.plain_ids(
                text.skip(w.len() as int),
            )
        }),
{
    law_words_follow_each_other(text);
    let w = words(text)[0];
    let bytes = encode_utf8(w);
    let symbols = Seq::new(bytes.len(), |i: int| seq![byte_code(bytes[i]) as char]);
    assert(crate::tokenizer::byte_symbols(bytes) =~= symbols);
    lemma_words_ids(t, w, words(text.skip(w.len() as int)));
}

proof fn lemma_words_ids(t: TokenizerView, w: Seq<char>, ws: Seq<Seq<char>>)
    ensures
        t.words_ids(seq![w] + ws) == t.word_ids(w) + t.words_ids(ws),
    decreases ws.len(),
{
    let all = seq![w] + ws;
    if ws.len() == 0 {
        assert(all.drop_last() =~= Seq::empty());
        assert(t.words_ids(all.drop_last()) =~= Seq::empty());
        assert(t.words_ids(ws) =~= Seq::empty());
        assert(t.words_ids(all) =~= t.word_ids(w) + t.words_ids(ws));
    } else {
        lemma_words_ids(t, w, ws.drop_last());
        assert(all.drop_last() =~= seq![w] + ws.drop_last());
        assert(t.words_ids(all) =~= t.word_ids(w) + t.words_ids(ws));
    }
}

/// Where no special token stands in a text, it is encoded as plain text; and the empty
/// text has no ids.
pub proof fn law_text_without_special_tokens(t: TokenizerView, text: Seq<char>)
    requires
        forall|p: int, k: int|
            0 <= k < t.special.len() ==> !#[trigger] continues(text, p, t.special[k].0),
    ensures
        t.text_ids(text) == t.plain_ids(text),
{
    if text.len() == 0 {
        assert(words(text) =~= Seq::empty());
    }
}

/// A special token stands for its id, and what is around it is encoded by itself: the
/// token that stands first is taken, and of those that stand at one place the longest.
pub proof fn law_special_tokens_stand_for_themselves(
    t: TokenizerView,
    front: Seq<char>,
    rest: Seq<char>,
    k: int,
)
    requires
        0 <= k < t.special.len(),
        t.special[k].0.len() > 0,
        forall|p: int, j: int|
            0 <= j < t.special.len() && #[trigger] continues(
                front + t.special[k].0 + rest,
                p,
                t.special[j].0,
            ) ==> front.len() <= p && (p == front.len() ==> t.special[j].0.len()
                < t.special[k].0.len() || t.special[j].0 == t.special[k].0 && k <= j),
    ensures
        t.text_ids(front + t.special[k].0 + rest) == t.plain_ids(front) + seq![t.special[k].1]
            + t.text_ids(rest),
{
    let token = t.special[k].0;
    let text = front + token + rest;
    let pos = front.len() as int;
    assert(text.subrange(pos, pos + token.len()) =~= token);
    assert(continues(text, pos, token));
    assert(t.is_next_special(text, pos, k));
    let (p, j) = choose|p: int, j: int| t.is_next_special(text, p, j);
    assert(t.is_next_special(text, p, j));
    assert(continues(text, p, t.special[j].0));
    assert(p == pos && j == k);
    assert(text.take(pos) =~= front);
    assert(text.skip(pos + token.len()) =~= rest);
}

/// The token for the beginning comes first, and that for the end last, each only where
/// the model has one and wants it.
pub proof fn law_encoding_is_framed(t: TokenizerView, text: Seq<char>)
    ensures
        ({
            let ids = t.framed_ids(text);
            let inner = t.text_ids(text);
            let front: int = if t.add_bos && t.bos_token_id is Some {
                1
            } else {
                0
            };
            let back: int = if t.add_eos && t.eos_token_id is Some {
                1
            } else {
                0
            };
            &&& ids.len() == front + inner.len() + back
            &&& ids.subrange(front, front + inner.len()) == inner
            &&& front == 1 ==> t.bos_token_id == Some(ids.first())
            &&& back == 1 ==> t.eos_token_id == Some(ids.last())
        }),
{
    let ids = t.framed_ids(text);
    let inner = t.text_ids(text);
    let front: int = if t.add_bos && t.bos_token_id is Some {
        1
    } else {
        0
    };
    assert(ids.subrange(front, front + inner.len()) =~= inner);
}

/// Decoding takes the tokens in turn, and of each the bytes that its characters stand
/// for; ids and characters that stand for nothing are left out.
pub proof fn law_tokens_are_decoded_in_turn(
    t: TokenizerView,
    ids: Seq<u32>,
    id: u32,
    piece: Seq<char>,
    b: u8,
    c: char,
)
    requires
        forall|x: u8| #[trigger] byte_code(x) != (c as u32) as nat,
    ensures
        t.ids_bytes(Seq::empty()) == Seq::<u8>::empty(),
        t.ids_bytes(ids.push(id)) == t.ids_bytes(ids) + (if id < t.tokens.len() {
            piece_bytes(t.tokens[id as int])
        } else {
            Seq::empty()
        }),
        piece_bytes(Seq::empty()) == Seq::<u8>::empty(),
        piece_bytes(piece.push(byte_code(b) as char)) == piece_bytes(piece).push(b),
        piece_bytes(piece.push(c)) == piece_bytes(piece),
{
    assert(ids.push(id).drop_last() =~= ids);
    let p = piece.push(byte_code(b) as char);
    assert(p.drop_last() =~= piece);
    assert(piece.push(c).drop_last() =~= piece);
    crate::tokenizer::law_byte_alphabet_bijective(b, 0);
    crate::tokenizer::lemma_indirect_below(b as nat);
    assert((byte_code(b) as char) as u32 == byte_code(b));
}

// ── What a file describes ───────────────────────────────────────────────────

/// The tokens of a file have their places as ids; of equal ones the last counts.
pub proof fn law_ids_are_places(tokens: Seq<Seq<char>>, n: int, k: int)
    requires
        0 <= k < n <= tokens.len(),
        n <= u32::MAX,
        forall|j: int| k < j < n ==> #[trigger] tokens[j] != tokens[k],
    ensures
        vocab_of(tokens, n).contains_key(tokens[k]),
        vocab_of(tokens, n)[tokens[k]] == k,
    decreases n,
{
    if k < n - 1 {
        law_ids_are_places(tokens, n - 1, k);
    }
}

/// The special tokens of a file are its control tokens, of type 3, and its user-defined
/// ones, of type 4, with their ids, and no others.
pub proof fn law_special_tokens_of_a_file(
    tokens: Seq<Seq<char>>,
    types: Seq<i64>,
    n: int,
    id: int,
)
    requires
        0 <= id < n <= tokens.len(),
        n <= u32::MAX,
    ensures
        specials_of(tokens, types, n).contains((tokens[id], id as u32)) <==> id < types.len() && (
        types[id] == 3 || types[id] == 4),
        forall|j: int|
            0 <= j < specials_of(tokens, types, n).len() ==> {
                let s = #[trigger] specials_of(tokens, types, n)[j];
                s.1 < n && s.0 == tokens[s.1 as int]
            },
    decreases n,
{
    let all = specials_of(tokens, types, n);
    let before = specials_of(tokens, types, n - 1);
    if n == 1 {
        assert(before =~= Seq::empty());
    } else {
        law_special_tokens_of_a_file(
            tokens,
            types,
            n - 1,
            if id < n - 1 {
                id
            } else {
                0
            },
        );
    }
    let mine = (tokens[id], id as u32);
    if id < types.len() && (types[id] == 3 || types[id] == 4) {
        if id == n - 1 {
            assert(all.last() == mine);
            assert(all.contains(mine));
        } else {
            assert(before.contains(mine));
            let j = choose|j: int| 0 <= j < before.len() && before[j] == mine;
            assert(all[j] == mine);
        }
    } else if all.contains(mine) {
        let j = choose|j: int| 0 <= j < all.len() && all[j] == mine;
        if j < before.len() {
            assert(before[j] == mine);
            assert(before.contains(mine));
            assert(before[j].1 < n - 1);
        } else {
            assert(all[j].1 == n - 1);
        }
    }
    assert forall|j: int| 0 <= j < all.len() implies {
        let s = #[trigger] all[j];
        s.1 < n && s.0 == tokens[s.1 as int]
    } by {
        if j < before.len() {
            assert(all[j] == before[j]);
        }
    }
}

/// What a file states is what its tokenizer has.
pub proof fn law_a_tokenizer_has_what_is_stated(f: FileView)
    requires
        f.texts("tokenizer.ggml.tokens"@) is Some,
        f.texts("tokenizer.ggml.merges"@) is Some,
    ensures
        described(f).tokens == f.texts("tokenizer.ggml.tokens"@)->0,
        f.number("tokenizer.ggml.bos_token_id"@) matches Some(id) ==> id <= u32::MAX
            ==> described(f).bos_token_id == Some(id as u32),
        f.number("tokenizer.ggml.bos_token_id"@) is None ==> described(f).bos_token_id is None,
        f.number("tokenizer.ggml.eos_token_id"@) matches Some(id) ==> id <= u32::MAX
            ==> described(f).eos_token_id == Some(id as u32),
        f.number("tokenizer.ggml.eos_token_id"@) is None ==> described(f).eos_token_id is None,
        described(f).add_bos <==> f.flag("tokenizer.ggml.add_bos_token"@) == Some(true),
        described(f).add_eos <==> f.flag("tokenizer.ggml.add_eos_token"@) == Some(true),
{
}

} // verus!
