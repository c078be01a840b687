//! Split models: the names of their files, and where in them a byte range of
//! the whole lies.

use vstd::prelude::*;
use vstd::string::*;

use crate::text::{
    all_digits, continues, find_last, lemma_padded_denotes, padded, padded_chars, parse_usize,
    replace_all, replaced, stands_at, stands_last, to_chars, usize_of,
};

verus! {

/// Whether a file name is that of part `index` of a model in `total` files:
/// `…-<index>-of-<total>.gguf`. The places of the last `-of-` and of the last
/// hyphen before it are `of` and `dash`.
pub open spec fn is_split_name(
    name: Seq<char>,
    of: int,
    dash: int,
    index: nat,
    total: nat,
) -> bool {
    let stem = name.take(name.len() - 5);
    let front = stem.take(of);
    &&& continues(name, name.len() - 5, ".gguf"@)
    &&& stands_last(stem, of, "-of-"@)
    &&& stands_last(front, dash, "-"@)
    &&& usize_of(front.skip(dash + 1)) == Some(index)
    &&& usize_of(stem.skip(of + 4)) == Some(total)
}

/// The part that a file name denotes, and the number of parts.
pub open spec fn split_index(name: Seq<char>) -> Option<(nat, nat)> {
    if exists|of: int, dash: int, index: nat, total: nat|
        is_split_name(name, of, dash, index, total) {
        let (of, dash, index, total) = choose|of: int, dash: int, index: nat, total: nat|
            is_split_name(name, of, dash, index, total);
        Some((index, total))
    } else {
        None
    }
}

proof fn lemma_split_index(name: Seq<char>, of: int, dash: int, index: nat, total: nat)
    requires
        is_split_name(name, of, dash, index, total),
    ensures
        split_index(name) == Some((index, total)),
{
    let (o, d, i, t) = choose|o: int, d: int, i: nat, t: nat| is_split_name(name, o, d, i, t);
    assert(is_split_name(name, o, d, i, t));
    let stem = name.take(name.len() - 5);
    assert(continues(stem, o, "-of-"@));
    assert(continues(stem, of, "-of-"@));
    assert(o == of);
    assert(continues(stem.take(of), d, "-"@));
    assert(continues(stem.take(of), dash, "-"@));
    assert(d == dash);
}

/// Parse the split index from a multi-file GGUF filename.
///
/// Returns `(file_index, total_files)` (1-based).
/// Pattern: `name-00001-of-00004.gguf`
pub fn parse_split_index(name: &str) -> (r: Option<(usize, usize)>)
    ensures
        match r {
            Some((index, total)) => split_index(name@) == Some((index as nat, total as nat)),
            None => split_index(name@) is None,
        },
{
    proof {
        reveal_strlit(".gguf");
        reveal_strlit("-of-");
        reveal_strlit("-");
    }
    let chars = to_chars(name);
    let suffix = to_chars(".gguf");
    let middle = to_chars("-of-");
    let hyphen = to_chars("-");
    if chars.len() < 5 || !stands_at(chars.as_slice(), chars.len() - 5, suffix.as_slice()) {
        return None;
    }
    let end: usize = chars.len() - 5;
    let stem = vstd::slice::slice_subrange(chars.as_slice(), 0, end);
    proof {
        assert(stem@ =~= name@.take(name@.len() - 5));
    }
    let of: usize = match find_last(stem, middle.as_slice()) {
        Some(p) => p,
        None => {
            return None;
        },
    };
    proof {
        assert forall|o: int, d: int, i: nat, t: nat| is_split_name(name@, o, d, i, t) implies o
            == of by {
            assert(continues(stem@, o, "-of-"@));
        }
    }
    let front = vstd::slice::slice_subrange(stem, 0, of);
    proof {
        assert(front@ =~= stem@.take(of as int));
    }
    let dash: usize = match find_last(front, hyphen.as_slice()) {
        Some(p) => p,
        None => {
            return None;
        },
    };
    proof {
        assert forall|o: int, d: int, i: nat, t: nat| is_split_name(name@, o, d, i, t) implies d
            == dash by {
            assert(continues(front@, d, "-"@));
        }
        assert(front@.subrange(dash + 1, of as int) =~= front@.skip(dash + 1));
        assert(stem@.subrange(of + 4, end as int) =~= stem@.skip(of + 4));
    }
    let index: usize = match parse_usize(front, dash + 1, of) {
        Some(n) => n,
        None => {
            return None;
        },
    };
    let total: usize = match parse_usize(stem, of + 4, end) {
        Some(n) => n,
        None => {
            return None;
        },
    };
    proof {
        lemma_split_index(name@, of as int, dash as int, index as nat, total as nat);
    }
    Some((index, total))
}

/// The part of a file name that tells which file of how many it is.
pub open spec fn part_pattern(index: nat, total: nat) -> Seq<char> {
    "-"@ + padded(index, 5) + "-of-"@ + padded(total, 5)
}

fn part_chars(index: u64, total: u64) -> (chars: Vec<char>)
    ensures
        chars@ == part_pattern(index as nat, total as nat),
{
    let mut chars = to_chars("-");
    let mut first = padded_chars(index, 5);
    let mut middle = to_chars("-of-");
    let mut last = padded_chars(total, 5);
    chars.append(&mut first);
    chars.append(&mut middle);
    chars.append(&mut last);
    chars
}

/// The file name of part `index`, from that of the first part.
pub fn sibling_name(first: &str, index: usize, total: usize) -> (name: String)
    ensures
        name@ == replaced(
            first@,
            part_pattern(1, total as nat),
            part_pattern(index as nat, total as nat),
            0,
        ),
{
    let chars = to_chars(first);
    let from = part_chars(1, total as u64);
    let to = part_chars(index as u64, total as u64);
    proof {
        reveal_strlit("-");
    }
    replace_all(chars.as_slice(), from.as_slice(), to.as_slice())
}

/// The name of part `index` of a model in `total` files, behind what the names of all
/// its parts begin with.
pub open spec fn part_name(base: Seq<char>, index: nat, total: nat) -> Seq<char> {
    base + part_pattern(index, total) + ".gguf"@
}

proof fn lemma_total_stands_last(front: Seq<char>, digits: Seq<char>)
    requires
        all_digits(digits),
    ensures
        ({
            let stem = front + "-of-"@ + digits;
            &&& stands_last(stem, front.len() as int, "-of-"@)
            &&& stem.take(front.len() as int) == front
            &&& stem.skip(front.len() as int + 4) == digits
        }),
{
    reveal_strlit("-of-");
    let stem = front + "-of-"@ + digits;
    let of = front.len() as int;
    assert(stem.subrange(of, of + 4) =~= "-of-"@);
    assert forall|p: int| of < p implies !#[trigger] continues(stem, p, "-of-"@) by {
        if continues(stem, p, "-of-"@) {
            let found = stem.subrange(p, p + 4);
            assert(found[0] == stem[p] && found[1] == stem[p + 1]);
            if p >= of + 3 {
                assert(stem[p + 1] == digits[p + 1 - of - 4]);
            }
        }
    }
    assert(stem.take(of) =~= front);
    assert(stem.skip(of + 4) =~= digits);
}

proof fn lemma_index_stands_last(base: Seq<char>, digits: Seq<char>)
    requires
        all_digits(digits),
    ensures
        ({
            let front = base + "-"@ + digits;
            &&& stands_last(front, base.len() as int, "-"@)
            &&& front.skip(base.len() as int + 1) == digits
        }),
{
    reveal_strlit("-");
    let front = base + "-"@ + digits;
    let dash = base.len() as int;
    assert(front.subrange(dash, dash + 1) =~= "-"@);
    assert forall|p: int| dash < p implies !#[trigger] continues(front, p, "-"@) by {
        if continues(front, p, "-"@) {
            let found = front.subrange(p, p + 1);
            assert(found[0] == front[p]);
            assert(front[p] == digits[p - dash - 1]);
        }
    }
    assert(front.skip(dash + 1) =~= digits);
}

/// The name of a part reads back as its index and the number of parts, whatever it
/// begins with.
pub proof fn law_part_names_read_back(base: Seq<char>, index: nat, total: nat)
    requires
        index <= usize::MAX,
        total <= usize::MAX,
    ensures
        split_index(part_name(base, index, total)) == Some((index, total)),
{
    let (a, b) = (padded(index, 5), padded(total, 5));
    let name = part_name(base, index, total);
    let front = base + "-"@ + a;
    let stem = front + "-of-"@ + b;
    assert(name =~= stem + ".gguf"@);
    assert(".gguf"@.len() == 5) by {
        reveal_strlit(".gguf");
    }
    assert(name.take(name.len() - 5) =~= stem);
    assert(name.subrange(name.len() - 5, name.len() as int) =~= ".gguf"@);
    lemma_padded_denotes(index, 5);
    lemma_padded_denotes(total, 5);
    lemma_index_stands_last(base, a);
    lemma_total_stands_last(front, b);
    assert(is_split_name(name, front.len() as int, base.len() as int, index, total));
    lemma_split_index(name, front.len() as int, base.len() as int, index, total);
}

proof fn lemma_replaced_behind(
    base: Seq<char>,
    from: Seq<char>,
    to: Seq<char>,
    end: Seq<char>,
    i: int,
)
    requires
        0 <= i <= base.len(),
        from.len() > 0,
        forall|p: int|
            0 <= p < base.len() ==> !#[trigger] continues(base + from + end, p, from),
        forall|p: int|
            base.len() + from.len() <= p ==> !#[trigger] continues(base + from + end, p, from),
    ensures
        replaced(base + from + end, from, to, i) == base.skip(i) + to + end,
    decreases base.len() - i,
{
    let whole = base + from + end;
    if i < base.len() {
        lemma_replaced_behind(base, from, to, end, i + 1);
        assert(!continues(whole, i, from));
        assert(seq![whole[i]] + (base.skip(i + 1) + to + end) =~= base.skip(i) + to + end);
    } else {
        assert(whole.subrange(i, i + from.len()) =~= from);
        assert(continues(whole, i, from));
        lemma_not_replaced(whole, from, to, i + from.len());
        assert(whole.skip(i + from.len()) =~= end);
        assert(to + end =~= base.skip(i) + to + end);
    }
}

proof fn lemma_not_replaced(whole: Seq<char>, from: Seq<char>, to: Seq<char>, i: int)
    requires
        0 <= i <= whole.len(),
        from.len() > 0,
        forall|p: int| i <= p ==> !#[trigger] continues(whole, p, from),
    ensures
        replaced(whole, from, to, i) == whole.skip(i),
    decreases whole.len() - i,
{
    if i < whole.len() {
        lemma_not_replaced(whole, from, to, i + 1);
        assert(!continues(whole, i, from));
        assert(seq![whole[i]] + whole.skip(i + 1) =~= whole.skip(i));
    } else {
        assert(whole.skip(i) =~= Seq::empty());
    }
}

/// The name of a part that is made from that of the first part is the name of that part,
/// where the mark of the first part does not occur earlier in the name as well.
pub proof fn law_siblings_are_the_other_parts(base: Seq<char>, index: nat, total: nat)
    requires
        forall|p: int|
            0 <= p < base.len() ==> !#[trigger] continues(
                part_name(base, 1, total),
                p,
                part_pattern(1, total),
            ),
    ensures
        replaced(
            part_name(base, 1, total),
            part_pattern(1, total),
            part_pattern(index, total),
            0,
        ) == part_name(base, index, total),
{
    reveal_strlit(".gguf");
    reveal_strlit("-");
    let from = part_pattern(1, total);
    let whole = part_name(base, 1, total);
    assert(from[0] == '-');
    assert forall|p: int| base.len() + from.len() <= p implies !#[trigger] continues(
        whole,
        p,
        from,
    ) by {
        if continues(whole, p, from) {
            assert(whole.subrange(p, p + from.len())[0] == whole[p]);
            assert(whole[p] == ".gguf"@[p - base.len() - from.len()]);
        }
    }
    lemma_replaced_behind(base, from, part_pattern(index, total), ".gguf"@, 0);
    assert(base.skip(0) =~= base);
}

/// Where the files of a split model lie in the model as a whole. The files
/// follow each other: each begins where the one before it ends.
pub struct SplitLayout {
    /// For each file its first byte and the byte behind its last one.
    spans: Vec<(u64, u64)>,
}

impl View for SplitLayout {
    type V = Seq<(u64, u64)>;

    closed spec fn view(&self) -> Seq<(u64, u64)> {
        self.spans@
    }
}

/// Whether spans follow each other from 0 on without a gap.
pub open spec fn contiguous(spans: Seq<(u64, u64)>) -> bool {
    &&& forall|i: int| 0 <= i < spans.len() ==> (#[trigger] spans[i]).0 <= spans[i].1
    &&& spans.len() > 0 ==> spans[0].0 == 0
    &&& forall|i: int| 0 < i < spans.len() ==> (#[trigger] spans[i]).0 == spans[i - 1].1
}

/// Whether `len` bytes from `offset` on lie in the file `i`.
pub open spec fn lies_in(spans: Seq<(u64, u64)>, i: int, offset: int, len: int) -> bool {
    0 <= i < spans.len() && spans[i].0 <= offset && offset + len <= spans[i].1
}

impl SplitLayout {
    /// The layout is contiguous.
    pub closed spec fn wf(&self) -> bool {
        contiguous(self.spans@)
    }

    /// A model of no files.
    pub fn new() -> (s: Self)
        ensures
            s.wf(),
            s@ == Seq::<(u64, u64)>::empty(),
    {
        SplitLayout { spans: Vec::new() }
    }

    /// The number of bytes of all files.
    pub fn total(&self) -> (n: u64)
        ensures
            n == (if self@.len() == 0 {
                0
            } else {
                self@.last().1
            }),
    {
        if self.spans.len() == 0 {
            0
        } else {
            self.spans[self.spans.len() - 1].1
        }
    }

    /// Adds a file of `len` bytes behind the others.
    pub fn push(&mut self, len: u64)
        requires
            old(self).wf(),
            (if old(self)@.len() == 0 {
                0
            } else {
                old(self)@.last().1
            }) + len <= u64::MAX,
        ensures
            final(self).wf(),
            final(self)@ == old(self)@.push(
                (
                    if old(self)@.len() == 0 {
                        0
                    } else {
                        old(self)@.last().1
                    },
                    ((if old(self)@.len() == 0 {
                        0
                    } else {
                        old(self)@.last().1
                    }) + len) as u64,
                ),
            ),
    {
        let start: u64 = self.total();
        let ghost before = self.spans@;
        self.spans.push((start, start + len));
        proof {
            assert forall|i: int| 0 < i < self.spans@.len() implies (#[trigger] self.spans@[i]).0
                == self.spans@[i - 1].1 by {
                if i < before.len() {
                    assert(before[i].0 == before[i - 1].1);
                }
            }
        }
    }

    /// The file that holds `len` bytes from `offset` on, and where in it they
    /// begin. A range that no single file holds has no place.
    pub fn locate(&self, offset: u64, len: usize) -> (r: Option<(usize, u64)>)
        ensures
            match r {
                Some((i, local)) => {
                    &&& lies_in(self@, i as int, offset as int, len as int)
                    &&& local == offset - self@[i as int].0
                    &&& forall|j: int| 0 <= j < i ==> !lies_in(self@, j, offset as int, len as int)
                },
                None => forall|j: int| !lies_in(self@, j, offset as int, len as int),
            },
    {
        let mut i: usize = 0;
        while i < self.spans.len()
            invariant
                i <= self.spans@.len(),
                forall|j: int| 0 <= j < i ==> !lies_in(self.spans@, j, offset as int, len as int),
            decreases self.spans@.len() - i,
        {
            let start: u64 = self.spans[i].0;
            let end: u64 = self.spans[i].1;
            if start <= offset && offset <= end && len as u64 <= end - offset {
                return Some((i, offset - start));
            }
            i += 1;
        }
        None
    }
}

proof fn lemma_spans_ordered(spans: Seq<(u64, u64)>, i: int, j: int)
    requires
        contiguous(spans),
        0 <= i < j < spans.len(),
    ensures
        spans[i].1 <= spans[j].0,
    decreases j,
{
    assert(spans[j].0 == spans[j - 1].1);
    if i < j - 1 {
        lemma_spans_ordered(spans, i, j - 1);
        assert(spans[j - 1].0 <= spans[j - 1].1);
    }
}

/// Bytes of a split model lie in one file only: two files never both hold a
/// range that is not empty.
pub proof fn law_range_lies_in_one_file(
    spans: Seq<(u64, u64)>,
    i: int,
    j: int,
    offset: int,
    len: int,
)
    requires
        contiguous(spans),
        len > 0,
        lies_in(spans, i, offset, len),
        lies_in(spans, j, offset, len),
    ensures
        i == j,
{
    if i < j {
        lemma_spans_ordered(spans, i, j);
    } else if j < i {
        lemma_spans_ordered(spans, j, i);
    }
}

/// Every byte of the model lies in some file.
pub proof fn law_every_byte_has_a_file(spans: Seq<(u64, u64)>, offset: int)
    requires
        contiguous(spans),
        spans.len() > 0,
        0 <= offset < spans.last().1,
    ensures
        exists|i: int| lies_in(spans, i, offset, 1),
    decreases spans.len(),
{
    let last = spans.len() - 1;
    if spans[last].0 <= offset {
        assert(lies_in(spans, last, offset, 1));
    } else {
        let front = spans.drop_last();
        assert(last > 0);
        assert(spans[last].0 == spans[last - 1].1);
        assert forall|i: int| 0 < i < front.len() implies (#[trigger] front[i]).0 == front[i - 1].1 by {
            assert(spans[i].0 == spans[i - 1].1);
        }
        assert forall|i: int| 0 <= i < front.len() implies (#[trigger] front[i]).0 <= front[i].1 by {
            assert(spans[i].0 <= spans[i].1);
        }
        law_every_byte_has_a_file(front, offset);
        let i = choose|i: int| lies_in(front, i, offset, 1);
        assert(lies_in(spans, i, offset, 1));
    }
}

} // verus!
