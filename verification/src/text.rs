//! Text building blocks: characters in and out of strings, decimal numbers,
//! and the few facts about `std` strings and characters that the rest of the
//! library leans on.

use vstd::prelude::*;
use vstd::string::*;
use vstd::utf8::*;

verus! {

/// `String::push` of the standard library: appends one character at the end
/// and leaves the characters before it as they were.
pub assume_specification[ std::string::String::push ](s: &mut std::string::String, c: char)
    ensures
        final(s)@ == old(s)@.push(c),
;

/// Decimal digit `d` as a character.
pub open spec fn digit(d: nat) -> char {
    (48 + d) as char
}

/// The decimal numeral of `n`, without leading zeros.
pub open spec fn decimal(n: nat) -> Seq<char>
    decreases n,
{
    if n < 10 {
        seq![digit(n)]
    } else {
        decimal(n / 10).push(digit(n % 10))
    }
}

/// The decimal numeral of an integer: a minus sign in front of negative ones.
pub open spec fn decimal_int(n: int) -> Seq<char> {
    if n < 0 {
        seq!['-'] + decimal((-n) as nat)
    } else {
        decimal(n as nat)
    }
}

fn digit_char(d: u64) -> (c: char)
    requires
        d < 10,
    ensures
        c == digit(d as nat),
{
    (48u8 + d as u8) as char
}

/// Appends the decimal numeral of `n` to `out`.
pub fn push_decimal(out: &mut String, n: u64)
    ensures
        final(out)@ == old(out)@ + decimal(n as nat),
    decreases n,
{
    if n >= 10 {
        push_decimal(out, n / 10);
    }
    out.push(digit_char(n % 10));
    proof {
        if n >= 10 {
            assert(decimal(n as nat) == decimal(n as nat / 10).push(digit(n as nat % 10)));
        }
        assert(out@ =~= old(out)@ + decimal(n as nat));
    }
}

/// The decimal numeral of `n`.
pub fn decimal_string(n: u64) -> (s: String)
    ensures
        s@ == decimal(n as nat),
{
    let mut s = String::new();
    push_decimal(&mut s, n);
    proof {
        assert(Seq::<char>::empty() + decimal(n as nat) =~= decimal(n as nat));
    }
    s
}

/// The decimal numeral of a signed `n`.
pub fn decimal_string_signed(n: i64) -> (s: String)
    ensures
        s@ == decimal_int(n as int),
{
    let mut s = String::new();
    if n < 0 {
        s.push('-');
        let magnitude: u64 = (-(n as i128)) as u64;
        push_decimal(&mut s, magnitude);
        proof {
            assert(s@ =~= decimal_int(n as int));
        }
    } else {
        push_decimal(&mut s, n as u64);
        proof {
            assert(s@ =~= decimal_int(n as int));
        }
    }
    s
}

/// The characters of a string, in order.
pub fn to_chars(s: &str) -> (chars: Vec<char>)
    ensures
        chars@ == s@,
{
    let mut chars: Vec<char> = Vec::new();
    for c in it: s.chars()
        invariant
            it.seq() == s@,
            chars@ == s@.take(it.index() as int),
    {
        chars.push(c);
        proof {
            assert(s@.take(it.index() as int + 1) =~= s@.take(it.index() as int).push(c));
        }
    }
    proof {
        assert(s@.take(s@.len() as int) =~= s@);
    }
    chars
}

/// The string of the characters `chars[from..to]`.
pub fn from_chars(chars: &[char], from: usize, to: usize) -> (s: String)
    requires
        from <= to <= chars@.len(),
    ensures
        s@ == chars@.subrange(from as int, to as int),
{
    let mut s = String::new();
    let mut i: usize = from;
    while i < to
        invariant
            from <= i <= to <= chars@.len(),
            s@ == chars@.subrange(from as int, i as int),
        decreases to - i,
    {
        s.push(chars[i]);
        proof {
            assert(chars@.subrange(from as int, i as int + 1) =~= chars@.subrange(
                from as int,
                i as int,
            ).push(chars@[i as int]));
        }
        i += 1;
    }
    s
}

/// Whether two string slices hold the same characters.
pub fn str_eq(a: &str, b: &str) -> (r: bool)
    ensures
        r == (a@ == b@),
{
    let x = a.as_bytes();
    let y = b.as_bytes();
    proof {
        encode_utf8_decode_utf8(a@);
        encode_utf8_decode_utf8(b@);
    }
    if x.len() != y.len() {
        return false;
    }
    let mut i: usize = 0;
    while i < x.len()
        invariant
            i <= x@.len(),
            x@.len() == y@.len(),
            x@ == encode_utf8(a@),
            y@ == encode_utf8(b@),
            forall|j: int| 0 <= j < i ==> x@[j] == y@[j],
        decreases x@.len() - i,
    {
        if x[i] != y[i] {
            return false;
        }
        i += 1;
    }
    proof {
        assert(x@ =~= y@);
    }
    true
}

/// `String::from_utf8` of the standard library: succeeds exactly on valid
/// UTF-8, and the string then holds the characters that the bytes encode.
#[verifier::external_body]
pub(crate) fn string_from_utf8(bytes: Vec<u8>) -> (s: Option<String>)
    ensures
        s is Some <==> valid_utf8(bytes@),
        s matches Some(text) ==> text@ == decode_utf8(bytes@),
{
    String::from_utf8(bytes).ok()
}

/// What `String::from_utf8_lossy` of the standard library makes of `bytes`.
pub uninterp spec fn utf8_lossy(bytes: Seq<u8>) -> Seq<char>;

/// `String::from_utf8_lossy` of the standard library. Valid UTF-8 comes out as
/// the characters it encodes; how invalid sequences are replaced is left to the
/// name `utf8_lossy`.
#[verifier::external_body]
pub(crate) fn string_from_utf8_lossy(bytes: &[u8]) -> (s: String)
    ensures
        s@ == utf8_lossy(bytes@),
        valid_utf8(bytes@) ==> s@ == decode_utf8(bytes@),
{
    String::from_utf8_lossy(bytes).into_owned()
}

/// The `Alphabetic` property of a character, as `char::is_alphabetic` has it.
pub uninterp spec fn alphabetic(c: char) -> bool;

/// `char::is_alphabetic` of the standard library, under the name `alphabetic`.
pub assume_specification[ char::is_alphabetic ](c: char) -> (r: bool)
    ensures
        r == alphabetic(c),
;

/// Whether a character is numeric, as `char::is_numeric` has it.
pub uninterp spec fn numeric(c: char) -> bool;

/// `char::is_numeric` of the standard library, under the name `numeric`.
pub assume_specification[ char::is_numeric ](c: char) -> (r: bool)
    ensures
        r == numeric(c),
;

/// The `White_Space` property of a character: the controls from tab to carriage
/// return and next line, and the spaces and separators of Unicode.
pub open spec fn whitespace(c: char) -> bool {
    let code = c as u32;
    ||| 0x9 <= code <= 0xD
    ||| code == 0x20
    ||| code == 0x85
    ||| code == 0xA0
    ||| code == 0x1680
    ||| 0x2000 <= code <= 0x200A
    ||| 0x2028 <= code <= 0x2029
    ||| code == 0x202F
    ||| code == 0x205F
    ||| code == 0x3000
}

/// `char::is_whitespace` of the standard library, documented as the `White_Space`
/// property of Unicode: true of the characters that [`whitespace`] lists, and of no
/// other.
pub assume_specification[ char::is_whitespace ](c: char) -> (r: bool)
    ensures
        r == whitespace(c),
;

/// `char::from_u32` of the standard library: the character with the code point
/// `v`, for every Unicode scalar value and for nothing else.
pub assume_specification[ char::from_u32 ](v: u32) -> (r: Option<char>)
    ensures
        r is Some <==> is_scalar(v),
        r matches Some(c) ==> c as u32 == v,
;

/// The text that the `Debug` formatting of a string gives: the string in quotes,
/// with escapes.
pub uninterp spec fn quoted(s: Seq<char>) -> Seq<char>;

/// `format!` with the `Debug` formatting of a string, under the name `quoted`.
#[verifier::external_body]
pub(crate) fn quoted_string(s: &str) -> (r: String)
    ensures
        r@ == quoted(s@),
{
    format!("{s:?}")
}

/// The characters of several strings.
pub open spec fn string_views(v: Seq<String>) -> Seq<Seq<char>> {
    Seq::new(v.len(), |i: int| v[i]@)
}

/// Whether `chars` continue with `suffix` at `i`.
pub open spec fn continues(chars: Seq<char>, i: int, suffix: Seq<char>) -> bool {
    &&& 0 <= i
    &&& i + suffix.len() <= chars.len()
    &&& chars.subrange(i, i + suffix.len()) == suffix
}

/// Whether `chars` continue with `token` at `pos`.
pub fn stands_at(chars: &[char], pos: usize, token: &[char]) -> (r: bool)
    requires
        pos <= chars@.len(),
    ensures
        r == continues(chars@, pos as int, token@),
{
    let n: usize = chars.len();
    if token.len() > n - pos {
        return false;
    }
    let ghost part = chars@.subrange(pos as int, pos + token@.len());
    let mut i: usize = 0;
    while i < token.len()
        invariant
            i <= token@.len(),
            n == chars@.len(),
            pos + token@.len() <= n,
            part == chars@.subrange(pos as int, pos + token@.len()),
            forall|j: int| 0 <= j < i ==> part[j] == token@[j],
        decreases token@.len() - i,
    {
        if chars[pos + i] != token[i] {
            proof {
                assert(part[i as int] != token@[i as int]);
            }
            return false;
        }
        i += 1;
    }
    proof {
        assert(part =~= token@);
    }
    true
}

/// The place at which `token` stands last in `chars`.
pub fn find_last(chars: &[char], token: &[char]) -> (r: Option<usize>)
    ensures
        match r {
            Some(pos) => stands_last(chars@, pos as int, token@),
            None => forall|p: int| !#[trigger] continues(chars@, p, token@),
        },
{
    let mut pos: usize = chars.len();
    while pos > 0
        invariant
            pos <= chars@.len(),
            forall|p: int| pos < p ==> !#[trigger] continues(chars@, p, token@),
        decreases pos,
    {
        if stands_at(chars, pos, token) {
            return Some(pos);
        }
        pos -= 1;
    }
    if stands_at(chars, 0, token) {
        return Some(0);
    }
    None
}

/// Whether `token` stands at `pos` and nowhere behind it.
pub open spec fn stands_last(chars: Seq<char>, pos: int, token: Seq<char>) -> bool {
    &&& continues(chars, pos, token)
    &&& forall|p: int| pos < p ==> !#[trigger] continues(chars, p, token)
}

/// Whether a character is one of `0` to `9`.
pub open spec fn is_digit(c: char) -> bool {
    '0' <= c <= '9'
}

/// The number that decimal digits denote.
pub open spec fn digits_value(s: Seq<char>) -> nat
    decreases s.len(),
{
    if s.len() == 0 {
        0
    } else {
        digits_value(s.drop_last()) * 10 + ((s.last() as u32 - 48) as nat)
    }
}

/// Whether a text is made of decimal digits only.
pub open spec fn all_digits(s: Seq<char>) -> bool {
    forall|i: int| 0 <= i < s.len() ==> is_digit(#[trigger] s[i])
}

/// A text without the plus sign in front of it.
pub open spec fn without_plus(s: Seq<char>) -> Seq<char> {
    if s.len() > 1 && s[0] == '+' {
        s.skip(1)
    } else {
        s
    }
}

/// The number that a text denotes: decimal digits, at least one, after an
/// optional plus sign, of a value that fits a `usize`.
pub open spec fn usize_of(s: Seq<char>) -> Option<nat> {
    let digits = without_plus(s);
    if digits.len() > 0 && all_digits(digits) && digits_value(digits) <= usize::MAX {
        Some(digits_value(digits))
    } else {
        None
    }
}

proof fn lemma_digits_value_grows(s: Seq<char>, k: int)
    requires
        0 <= k <= s.len(),
    ensures
        digits_value(s.take(k)) <= digits_value(s),
    decreases s.len() - k,
{
    if k == s.len() {
        assert(s.take(k) =~= s);
    } else {
        lemma_digits_value_grows(s, k + 1);
        assert(s.take(k + 1).drop_last() =~= s.take(k));
    }
}

/// The number that the text `chars[from..to]` denotes.
pub fn parse_usize(chars: &[char], from: usize, to: usize) -> (r: Option<usize>)
    requires
        from <= to <= chars@.len(),
    ensures
        match r {
            Some(n) => usize_of(chars@.subrange(from as int, to as int)) == Some(n as nat),
            None => usize_of(chars@.subrange(from as int, to as int)) is None,
        },
{
    let ghost s = chars@.subrange(from as int, to as int);
    let start: usize = if to - from > 1 && chars[from] == '+' {
        from + 1
    } else {
        from
    };
    let ghost digits = without_plus(s);
    proof {
        assert(digits =~= chars@.subrange(start as int, to as int));
    }
    if start == to {
        return None;
    }
    let mut n: usize = 0;
    let mut i: usize = start;
    proof {
        assert(digits.take(0) =~= Seq::empty());
    }
    while i < to
        invariant
            start <= i <= to <= chars@.len(),
            digits == chars@.subrange(start as int, to as int),
            s == chars@.subrange(from as int, to as int),
            digits == without_plus(s),
            forall|k: int| 0 <= k < i - start ==> is_digit(#[trigger] digits[k]),
            n == digits_value(digits.take(i - start)),
        decreases to - i,
    {
        let c: char = chars[i];
        proof {
            let next = digits.take(i - start + 1);
            assert(next.drop_last() =~= digits.take(i - start));
            assert(next.last() == c);
            assert(digits[i - start] == c);
            lemma_digits_value_grows(digits, i - start + 1);
        }
        if c < '0' || c > '9' {
            proof {
                assert(!is_digit(digits[i - start]));
            }
            return None;
        }
        let d: usize = (c as u32 - 48) as usize;
        match n.checked_mul(10) {
            None => {
                return None;
            },
            Some(m) => match m.checked_add(d) {
                None => {
                    return None;
                },
                Some(v) => {
                    n = v;
                },
            },
        }
        i += 1;
    }
    proof {
        assert(digits.take(digits.len() as int) =~= digits);
        assert(all_digits(digits));
    }
    Some(n)
}

/// `n` zeros.
pub open spec fn zeros(n: int) -> Seq<char> {
    Seq::new(
        if n < 0 {
            0
        } else {
            n as nat
        },
        |i: int| '0',
    )
}

/// The decimal numeral of `n`, filled up with leading zeros to `width`
/// characters.
pub open spec fn padded(n: nat, width: int) -> Seq<char> {
    zeros(width - decimal(n).len()) + decimal(n)
}

/// A numeral behind zeros consists of digits and denotes its number.
proof fn lemma_numeral_behind_zeros(n: nat, k: int)
    ensures
        decimal(n).len() > 0,
        all_digits(zeros(k) + decimal(n)),
        digits_value(zeros(k) + decimal(n)) == n,
    decreases n,
{
    let s = zeros(k) + decimal(n);
    if n < 10 {
        lemma_zeros_value(k);
        assert(s.drop_last() =~= zeros(k));
    } else {
        lemma_numeral_behind_zeros(n / 10, k);
        let front = zeros(k) + decimal(n / 10);
        assert(s.drop_last() =~= front);
        assert forall|i: int| 0 <= i < s.len() implies is_digit(#[trigger] s[i]) by {
            if i < front.len() {
                assert(s[i] == front[i]);
            }
        }
    }
}

proof fn lemma_zeros_value(k: int)
    ensures
        digits_value(zeros(k)) == 0,
    decreases k,
{
    if k > 0 {
        lemma_zeros_value(k - 1);
        assert(zeros(k).drop_last() =~= zeros(k - 1));
    }
}

/// A padded numeral denotes its number.
pub(crate) proof fn lemma_padded_denotes(n: nat, width: int)
    requires
        n <= usize::MAX,
    ensures
        padded(n, width).len() > 0,
        all_digits(padded(n, width)),
        usize_of(padded(n, width)) == Some(n),
{
    lemma_numeral_behind_zeros(n, width - decimal(n).len());
    assert(is_digit(padded(n, width)[0]));
}

/// The characters of the decimal numeral of `n`, filled up with leading zeros to
/// `width` characters.
pub fn padded_chars(n: u64, width: usize) -> (chars: Vec<char>)
    ensures
        chars@ == padded(n as nat, width as int),
{
    let mut numeral = to_chars(decimal_string(n).as_str());
    let mut chars: Vec<char> = Vec::new();
    if numeral.len() < width {
        let fill: usize = width - numeral.len();
        let mut i: usize = 0;
        while i < fill
            invariant
                i <= fill,
                chars@ == zeros(i as int),
            decreases fill - i,
        {
            chars.push('0');
            proof {
                assert(zeros(i as int + 1) =~= zeros(i as int).push('0'));
            }
            i += 1;
        }
    } else {
        proof {
            assert(zeros(width - decimal(n as nat).len()) =~= Seq::empty());
        }
    }
    chars.append(&mut numeral);
    chars
}

/// The text with every place of `from`, from the left and without overlap,
/// replaced by `to`; `i` is where to go on.
pub open spec fn replaced(chars: Seq<char>, from: Seq<char>, to: Seq<char>, i: int) -> Seq<char>
    decreases chars.len() - i,
{
    if i < 0 || i >= chars.len() || from.len() == 0 {
        Seq::empty()
    } else if continues(chars, i, from) {
        to + replaced(chars, from, to, i + from.len())
    } else {
        seq![chars[i]] + replaced(chars, from, to, i + 1)
    }
}

/// Replaces every place of `from`, from the left and without overlap, by `to`.
pub fn replace_all(chars: &[char], from: &[char], to: &[char]) -> (s: String)
    requires
        from@.len() > 0,
    ensures
        s@ == replaced(chars@, from@, to@, 0),
{
    let mut s = String::new();
    let mut i: usize = 0;
    proof {
        assert(s@ + replaced(chars@, from@, to@, 0) =~= replaced(chars@, from@, to@, 0));
    }
    while i < chars.len()
        invariant
            from@.len() > 0,
            i <= chars@.len(),
            replaced(chars@, from@, to@, 0) == s@ + replaced(chars@, from@, to@, i as int),
        decreases chars@.len() - i,
    {
        let ghost before = s@;
        if stands_at(chars, i, from) {
            let piece = from_chars(to, 0, to.len());
            s.append(piece.as_str());
            proof {
                assert(piece@ =~= to@);
                assert(before + (to@ + replaced(chars@, from@, to@, i + from@.len())) =~= s@
                    + replaced(chars@, from@, to@, i + from@.len()));
            }
            i += from.len();
        } else {
            s.push(chars[i]);
            proof {
                assert(before + (seq![chars@[i as int]] + replaced(chars@, from@, to@, i + 1))
                    =~= s@ + replaced(chars@, from@, to@, i + 1));
            }
            i += 1;
        }
    }
    proof {
        assert(s@ + Seq::<char>::empty() =~= s@);
    }
    s
}

} // verus!
