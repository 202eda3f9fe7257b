//! Text primitives: splitting, trimming, and numbers in decimal and hexadecimal.

use vstd::prelude::*;
use vstd::slice::{slice_subrange, slice_to_vec};
use vstd::utf8::*;

verus! {

/// `String::push`: appends the character at the end.
pub assume_specification[ String::push ](s: &mut String, c: char)
    ensures
        final(s)@ == old(s)@.push(c),
;

/// What text is made of: bytes or characters, compared by value.
pub trait Symbol: Copy {
    /// Whether the two are the same.
    fn same(self, other: Self) -> (r: bool)
        ensures
            r == (self == other),
    ;
}

impl Symbol for u8 {
    fn same(self, other: u8) -> (r: bool) {
        self == other
    }
}

impl Symbol for char {
    fn same(self, other: char) -> (r: bool) {
        self == other
    }
}

// ---------------------------------------------------------------------------------------------
// Splitting
// ---------------------------------------------------------------------------------------------
/// The half-open spans between separators in `s` from `i` on, where the span in progress began
/// at `start`.
pub open spec fn pieces_from<T>(s: Seq<T>, sep: T, start: int, i: int) -> Seq<(int, int)>
    decreases s.len() - i,
{
    if i >= s.len() {
        seq![(start, s.len() as int)]
    } else if s[i] == sep {
        seq![(start, i)] + pieces_from(s, sep, i + 1, i + 1)
    } else {
        pieces_from(s, sep, start, i + 1)
    }
}

/// The spans of `s` between separators. There is always at least one.
pub open spec fn pieces<T>(s: Seq<T>, sep: T) -> Seq<(int, int)> {
    pieces_from(s, sep, 0, 0)
}

/// The part of `s` that a span covers.
pub open spec fn span<T>(s: Seq<T>, p: (int, int)) -> Seq<T> {
    s.subrange(p.0, p.1)
}

/// A list of executable spans as mathematical ones.
pub open spec fn spans(v: Seq<(usize, usize)>) -> Seq<(int, int)> {
    Seq::new(v.len(), |k: int| (v[k].0 as int, v[k].1 as int))
}

/// Every span lies inside `s`, and there is at least one.
pub proof fn lemma_pieces_bounds<T>(s: Seq<T>, sep: T, start: int, i: int)
    requires
        0 <= start <= i <= s.len(),
    ensures
        pieces_from(s, sep, start, i).len() > 0,
        forall|k: int|
            0 <= k < pieces_from(s, sep, start, i).len() ==> {
                let p = #[trigger] pieces_from(s, sep, start, i)[k];
                start <= p.0 <= p.1 <= s.len()
            },
    decreases s.len() - i,
{
    if i >= s.len() {
    } else if s[i] == sep {
        lemma_pieces_bounds(s, sep, i + 1, i + 1);
    } else {
        lemma_pieces_bounds(s, sep, start, i + 1);
    }
}

/// Whether a span of `s` holds no separator and ends at one or at the end of `s`.
pub open spec fn is_piece<T>(s: Seq<T>, sep: T, p: (int, int)) -> bool {
    &&& p.1 == s.len() || s[p.1] == sep
    &&& forall|j: int| p.0 <= j < p.1 ==> s[j] != sep
}

/// The spans between separators hold none.
pub proof fn lemma_pieces_ends<T>(s: Seq<T>, sep: T, start: int, i: int)
    requires
        0 <= start <= i <= s.len(),
        forall|j: int| start <= j < i ==> s[j] != sep,
    ensures
        forall|k: int|
            0 <= k < pieces_from(s, sep, start, i).len() ==> is_piece(
                s,
                sep,
                #[trigger] pieces_from(s, sep, start, i)[k],
            ),
    decreases s.len() - i,
{
    if i >= s.len() {
        assert(is_piece(s, sep, (start, i)));
        assert(pieces_from(s, sep, start, i) =~= seq![(start, i)]);
    } else if s[i] == sep {
        lemma_pieces_ends(s, sep, i + 1, i + 1);
        let rest = pieces_from(s, sep, i + 1, i + 1);
        assert(is_piece(s, sep, (start, i)));
        assert forall|k: int| 0 <= k < pieces_from(s, sep, start, i).len() implies is_piece(
            s,
            sep,
            #[trigger] pieces_from(s, sep, start, i)[k],
        ) by {
            if k > 0 {
                assert(pieces_from(s, sep, start, i)[k] == rest[k - 1]);
            }
        }
    } else {
        lemma_pieces_ends(s, sep, start, i + 1);
        assert(pieces_from(s, sep, start, i) == pieces_from(s, sep, start, i + 1));
    }
}

/// The first span begins at once and ends at the next separator.
pub proof fn lemma_first_piece<T>(s: Seq<T>, sep: T, start: int, i: int, end: int)
    requires
        0 <= start <= i <= end <= s.len(),
        forall|j: int| i <= j < end ==> #[trigger] s[j] != sep,
        end == s.len() || s[end] == sep,
    ensures
        pieces_from(s, sep, start, i).len() > 0,
        pieces_from(s, sep, start, i)[0] == (start, end),
    decreases end - i,
{
    if i < end {
        lemma_first_piece(s, sep, start, i + 1, end);
    }
}

/// Every span but the first begins behind a separator.
pub proof fn lemma_pieces_starts<T>(s: Seq<T>, sep: T, start: int, i: int)
    requires
        0 <= start <= i <= s.len(),
    ensures
        pieces_from(s, sep, start, i)[0].0 == start,
        forall|k: int|
            0 < k < pieces_from(s, sep, start, i).len() ==> {
                let p = #[trigger] pieces_from(s, sep, start, i)[k];
                p.0 > i && s[p.0 - 1] == sep
            },
    decreases s.len() - i,
{
    if i < s.len() {
        if s[i] == sep {
            lemma_pieces_starts(s, sep, i + 1, i + 1);
            lemma_pieces_bounds(s, sep, i + 1, i + 1);
            let (all, rest) = (
                pieces_from(s, sep, start, i),
                pieces_from(s, sep, i + 1, i + 1),
            );
            assert forall|k: int| 0 < k < all.len() implies {
                let p = #[trigger] all[k];
                p.0 > i && s[p.0 - 1] == sep
            } by {
                assert(all[k] == rest[k - 1]);
            }
        } else {
            lemma_pieces_starts(s, sep, start, i + 1);
        }
    }
}

/// Every symbol that is no separator lies in a span.
pub proof fn lemma_pieces_cover<T>(s: Seq<T>, sep: T, start: int, i: int, at: int)
    requires
        0 <= start <= i <= s.len(),
        start <= at < s.len(),
        s[at] != sep,
        forall|j: int| start <= j < i ==> s[j] != sep,
    ensures
        exists|k: int|
            0 <= k < pieces_from(s, sep, start, i).len() && (#[trigger] pieces_from(
                s,
                sep,
                start,
                i,
            )[k]).0 <= at < pieces_from(s, sep, start, i)[k].1,
    decreases s.len() - i,
{
    let all = pieces_from(s, sep, start, i);
    if i >= s.len() {
        assert(all[0].0 <= at < all[0].1);
    } else if s[i] == sep {
        let rest = pieces_from(s, sep, i + 1, i + 1);
        if at < i {
            assert(all[0] == (start, i));
        } else {
            lemma_pieces_cover(s, sep, i + 1, i + 1, at);
            let k = choose|k: int| 0 <= k < rest.len() && (#[trigger] rest[k]).0 <= at < rest[k].1;
            assert(all[k + 1] == rest[k]);
        }
    } else {
        lemma_pieces_cover(s, sep, start, i + 1, at);
    }
}

/// Where no separator is left, the rest is one piece.
pub proof fn lemma_last_piece<T>(s: Seq<T>, sep: T, start: int, i: int)
    requires
        0 <= start <= i <= s.len(),
        forall|j: int| i <= j < s.len() ==> #[trigger] s[j] != sep,
    ensures
        pieces_from(s, sep, start, i) == seq![(start, s.len() as int)],
    decreases s.len() - i,
{
    if i < s.len() {
        lemma_last_piece(s, sep, start, i + 1);
    }
}

/// The spans of a part of `s` that ends at a separator are the first spans of `s`.
pub proof fn lemma_pieces_of_part<T>(s: Seq<T>, sep: T, end: int, start: int, i: int)
    requires
        0 <= start <= i <= end < s.len(),
        s[end] == sep,
    ensures
        pieces_from(s, sep, start, i) == pieces_from(s.take(end), sep, start, i) + pieces_from(
            s,
            sep,
            end + 1,
            end + 1,
        ),
    decreases end - i,
{
    if i < end {
        if s[i] == sep {
            lemma_pieces_of_part(s, sep, end, i + 1, i + 1);
        } else {
            lemma_pieces_of_part(s, sep, end, start, i + 1);
        }
    }
    assert(pieces_from(s, sep, start, i) =~= pieces_from(s.take(end), sep, start, i) + pieces_from(
        s,
        sep,
        end + 1,
        end + 1,
    ));
}

/// The spans of `s` between separators.
pub fn split<T: Symbol>(s: &[T], sep: T) -> (r: Vec<(usize, usize)>)
    ensures
        spans(r@) == pieces(s@, sep),
{
    let mut out: Vec<(usize, usize)> = Vec::new();
    let mut start: usize = 0;
    let mut i: usize = 0;
    while i < s.len()
        invariant
            start <= i <= s@.len(),
            pieces(s@, sep) == spans(out@) + pieces_from(s@, sep, start as int, i as int),
        decreases s@.len() - i,
    {
        if s[i].same(sep) {
            assert(spans(out@.push((start, i))) == spans(out@).push((start as int, i as int)));
            out.push((start, i));
            start = i + 1;
        }
        i = i + 1;
    }
    assert(spans(out@.push((start, i))) == spans(out@).push((start as int, i as int)));
    out.push((start, i));
    out
}

// ---------------------------------------------------------------------------------------------
// Lines
// ---------------------------------------------------------------------------------------------
/// The lines of `s`: the pieces between newlines without the line ending, which is a newline
/// with or without a carriage return before it. An empty piece after the last newline is no
/// line, and a carriage return that no newline follows belongs to its line.
pub open spec fn line_spans<T>(s: Seq<T>, newline: T, cr: T) -> Seq<(int, int)> {
    let ps = pieces(s, newline);
    let last = ps.len() - 1;
    Seq::new(
        (if ps[last].0 == ps[last].1 {
            last
        } else {
            last + 1
        }) as nat,
        |k: int|
            if k < last && ps[k].0 < ps[k].1 && s[ps[k].1 - 1] == cr {
                (ps[k].0, ps[k].1 - 1)
            } else {
                ps[k]
            },
    )
}

/// Every line lies inside `s`.
pub proof fn lemma_line_bounds<T>(s: Seq<T>, newline: T, cr: T)
    ensures
        forall|k: int|
            0 <= k < line_spans(s, newline, cr).len() ==> {
                let p = #[trigger] line_spans(s, newline, cr)[k];
                0 <= p.0 <= p.1 <= s.len()
            },
{
    lemma_pieces_bounds(s, newline, 0, 0);
}

/// The lines of `s`.
pub fn lines<T: Symbol>(s: &[T], newline: T, cr: T) -> (r: Vec<(usize, usize)>)
    ensures
        spans(r@) == line_spans(s@, newline, cr),
{
    let ps = split(s, newline);
    let ghost model = pieces(s@, newline);
    proof {
        lemma_pieces_bounds(s@, newline, 0, 0);
    }
    assert(model.len() == ps@.len());
    let mut out: Vec<(usize, usize)> = Vec::new();
    let last: usize = ps.len() - 1;
    let mut k: usize = 0;
    while k < last
        invariant
            last + 1 == ps@.len(),
            k <= last,
            spans(ps@) == model,
            forall|k: int|
                0 <= k < model.len() ==> {
                    let p = #[trigger] model[k];
                    0 <= p.0 <= p.1 <= s@.len()
                },
            out@.len() == k,
            forall|j: int|
                0 <= j < k ==> #[trigger] spans(out@)[j] == if model[j].0 < model[j].1
                    && s@[model[j].1 - 1] == cr {
                    (model[j].0, model[j].1 - 1)
                } else {
                    model[j]
                },
        decreases last - k,
    {
        let (a, b) = ps[k];
        assert(model[k as int] == (a as int, b as int));
        let ghost before = out@;
        if a < b && s[b - 1].same(cr) {
            out.push((a, b - 1));
        } else {
            out.push((a, b));
        }
        assert forall|j: int| 0 <= j < k implies #[trigger] spans(out@)[j] == spans(before)[j] by {}
        k = k + 1;
    }
    let (a, b) = ps[last];
    assert(model[last as int] == (a as int, b as int));
    let ghost before = out@;
    if a != b {
        out.push((a, b));
    }
    assert forall|j: int| 0 <= j < last implies #[trigger] spans(out@)[j] == spans(before)[j] by {}
    assert(spans(out@) =~= line_spans(s@, newline, cr));
    out
}

// ---------------------------------------------------------------------------------------------
// Copies and comparison
// ---------------------------------------------------------------------------------------------
/// The characters of texts.
pub open spec fn texts(v: Seq<String>) -> Seq<Seq<char>> {
    v.map_values(|s: String| s@)
}

/// The characters of an optional text.
pub open spec fn opt_text(s: Option<String>) -> Option<Seq<char>> {
    match s {
        Some(s) => Some(s@),
        None => None,
    }
}

/// Whether two runs of symbols are the same.
pub fn same_run<T: Symbol>(a: &[T], b: &[T]) -> (r: bool)
    ensures
        r == (a@ == b@),
{
    if a.len() != b.len() {
        return false;
    }
    let mut i: usize = 0;
    while i < a.len()
        invariant
            a@.len() == b@.len(),
            i <= a@.len(),
            forall|j: int| 0 <= j < i ==> a@[j] == b@[j],
        decreases a@.len() - i,
    {
        if !a[i].same(b[i]) {
            return false;
        }
        i = i + 1;
    }
    assert(a@ =~= b@);
    true
}

/// Whether `s` begins with `prefix`.
pub fn has_prefix<T: Symbol>(s: &[T], prefix: &[T]) -> (r: bool)
    ensures
        r == prefix@.is_prefix_of(s@),
{
    s.len() >= prefix.len() && same_run(slice_subrange(s, 0, prefix.len()), prefix)
}

/// Whether `s` ends with `suffix`.
pub fn has_suffix<T: Symbol>(s: &[T], suffix: &[T]) -> (r: bool)
    ensures
        r == suffix@.is_suffix_of(s@),
{
    s.len() >= suffix.len() && same_run(
        slice_subrange(s, s.len() - suffix.len(), s.len()),
        suffix,
    )
}

/// Appends a run of symbols.
pub fn append_run<T: Symbol>(out: &mut Vec<T>, s: &[T])
    ensures
        final(out)@ == old(out)@ + s@,
{
    let mut copy = slice_to_vec(s);
    out.append(&mut copy);
}

/// The characters of a text.
pub fn chars_of(text: &str) -> (r: Vec<char>)
    ensures
        r@ == text@,
{
    let mut out: Vec<char> = Vec::new();
    for c in it: text.chars()
        invariant
            it.seq() == text@,
            out@ == text@.take(it.index() as int),
    {
        out.push(c);
    }
    assert(text@.take(text@.len() as int) =~= text@);
    out
}

/// The text that consists of the given characters.
pub fn text_of(chars: &[char]) -> (r: String)
    ensures
        r@ == chars@,
{
    let mut out = String::new();
    let mut i: usize = 0;
    while i < chars.len()
        invariant
            i <= chars@.len(),
            out@ == chars@.take(i as int),
        decreases chars@.len() - i,
    {
        out.push(chars[i]);
        i = i + 1;
        assert(chars@.take(i as int) =~= chars@.take(i - 1).push(chars@[i - 1]));
    }
    assert(chars@.take(chars@.len() as int) =~= chars@);
    out
}

/// Whether a run of characters spells `text`.
pub fn spells(chars: &[char], text: &str) -> (r: bool)
    ensures
        r == (chars@ == text@),
{
    let expected = chars_of(text);
    same_run(chars, expected.as_slice())
}

/// Whether two texts are the same.
pub fn same_text(a: &str, b: &str) -> (r: bool)
    ensures
        r == (a@ == b@),
{
    let a = chars_of(a);
    spells(a.as_slice(), b)
}

/// `str::from_utf8`: the text that the bytes encode, or nothing where they are not valid UTF-8.
#[verifier::external_body]
pub(crate) fn utf8_text(bytes: &[u8]) -> (r: Option<&str>)
    ensures
        r is Some == valid_utf8(bytes@),
        r is Some ==> r.unwrap()@ == decode_utf8(bytes@),
{
    std::str::from_utf8(bytes).ok()
}

/// The text that bytes stand for, with something in place of what is not text.
pub uninterp spec fn lossy(bytes: Seq<u8>) -> Seq<char>;

/// `String::from_utf8_lossy`: valid UTF-8 is kept as it is; what is not valid is replaced.
#[verifier::external_body]
pub(crate) fn lossy_text(bytes: &[u8]) -> (r: String)
    ensures
        r@ == lossy(bytes@),
        valid_utf8(bytes@) ==> r@ == decode_utf8(bytes@),
{
    String::from_utf8_lossy(bytes).into_owned()
}

// ---------------------------------------------------------------------------------------------
// Cutting and trimming
// ---------------------------------------------------------------------------------------------
/// Where the first `": "` at or after `i` stands.
pub open spec fn colon_from(s: Seq<char>, i: int) -> Option<int>
    decreases s.len() - i,
{
    if i + 1 >= s.len() {
        None
    } else if s[i] == ':' && s[i + 1] == ' ' {
        Some(i)
    } else {
        colon_from(s, i + 1)
    }
}

/// Finds the first `": "`.
pub fn find_colon(s: &[char]) -> (r: Option<usize>)
    ensures
        match r {
            Some(k) => colon_from(s@, 0) == Some(k as int) && k + 2 <= s@.len(),
            None => colon_from(s@, 0) is None,
        },
{
    let mut i: usize = 0;
    while i < s.len() && i + 1 < s.len()
        invariant
            i <= s@.len(),
            colon_from(s@, 0) == colon_from(s@, i as int),
        decreases s@.len() - i,
    {
        if s[i] == ':' && s[i + 1] == ' ' {
            return Some(i);
        }
        i = i + 1;
    }
    None
}

/// The characters with the Unicode property `White_Space`.
pub open spec fn is_white_space(c: char) -> bool {
    ||| '\u{9}' <= c <= '\u{d}'
    ||| c == ' '
    ||| c == '\u{85}'
    ||| c == '\u{a0}'
    ||| c == '\u{1680}'
    ||| '\u{2000}' <= c <= '\u{200a}'
    ||| c == '\u{2028}'
    ||| c == '\u{2029}'
    ||| c == '\u{202f}'
    ||| c == '\u{205f}'
    ||| c == '\u{3000}'
}

/// Whether a character is white space.
pub fn white_space(c: char) -> (r: bool)
    ensures
        r == is_white_space(c),
{
    ('\u{9}' <= c && c <= '\u{d}') || c == ' ' || c == '\u{85}' || c == '\u{a0}' || c == '\u{1680}'
        || ('\u{2000}' <= c && c <= '\u{200a}') || c == '\u{2028}' || c == '\u{2029}' || c
        == '\u{202f}' || c == '\u{205f}' || c == '\u{3000}'
}

/// `s` without the white space at its end.
pub open spec fn trimmed(s: Seq<char>) -> Seq<char>
    decreases s.len(),
{
    if s.len() > 0 && is_white_space(s.last()) {
        trimmed(s.drop_last())
    } else {
        s
    }
}

/// Drops the white space at the end.
pub fn trim_end(s: &[char]) -> (r: &[char])
    ensures
        r@ == trimmed(s@),
{
    let mut n: usize = s.len();
    assert(s@.take(n as int) =~= s@);
    while n > 0 && white_space(s[n - 1])
        invariant
            n <= s@.len(),
            trimmed(s@) == trimmed(s@.take(n as int)),
        decreases n,
    {
        assert(s@.take(n as int).drop_last() =~= s@.take(n - 1));
        n = n - 1;
    }
    assert(s@.subrange(0, n as int) =~= s@.take(n as int));
    slice_subrange(s, 0, n)
}

// ---------------------------------------------------------------------------------------------
// Numbers
// ---------------------------------------------------------------------------------------------
/// Whether a character is a decimal digit.
pub open spec fn is_digit(c: char) -> bool {
    '0' <= c <= '9'
}

/// The number that a run of decimal digits stands for.
pub open spec fn decimal_value(s: Seq<char>) -> nat
    decreases s.len(),
{
    if s.len() == 0 {
        0
    } else {
        decimal_value(s.drop_last()) * 10 + (s.last() as nat - '0' as nat) as nat
    }
}

/// The digits of a number that may be written with a plus sign.
pub open spec fn unsigned_digits(s: Seq<char>) -> Seq<char> {
    if s.len() > 0 && s[0] == '+' {
        s.skip(1)
    } else {
        s
    }
}

/// A number of 64 bits: at least one digit, an optional plus sign, nothing else, and no more
/// than the type can hold.
pub open spec fn parsed_u64(s: Seq<char>) -> Option<u64> {
    let digits = unsigned_digits(s);
    if digits.len() > 0 && (forall|i: int| 0 <= i < digits.len() ==> is_digit(#[trigger] digits[i]))
        && decimal_value(digits) <= u64::MAX {
        Some(decimal_value(digits) as u64)
    } else {
        None
    }
}

/// More digits never make a number smaller.
proof fn lemma_value_grows(s: Seq<char>, k: int)
    requires
        0 <= k <= s.len(),
    ensures
        decimal_value(s.take(k)) <= decimal_value(s),
    decreases s.len() - k,
{
    if k < s.len() {
        lemma_value_grows(s, k + 1);
        assert(s.take(k + 1).drop_last() =~= s.take(k));
    } else {
        assert(s.take(k) =~= s);
    }
}

/// Reads a number of 64 bits.
pub fn parse_u64(s: &[char]) -> (r: Option<u64>)
    ensures
        r == parsed_u64(s@),
{
    let digits = if s.len() > 0 && s[0] == '+' {
        slice_subrange(s, 1, s.len())
    } else {
        s
    };
    assert(digits@ =~= unsigned_digits(s@));
    if digits.len() == 0 {
        return None;
    }
    let mut value: u64 = 0;
    let mut i: usize = 0;
    assert(digits@.take(0) =~= Seq::<char>::empty());
    while i < digits.len()
        invariant
            digits@ == unsigned_digits(s@),
            i <= digits@.len(),
            value == decimal_value(digits@.take(i as int)),
            forall|j: int| 0 <= j < i ==> is_digit(#[trigger] digits@[j]),
        decreases digits@.len() - i,
    {
        let c = digits[i];
        if !('0' <= c && c <= '9') {
            assert(!is_digit(digits@[i as int]));
            return None;
        }
        let digit: u64 = (c as u32 - '0' as u32) as u64;
        proof {
            assert(digits@.take(i + 1).drop_last() =~= digits@.take(i as int));
            lemma_value_grows(digits@, i + 1);
        }
        if value > (u64::MAX - digit) / 10 {
            assert(value * 10 + digit > u64::MAX);
            return None;
        }
        value = value * 10 + digit;
        i = i + 1;
    }
    assert(digits@.take(i as int) =~= digits@);
    Some(value)
}

/// The character of a digit below sixteen.
pub open spec fn digit_char(d: nat) -> char {
    if d < 10 {
        ('0' as nat + d) as char
    } else {
        ('a' as nat + d - 10) as char
    }
}

/// A number in decimal, without leading zeros.
pub open spec fn decimal(n: nat) -> Seq<char>
    decreases n,
{
    if n < 10 {
        seq![digit_char(n)]
    } else {
        decimal(n / 10).push(digit_char(n % 10))
    }
}

/// The last `width` hexadecimal digits of a number.
pub open spec fn hexadecimal(n: nat, width: nat) -> Seq<char>
    decreases width,
{
    if width == 0 {
        Seq::empty()
    } else {
        hexadecimal(n / 16, (width - 1) as nat).push(digit_char(n % 16))
    }
}

/// The last `width` decimal digits of a number.
pub open spec fn padded_decimal(n: nat, width: nat) -> Seq<char>
    decreases width,
{
    if width == 0 {
        Seq::empty()
    } else {
        padded_decimal(n / 10, (width - 1) as nat).push(digit_char(n % 10))
    }
}

/// The character of a digit.
fn digit(d: u8) -> (r: char)
    requires
        d < 16,
    ensures
        r == digit_char(d as nat),
{
    if d < 10 {
        (0x30 + d) as char
    } else {
        (0x61 + (d - 10)) as char
    }
}

/// Appends a number in decimal.
pub fn push_decimal(out: &mut String, n: u64)
    ensures
        final(out)@ == old(out)@ + decimal(n as nat),
    decreases n,
{
    if n >= 10 {
        push_decimal(out, n / 10);
    }
    out.push(digit((n % 10) as u8));
    assert(out@ =~= old(out)@ + decimal(n as nat));
}

/// Appends the last `width` decimal digits of a number.
pub fn push_padded_decimal(out: &mut String, n: u64, width: u32)
    ensures
        final(out)@ == old(out)@ + padded_decimal(n as nat, width as nat),
    decreases width,
{
    if width > 0 {
        push_padded_decimal(out, n / 10, width - 1);
        out.push(digit((n % 10) as u8));
    }
    assert(out@ =~= old(out)@ + padded_decimal(n as nat, width as nat));
}

/// Appends the last `width` hexadecimal digits of a number.
pub fn push_hexadecimal(out: &mut String, n: u32, width: u32)
    ensures
        final(out)@ == old(out)@ + hexadecimal(n as nat, width as nat),
    decreases width,
{
    if width > 0 {
        push_hexadecimal(out, n / 16, width - 1);
        out.push(digit((n % 16) as u8));
    }
    assert(out@ =~= old(out)@ + hexadecimal(n as nat, width as nat));
}

/// A lower-case letter, a digit or a dash.
pub open spec fn is_plain(c: char) -> bool {
    'a' <= c <= 'z' || '0' <= c <= '9' || c == '-'
}

/// A number in decimal consists of digits.
pub proof fn lemma_decimal_is_plain(n: nat)
    ensures
        decimal(n).len() > 0,
        forall|i: int| 0 <= i < decimal(n).len() ==> is_plain(#[trigger] decimal(n)[i]),
    decreases n,
{
    if n >= 10 {
        lemma_decimal_is_plain(n / 10);
    }
}

/// A number in hexadecimal consists of letters and digits.
pub proof fn lemma_hexadecimal_is_plain(n: nat, width: nat)
    ensures
        hexadecimal(n, width).len() == width,
        forall|i: int| 0 <= i < width ==> is_plain(#[trigger] hexadecimal(n, width)[i]),
    decreases width,
{
    if width > 0 {
        lemma_hexadecimal_is_plain(n / 16, (width - 1) as nat);
    }
}

/// Text that is put together is encoded piece by piece.
pub proof fn lemma_encode_concat(a: Seq<char>, b: Seq<char>)
    ensures
        encode_utf8(a + b) == encode_utf8(a) + encode_utf8(b),
    decreases a.len(),
{
    if a.len() == 0 {
        assert(a + b =~= b);
        assert(encode_utf8(a) + encode_utf8(b) =~= encode_utf8(b));
    } else {
        lemma_encode_concat(a.drop_first(), b);
        assert((a + b).drop_first() =~= a.drop_first() + b);
        assert((a + b)[0] == a[0]);
        let first = encode_scalar(a[0] as u32);
        assert(encode_utf8(a + b) =~= first + (encode_utf8(a.drop_first()) + encode_utf8(b)));
        assert(encode_utf8(a + b) =~= encode_utf8(a) + encode_utf8(b));
    }
}

// ---------------------------------------------------------------------------------------------
// Laws of splitting
// ---------------------------------------------------------------------------------------------
/// The parts of `s` between separators.
pub open spec fn parts<T>(s: Seq<T>, sep: T) -> Seq<Seq<T>> {
    pieces(s, sep).map_values(|q: (int, int)| span(s, q))
}

/// The lines of `s`, without their endings.
pub open spec fn line_texts<T>(s: Seq<T>, newline: T, cr: T) -> Seq<Seq<T>> {
    line_spans(s, newline, cr).map_values(|q: (int, int)| span(s, q))
}

/// Spans that are moved on by `n`.
pub open spec fn moved(ps: Seq<(int, int)>, n: int) -> Seq<(int, int)> {
    ps.map_values(|q: (int, int)| (q.0 + n, q.1 + n))
}

/// The spans behind a beginning are those of the rest, moved on.
pub proof fn lemma_pieces_moved<T>(a: Seq<T>, b: Seq<T>, sep: T, start: int, i: int)
    requires
        0 <= start <= i <= b.len(),
    ensures
        pieces_from(a + b, sep, a.len() + start, a.len() + i) == moved(
            pieces_from(b, sep, start, i),
            a.len() as int,
        ),
    decreases b.len() - i,
{
    let n = a.len() as int;
    if i < b.len() {
        assert((a + b)[n + i] == b[i]);
        if b[i] == sep {
            lemma_pieces_moved(a, b, sep, i + 1, i + 1);
            assert(moved(seq![(start, i)] + pieces_from(b, sep, i + 1, i + 1), n) =~= seq![
                (n + start, n + i),
            ] + moved(pieces_from(b, sep, i + 1, i + 1), n));
        } else {
            lemma_pieces_moved(a, b, sep, start, i + 1);
        }
    } else {
        assert(moved(pieces_from(b, sep, start, i), n) =~= seq![(n + start, n + b.len())]);
    }
}

/// The spans of two texts with a separator between them are those of the first and, moved on, those
/// of the second.
pub proof fn lemma_pieces_of_two<T>(a: Seq<T>, sep: T, b: Seq<T>)
    ensures
        pieces(a.push(sep) + b, sep) == pieces(a, sep) + moved(pieces(b, sep), a.len() as int + 1),
{
    let s = a.push(sep) + b;
    lemma_pieces_of_part(s, sep, a.len() as int, 0, 0);
    assert(s.take(a.len() as int) =~= a);
    lemma_pieces_moved(a.push(sep), b, sep, 0, 0);
}

/// Splitting goes separator by separator: the parts of two texts with a separator between them are
/// the parts of the one and then those of the other, and a text without separators is one part.
pub proof fn splitting_goes_by_separators<T>(a: Seq<T>, sep: T, b: Seq<T>)
    ensures
        parts(a.push(sep) + b, sep) == parts(a, sep) + parts(b, sep),
        !a.contains(sep) ==> parts(a, sep) == seq![a],
{
    let s = a.push(sep) + b;
    let n = a.len() + 1;
    lemma_pieces_of_two(a, sep, b);
    lemma_pieces_bounds(a, sep, 0, 0);
    lemma_pieces_bounds(b, sep, 0, 0);
    let (pa, pb) = (pieces(a, sep), pieces(b, sep));
    assert forall|k: int| 0 <= k < pa.len() + pb.len() implies #[trigger] parts(s, sep)[k] == (
    parts(a, sep) + parts(b, sep))[k] by {
        if k < pa.len() {
            assert(pieces(s, sep)[k] == pa[k]);
            assert(span(s, pa[k]) =~= span(a, pa[k]));
        } else {
            let q = pb[k - pa.len()];
            assert(pieces(s, sep)[k] == (q.0 + n, q.1 + n));
            assert(span(s, (q.0 + n, q.1 + n)) =~= span(b, q));
        }
    }
    assert(parts(s, sep) =~= parts(a, sep) + parts(b, sep));
    if !a.contains(sep) {
        assert forall|j: int| 0 <= j < a.len() implies #[trigger] a[j] != sep by {
            assert(a.contains(a[j]));
        }
        lemma_last_piece(a, sep, 0, 0);
        assert(span(a, (0, a.len() as int)) =~= a);
        assert(parts(a, sep) =~= seq![a]);
    }
}

/// Lines come one after another: those of a text that ends with a newline, and then those of what
/// follows it.
pub proof fn lines_come_one_after_another<T>(a: Seq<T>, b: Seq<T>, newline: T, cr: T)
    ensures
        line_texts(a.push(newline) + b, newline, cr) == line_texts(a.push(newline), newline, cr)
            + line_texts(b, newline, cr),
{
    let head = a.push(newline);
    let s = head + b;
    let n = head.len() as int;
    let none = Seq::<T>::empty();
    lemma_pieces_of_two(a, newline, b);
    lemma_pieces_of_two(a, newline, none);
    assert(head + none =~= head);
    lemma_pieces_bounds(a, newline, 0, 0);
    lemma_pieces_bounds(b, newline, 0, 0);
    let (pa, pb) = (pieces(a, newline), pieces(b, newline));
    assert(pieces(none, newline) =~= seq![(0int, 0int)]);
    let (ls, lh, lb) = (
        line_spans(s, newline, cr),
        line_spans(head, newline, cr),
        line_spans(b, newline, cr),
    );
    assert(pieces(head, newline).len() == pa.len() + 1);
    assert(pieces(head, newline)[pa.len() as int] == (n, n));
    assert(lh.len() == pa.len());
    assert(pieces(s, newline).len() == pa.len() + pb.len());
    assert(pieces(s, newline).last() == (pb.last().0 + n, pb.last().1 + n));
    assert(ls.len() == lh.len() + lb.len());
    assert forall|k: int| 0 <= k < ls.len() implies #[trigger] line_texts(s, newline, cr)[k] == (
    line_texts(head, newline, cr) + line_texts(b, newline, cr))[k] by {
        if k < pa.len() {
            assert(pieces(s, newline)[k] == pa[k]);
            assert(pieces(head, newline)[k] == pa[k]);
            assert(ls[k] == lh[k]);
            assert(span(s, lh[k]) =~= span(head, lh[k]));
        } else {
            let j = k - pa.len();
            let q = pb[j];
            assert(pieces(s, newline)[k] == (q.0 + n, q.1 + n));
            assert(q.0 < q.1 ==> s[q.1 + n - 1] == b[q.1 - 1]);
            assert(ls[k] == (lb[j].0 + n, lb[j].1 + n));
            assert(span(s, ls[k]) =~= span(b, lb[j]));
        }
    }
    assert(line_texts(s, newline, cr) =~= line_texts(head, newline, cr) + line_texts(
        b,
        newline,
        cr,
    ));
}

/// A line ends at its newline, and a carriage return right before that belongs to the ending. At
/// the end of a text a line may do without; nothing is no line.
pub proof fn a_line_ends_at_its_newline<T>(line: Seq<T>, newline: T, cr: T)
    requires
        !line.contains(newline),
        newline != cr,
    ensures
        line.len() > 0 ==> line_texts(line, newline, cr) == seq![line],
        line_texts(line.push(cr).push(newline), newline, cr) == seq![line],
        line.len() == 0 || line.last() != cr ==> line_texts(line.push(newline), newline, cr)
            == seq![line],
        line_texts(Seq::<T>::empty(), newline, cr) == Seq::<Seq<T>>::empty(),
{
    let none = Seq::<T>::empty();
    assert forall|j: int| 0 <= j < line.len() implies #[trigger] line[j] != newline by {
        assert(line.contains(line[j]));
    }
    lemma_last_piece(line, newline, 0, 0);
    lemma_last_piece(none, newline, 0, 0);
    let longer = line.push(cr);
    lemma_last_piece(longer, newline, 0, 0);
    lemma_pieces_of_two(line, newline, none);
    lemma_pieces_of_two(longer, newline, none);
    assert(line.push(newline) + none =~= line.push(newline));
    assert(longer.push(newline) + none =~= longer.push(newline));
    let n = line.len() as int;
    assert(span(line, (0, n)) =~= line);
    assert(line_texts(none, newline, cr) =~= Seq::<Seq<T>>::empty());
    if n > 0 {
        assert(line_texts(line, newline, cr) =~= seq![line]);
    }
    let ended = longer.push(newline);
    assert(pieces(ended, newline) =~= seq![(0int, n + 1), (n + 2, n + 2)]);
    assert(line_spans(ended, newline, cr) =~= seq![(0int, n)]);
    assert(span(ended, (0, n)) =~= line);
    assert(line_texts(ended, newline, cr) =~= seq![line]);
    let plain = line.push(newline);
    assert(pieces(plain, newline) =~= seq![(0int, n), (n + 1, n + 1)]);
    assert(span(plain, (0, n)) =~= line);
    if n == 0 || line.last() != cr {
        assert(line_spans(plain, newline, cr) =~= seq![(0int, n)]);
        assert(line_texts(plain, newline, cr) =~= seq![line]);
    }
}

// ---------------------------------------------------------------------------------------------
// Laws of cutting and trimming
// ---------------------------------------------------------------------------------------------
/// Whether a colon and a space stand at `i`.
pub open spec fn colon_at(s: Seq<char>, i: int) -> bool {
    0 <= i && i + 1 < s.len() && s[i] == ':' && s[i + 1] == ' '
}

proof fn lemma_colon_from(s: Seq<char>, i: int)
    requires
        0 <= i,
    ensures
        match colon_from(s, i) {
            Some(k) => i <= k && colon_at(s, k) && forall|j: int| i <= j < k ==> !#[trigger] colon_at(s, j),
            None => forall|j: int| i <= j ==> !#[trigger] colon_at(s, j),
        },
    decreases s.len() - i,
{
    if i + 1 < s.len() && !colon_at(s, i) {
        lemma_colon_from(s, i + 1);
    }
}

/// Where a colon with a space behind it is found, one stands there, and none before.
pub proof fn lemma_colon_found(s: Seq<char>)
    ensures
        match colon_from(s, 0) {
            Some(k) => 0 <= k && colon_at(s, k) && forall|j: int| 0 <= j < k ==> !#[trigger] colon_at(s, j),
            None => forall|j: int| 0 <= j ==> !#[trigger] colon_at(s, j),
        },
{
    lemma_colon_from(s, 0);
}

/// A text is cut at its first colon with a space behind it: there where one is, and nowhere where
/// there is none.
pub proof fn a_text_is_cut_at_its_first_colon(key: Seq<char>, value: Seq<char>)
    ensures
        (forall|j: int| !#[trigger] colon_at(key, j)) ==> colon_from(
            key + seq![':', ' '] + value,
            0,
        ) == Some(key.len() as int),
        (forall|j: int| !#[trigger] colon_at(key, j)) <==> colon_from(key, 0) is None,
{
    let s = key + seq![':', ' '] + value;
    lemma_colon_from(s, 0);
    lemma_colon_from(key, 0);
    assert(colon_at(s, key.len() as int));
    if forall|j: int| !#[trigger] colon_at(key, j) {
        assert forall|j: int| 0 <= j < key.len() implies !#[trigger] colon_at(s, j) by {
            if j + 1 < key.len() {
                assert(!colon_at(key, j));
                assert(s[j] == key[j] && s[j + 1] == key[j + 1]);
            } else {
                assert(s[j + 1] == ':');
            }
        }
    }
}

/// Trimming takes off white space at the end, all of it, and nothing else.
pub proof fn trimming_takes_off_white_space_alone(s: Seq<char>, space: Seq<char>)
    requires
        forall|i: int| 0 <= i < space.len() ==> is_white_space(#[trigger] space[i]),
    ensures
        s.len() == 0 || !is_white_space(s.last()) ==> trimmed(s + space) == s,
    decreases space.len(),
{
    if space.len() == 0 {
        assert(s + space =~= s);
    } else {
        assert(is_white_space(space[space.len() - 1]));
        assert((s + space).drop_last() =~= s + space.drop_last());
        trimming_takes_off_white_space_alone(s, space.drop_last());
    }
}

// ---------------------------------------------------------------------------------------------
// Laws of numbers
// ---------------------------------------------------------------------------------------------
/// Decimal numbers have ten as their base, the lowest digit last: one digit more says ten times as
/// much and what the digit says.
pub proof fn decimal_numbers_go_by_tens(n: nat, d: nat)
    requires
        d < 10,
    ensures
        n > 0 ==> decimal(10 * n + d) == decimal(n) + decimal(d),
        decimal(d).len() == 1,
        '0' <= decimal(d)[0] <= '9',
        decimal(d)[0] as nat == '0' as nat + d,
        n > 0 ==> decimal(n)[0] != '0',
    decreases n,
{
    assert((10 * n + d) / 10 == n);
    assert((10 * n + d) % 10 == d);
    if n > 0 {
        assert(decimal(10 * n + d) =~= decimal(n) + decimal(d));
        if n >= 10 {
            decimal_numbers_go_by_tens(n / 10, n % 10);
        }
    }
}

/// So many zeros.
pub open spec fn nothing_but_zeros(zeros: nat) -> Seq<char> {
    Seq::new(zeros, |i: int| '0')
}

/// A number with zeros before it, and perhaps a plus sign before those.
pub open spec fn written_out(plus: bool, zeros: nat, n: nat) -> Seq<char> {
    (if plus {
        seq!['+']
    } else {
        Seq::empty()
    }) + nothing_but_zeros(zeros) + decimal(n)
}

proof fn lemma_zeros_value(zeros: nat, n: nat)
    ensures
        ({
            let s = nothing_but_zeros(zeros) + decimal(n);
            &&& decimal_value(s) == n
            &&& s.len() > 0
            &&& forall|i: int| 0 <= i < s.len() ==> is_digit(#[trigger] s[i])
        }),
    decreases n, zeros,
{
    let front = nothing_but_zeros(zeros);
    let s = front + decimal(n);
    if n >= 10 {
        lemma_zeros_value(zeros, n / 10);
        decimal_numbers_go_by_tens(n / 10, n % 10);
        let shorter = front + decimal(n / 10);
        assert(s =~= shorter.push(digit_char(n % 10)));
        assert(s.drop_last() =~= shorter);
        assert forall|i: int| 0 <= i < s.len() implies is_digit(#[trigger] s[i]) by {
            if i < shorter.len() {
                assert(is_digit(shorter[i]));
            }
        }
    } else {
        assert(s.last() == digit_char(n));
        assert(s.drop_last() =~= front);
        lemma_zeros_are_nothing(zeros);
    }
}

proof fn lemma_zeros_are_nothing(zeros: nat)
    ensures
        decimal_value(nothing_but_zeros(zeros)) == 0,
    decreases zeros,
{
    if zeros > 0 {
        let s = nothing_but_zeros(zeros);
        assert(s.drop_last() =~= nothing_but_zeros((zeros - 1) as nat));
        lemma_zeros_are_nothing((zeros - 1) as nat);
    }
}

proof fn lemma_digits_written_out(s: Seq<char>)
    requires
        s.len() > 0,
        forall|i: int| 0 <= i < s.len() ==> is_digit(#[trigger] s[i]),
    ensures
        exists|zeros: nat| s == #[trigger] written_out(false, zeros, decimal_value(s)),
    decreases s.len(),
{
    let n = decimal_value(s);
    let c = s.last();
    let rest = s.drop_last();
    assert(is_digit(s[s.len() - 1]));
    let d = (c as nat - '0' as nat) as nat;
    if rest.len() == 0 {
        assert(decimal_value(rest) == 0);
        decimal_numbers_go_by_tens(0, d);
        assert(s =~= written_out(false, 0, n)) by {
            assert(decimal(n) =~= seq![c]) by {
                assert(decimal(n)[0] as nat == c as nat);
            }
        }
    } else {
        assert forall|i: int| 0 <= i < rest.len() implies is_digit(#[trigger] rest[i]) by {
            assert(is_digit(s[i]));
        }
        lemma_digits_written_out(rest);
        let m = decimal_value(rest);
        let zeros = choose|zeros: nat| rest == #[trigger] written_out(false, zeros, m);
        assert(n == 10 * m + d);
        decimal_numbers_go_by_tens(m, d);
        assert(s =~= rest.push(c));
        assert(decimal(d) =~= seq![c]) by {
            assert(decimal(d)[0] as nat == c as nat);
        }
        if m > 0 {
            assert(s =~= written_out(false, zeros, n));
        } else {
            decimal_numbers_go_by_tens(0, 0);
            assert(decimal(0) =~= seq!['0']) by {
                assert(decimal(0)[0] as nat == '0' as nat);
            }
            assert(s =~= written_out(false, zeros + 1, n));
        }
    }
}

/// A number is read from its decimal digits, with any number of zeros and perhaps a plus sign
/// before them, as long as it fits; and from nothing else.
pub proof fn a_number_is_read_as_it_is_written(s: Seq<char>, n: u64)
    ensures
        parsed_u64(s) == Some(n) <==> exists|plus: bool, zeros: nat|
            s == #[trigger] written_out(plus, zeros, n as nat),
{
    if exists|plus: bool, zeros: nat| s == #[trigger] written_out(plus, zeros, n as nat) {
        let (plus, zeros) = choose|plus: bool, zeros: nat|
            s == #[trigger] written_out(plus, zeros, n as nat);
        let digits = nothing_but_zeros(zeros) + decimal(n as nat);
        lemma_zeros_value(zeros, n as nat);
        assert(is_digit(digits[0]));
        if plus {
            assert(s.skip(1) =~= digits);
        } else {
            assert(s =~= digits);
        }
        assert(unsigned_digits(s) == digits);
    }
    if parsed_u64(s) == Some(n) {
        let digits = unsigned_digits(s);
        lemma_digits_written_out(digits);
        let zeros = choose|zeros: nat| digits == #[trigger] written_out(false, zeros, n as nat);
        if s[0] == '+' {
            assert(digits =~= nothing_but_zeros(zeros) + decimal(n as nat));
            assert(s =~= seq!['+'] + digits);
            assert(s =~= written_out(true, zeros, n as nat));
        }
    }
}

/// Hexadecimal numbers of a fixed width go by sixteens, the lowest digit last, and tell apart all
/// numbers that fit.
pub proof fn hexadecimal_numbers_go_by_sixteens(n: nat, d: nat, width: nat)
    requires
        d < 16,
    ensures
        hexadecimal(16 * n + d, width + 1).len() == width + 1,
        hexadecimal(16 * n + d, width + 1).drop_last() == hexadecimal(n, width),
        d < 10 ==> hexadecimal(16 * n + d, width + 1).last() as nat == '0' as nat + d,
        d >= 10 ==> hexadecimal(16 * n + d, width + 1).last() as nat == 'a' as nat + (d - 10),
        hexadecimal(n, 0).len() == 0,
{
    assert((16 * n + d) / 16 == n);
    assert((16 * n + d) % 16 == d);
    lemma_hexadecimal_is_plain(16 * n + d, width + 1);
    assert(hexadecimal(16 * n + d, width + 1).drop_last() =~= hexadecimal(n, width));
}

/// A number of two digits is written in two, the tens first.
pub proof fn two_digits_are_written_in_two(n: nat)
    requires
        n < 100,
    ensures
        n >= 10 ==> padded_decimal(n, 2) == decimal(n),
        n < 10 ==> padded_decimal(n, 2) == seq!['0'] + decimal(n),
{
    reveal_with_fuel(padded_decimal, 3);
    reveal_with_fuel(decimal, 3);
    if n >= 10 {
        assert((n / 10) % 10 == n / 10);
        assert(padded_decimal(n, 2) =~= decimal(n));
    } else {
        assert(n / 10 == 0);
        assert(padded_decimal(n, 2) =~= seq!['0'] + decimal(n));
    }
}

/// Lists are taken as they are: every text and every span of them, in order.
pub proof fn lists_are_taken_whole(v: Seq<String>, w: Seq<(usize, usize)>, k: int)
    ensures
        texts(v).len() == v.len(),
        0 <= k < v.len() ==> texts(v)[k] == v[k]@,
        spans(w).len() == w.len(),
        0 <= k < w.len() ==> spans(w)[k] == (w[k].0 as int, w[k].1 as int),
{
}

/// Lists that agree, item by item, on what is kept and on what it is mapped to, come to the same.
pub proof fn lemma_same_kept<A, B, C>(
    xs: Seq<A>,
    ys: Seq<B>,
    keep_x: spec_fn(A) -> bool,
    keep_y: spec_fn(B) -> bool,
    map_x: spec_fn(A) -> C,
    map_y: spec_fn(B) -> C,
)
    requires
        xs.len() == ys.len(),
        forall|k: int|
            0 <= k < xs.len() ==> keep_x(#[trigger] xs[k]) == keep_y(ys[k]) && (keep_x(xs[k])
                ==> map_x(xs[k]) == map_y(ys[k])),
    ensures
        xs.filter(keep_x).map_values(map_x) == ys.filter(keep_y).map_values(map_y),
    decreases xs.len(),
{
    reveal(Seq::filter);
    if xs.len() > 0 {
        let (a, b) = (xs.drop_last(), ys.drop_last());
        assert forall|k: int| 0 <= k < a.len() implies keep_x(#[trigger] a[k]) == keep_y(b[k]) && (
        keep_x(a[k]) ==> map_x(a[k]) == map_y(b[k])) by {
            assert(a[k] == xs[k] && b[k] == ys[k]);
        }
        lemma_same_kept(a, b, keep_x, keep_y, map_x, map_y);
        let last = xs.len() - 1;
        assert(keep_x(xs[last]) == keep_y(ys[last]));
        let (fa, fb) = (a.filter(keep_x), b.filter(keep_y));
        if keep_x(xs.last()) {
            assert(xs.filter(keep_x) =~= fa.push(xs.last()));
            assert(ys.filter(keep_y) =~= fb.push(ys.last()));
            assert(fa.push(xs.last()).map_values(map_x) =~= fa.map_values(map_x).push(
                map_x(xs.last()),
            ));
            assert(fb.push(ys.last()).map_values(map_y) =~= fb.map_values(map_y).push(
                map_y(ys.last()),
            ));
        }
    } else {
        assert(xs.filter(keep_x).map_values(map_x) =~= ys.filter(keep_y).map_values(map_y));
    }
}

/// What is kept of two lists, one after the other, is mapped one after the other.
pub proof fn lemma_kept_of_two<A, C>(
    a: Seq<A>,
    b: Seq<A>,
    keep: spec_fn(A) -> bool,
    map: spec_fn(A) -> C,
)
    ensures
        (a + b).filter(keep).map_values(map) == a.filter(keep).map_values(map) + b.filter(
            keep,
        ).map_values(map),
{
    Seq::filter_distributes_over_add(a, b, keep);
    assert((a.filter(keep) + b.filter(keep)).map_values(map) =~= a.filter(keep).map_values(map)
        + b.filter(keep).map_values(map));
}

/// A decimal number has the value that it is written for, so that it can be told from any other.
pub proof fn decimal_numbers_can_be_told_apart(m: nat, n: nat)
    ensures
        decimal_value(decimal(n)) == n,
        decimal(m) == decimal(n) ==> m == n,
{
    lemma_zeros_value(0, n);
    lemma_zeros_value(0, m);
    assert(nothing_but_zeros(0) + decimal(n) =~= decimal(n));
    assert(nothing_but_zeros(0) + decimal(m) =~= decimal(m));
}

/// How many numbers so many hexadecimal digits can say.
pub open spec fn sixteens(width: nat) -> nat
    decreases width,
{
    if width == 0 {
        1
    } else {
        16 * sixteens((width - 1) as nat)
    }
}

/// Hexadecimal numbers that fit into their width can be told apart.
pub proof fn hexadecimal_numbers_can_be_told_apart(m: nat, n: nat, width: nat)
    requires
        m < sixteens(width),
        n < sixteens(width),
        hexadecimal(m, width) == hexadecimal(n, width),
    ensures
        m == n,
    decreases width,
{
    if width > 0 {
        let w = (width - 1) as nat;
        hexadecimal_numbers_go_by_sixteens(m / 16, m % 16, w);
        hexadecimal_numbers_go_by_sixteens(n / 16, n % 16, w);
        assert(16 * (m / 16) + m % 16 == m);
        assert(16 * (n / 16) + n % 16 == n);
        hexadecimal_numbers_can_be_told_apart(m / 16, n / 16, w);
        assert(m % 16 == n % 16);
    }
}

/// Padded numbers go by tens too: each digit more is one character more, and no number is written
/// in more characters than it gets.
pub proof fn padded_numbers_go_by_tens(n: nat, d: nat, width: nat)
    requires
        d < 10,
    ensures
        padded_decimal(10 * n + d, width + 1) == padded_decimal(n, width) + decimal(d),
        padded_decimal(n, width).len() == width,
    decreases width,
{
    assert((10 * n + d) / 10 == n && (10 * n + d) % 10 == d);
    assert(padded_decimal(n, width).push(digit_char(d)) =~= padded_decimal(n, width) + decimal(d));
    if width > 0 {
        padded_numbers_go_by_tens(n / 10, d, (width - 1) as nat);
    }
}

/// A text that may be missing is that text where it is there.
pub proof fn a_text_that_may_be_missing_is_that_text(s: String)
    ensures
        opt_text(Some(s)) == Some(s@),
        opt_text(None) is None,
{
}

} // verus!
