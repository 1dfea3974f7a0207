//! Character-level reading of the tab-separated text that the classifier
//! writes: fields, surrounding white space, integers and decimal numbers.
use vstd::prelude::*;

verus! {

broadcast use vstd::std_specs::iter::group_iter_axioms;

/// Splits `s` at every `sep`, as `str::split` does with a `char` pattern:
/// `n` separators give `n + 1` fields, and an empty text gives one empty field.
pub open spec fn split_on(s: Seq<char>, sep: char) -> Seq<Seq<char>>
    decreases s.len(),
{
    if s.len() == 0 {
        seq![Seq::empty()]
    } else {
        let before = split_on(s.drop_last(), sep);
        if s.last() == sep {
            before.push(Seq::empty())
        } else {
            before.update(before.len() - 1, before.last().push(s.last()))
        }
    }
}

/// The characters that `char::is_whitespace` accepts (Unicode `White_Space`).
pub open spec fn is_white_space(c: char) -> bool {
    let u = c as u32;
    ||| 0x09 <= u <= 0x0d
    ||| u == 0x20
    ||| u == 0x85
    ||| u == 0xa0
    ||| u == 0x1680
    ||| 0x2000 <= u <= 0x200a
    ||| u == 0x2028
    ||| u == 0x2029
    ||| u == 0x202f
    ||| u == 0x205f
    ||| u == 0x3000
}

/// `s` without its leading white space.
pub open spec fn trim_front(s: Seq<char>) -> Seq<char>
    decreases s.len(),
{
    if s.len() > 0 && is_white_space(s[0]) {
        trim_front(s.drop_first())
    } else {
        s
    }
}

/// `s` without its trailing white space.
pub open spec fn trim_back(s: Seq<char>) -> Seq<char>
    decreases s.len(),
{
    if s.len() > 0 && is_white_space(s.last()) {
        trim_back(s.drop_last())
    } else {
        s
    }
}

/// `s` without white space at either end, as `str::trim` gives it.
pub open spec fn trim(s: Seq<char>) -> Seq<char> {
    trim_back(trim_front(s))
}

pub open spec fn is_digit(c: char) -> bool {
    '0' as u32 <= c as u32 <= '9' as u32
}

pub open spec fn digit_value(c: char) -> int {
    c as u32 - '0' as u32
}

pub open spec fn all_digits(s: Seq<char>) -> bool {
    forall|i: int| 0 <= i < s.len() ==> is_digit(#[trigger] s[i])
}

/// The value of a run of decimal digits, most significant first.
pub open spec fn digits_value(s: Seq<char>) -> int
    decreases s.len(),
{
    if s.len() == 0 {
        0
    } else {
        10 * digits_value(s.drop_last()) + digit_value(s.last())
    }
}

pub open spec fn is_sign(c: char) -> bool {
    c == '+' || c == '-'
}

/// The integer that `s` spells: an optional sign and at least one decimal digit,
/// nothing else.
pub open spec fn integer_text(s: Seq<char>) -> Option<int> {
    if s.len() > 0 && is_sign(s[0]) {
        let d = s.drop_first();
        if d.len() > 0 && all_digits(d) {
            Some(if s[0] == '-' { -digits_value(d) } else { digits_value(d) })
        } else {
            None
        }
    } else if s.len() > 0 && all_digits(s) {
        Some(digits_value(s))
    } else {
        None
    }
}

/// What `str::parse::<i32>` accepts and returns: an integer text whose value fits.
pub open spec fn i32_text(s: Seq<char>) -> Option<i32> {
    match integer_text(s) {
        Some(v) => if i32::MIN <= v <= i32::MAX {
            Some(v as i32)
        } else {
            None
        },
        None => None,
    }
}

/// Number of leading decimal digits of `s`.
pub open spec fn lead_digits(s: Seq<char>) -> nat
    decreases s.len(),
{
    if s.len() > 0 && is_digit(s[0]) {
        1 + lead_digits(s.drop_first())
    } else {
        0
    }
}

/// `s` spells the case-insensitive form of the lower-case ASCII `word`.
pub open spec fn is_word(s: Seq<char>, word: Seq<char>) -> bool {
    &&& s.len() == word.len()
    &&& forall|i: int|
        0 <= i < s.len() ==> (#[trigger] s[i] == word[i] || s[i] as u32 + 32 == word[i] as u32)
}

/// An exponent: an optional sign and at least one digit.
pub open spec fn is_exponent(x: Seq<char>) -> bool {
    let y = if x.len() > 0 && is_sign(x[0]) {
        x.drop_first()
    } else {
        x
    };
    y.len() > 0 && lead_digits(y) == y.len()
}

/// Digits, an optional `.` and more digits (at least one digit in all), then an
/// optional exponent introduced by `e` or `E`.
pub open spec fn is_decimal(s: Seq<char>) -> bool {
    let a = lead_digits(s);
    let r1 = s.skip(a as int);
    let has_point = r1.len() > 0 && r1[0] == '.';
    let f = if has_point {
        lead_digits(r1.drop_first())
    } else {
        0
    };
    let r2 = if has_point {
        r1.drop_first().skip(f as int)
    } else {
        r1
    };
    &&& a + f > 0
    &&& r2.len() == 0 || ((r2[0] == 'e' || r2[0] == 'E') && is_exponent(r2.drop_first()))
}

/// What `str::parse::<f32>` accepts: an optional sign, then `inf`, `infinity`
/// or `nan` in any case, or a decimal number.
pub open spec fn is_float_text(s: Seq<char>) -> bool {
    let body = if s.len() > 0 && is_sign(s[0]) {
        s.drop_first()
    } else {
        s
    };
    ||| is_word(body, seq!['i', 'n', 'f'])
    ||| is_word(body, seq!['i', 'n', 'f', 'i', 'n', 'i', 't', 'y'])
    ||| is_word(body, seq!['n', 'a', 'n'])
    ||| is_decimal(body)
}

/// The characters of `s`, in order.
pub fn chars_of(s: &str) -> (r: Vec<char>)
    ensures
        r@ == s@,
{
    let mut out: Vec<char> = Vec::new();
    for c in it: s.chars()
        invariant
            it.seq() == s@,
            out@ == it.seq().take(it.index() as int),
    {
        proof {
            assert(it.seq().take(it.index() + 1) == it.seq().take(it.index() as int).push(c));
        }
        out.push(c);
    }
    proof {
        assert(out@ == s@.take(s@.len() as int));
    }
    out
}

pub fn is_white(c: char) -> (r: bool)
    ensures
        r == is_white_space(c),
{
    let u = c as u32;
    (0x09 <= u && u <= 0x0d) || u == 0x20 || u == 0x85 || u == 0xa0 || u == 0x1680 || (0x2000
        <= u && u <= 0x200a) || u == 0x2028 || u == 0x2029 || u == 0x202f || u == 0x205f || u
        == 0x3000
}

proof fn lemma_trim_front(s: Seq<char>, i: int)
    requires
        0 <= i <= s.len(),
        forall|k: int| 0 <= k < i ==> is_white_space(#[trigger] s[k]),
        i == s.len() || !is_white_space(s[i]),
    ensures
        trim_front(s) == s.skip(i),
    decreases i,
{
    if i > 0 {
        lemma_trim_front(s.drop_first(), i - 1);
        assert(s.drop_first().skip(i - 1) == s.skip(i));
    } else {
        assert(s.skip(0) == s);
    }
}

proof fn lemma_trim_back(s: Seq<char>, j: int)
    requires
        0 <= j <= s.len(),
        forall|k: int| j <= k < s.len() ==> is_white_space(#[trigger] s[k]),
        j == 0 || !is_white_space(s[j - 1]),
    ensures
        trim_back(s) == s.take(j),
    decreases s.len() - j,
{
    if j < s.len() {
        lemma_trim_back(s.drop_last(), j);
        assert(s.drop_last().take(j) == s.take(j));
    } else {
        assert(s.take(j) == s);
    }
}

/// Bounds of the text `cs` without white space at either end.
pub fn trim_bounds(cs: &Vec<char>) -> (r: (usize, usize))
    ensures
        r.0 <= r.1 <= cs@.len(),
        cs@.subrange(r.0 as int, r.1 as int) == trim(cs@),
{
    let mut lo: usize = 0;
    while lo < cs.len() && is_white(cs[lo])
        invariant
            lo <= cs@.len(),
            forall|k: int| 0 <= k < lo ==> is_white_space(#[trigger] cs@[k]),
        decreases cs@.len() - lo,
    {
        lo = lo + 1;
    }
    let mut hi: usize = cs.len();
    while hi > lo && is_white(cs[hi - 1])
        invariant
            lo <= hi <= cs@.len(),
            forall|k: int| hi <= k < cs@.len() ==> is_white_space(#[trigger] cs@[k]),
        decreases hi,
    {
        hi = hi - 1;
    }
    proof {
        let s = cs@;
        lemma_trim_front(s, lo as int);
        let t = s.skip(lo as int);
        assert forall|k: int| hi - lo <= k < t.len() implies is_white_space(#[trigger] t[k]) by {
            assert(t[k] == s[k + lo]);
        }
        lemma_trim_back(t, hi - lo);
        assert(t.take(hi - lo) == s.subrange(lo as int, hi as int));
    }
    (lo, hi)
}

proof fn lemma_digits_value_nonneg(d: Seq<char>)
    requires
        all_digits(d),
    ensures
        digits_value(d) >= 0,
    decreases d.len(),
{
    if d.len() > 0 {
        lemma_digits_value_nonneg(d.drop_last());
    }
}

proof fn lemma_digits_value_prefix(d: Seq<char>, k: int)
    requires
        all_digits(d),
        0 <= k <= d.len(),
    ensures
        digits_value(d.take(k)) <= digits_value(d),
    decreases d.len(),
{
    if k < d.len() {
        lemma_digits_value_prefix(d.drop_last(), k);
        lemma_digits_value_nonneg(d.drop_last());
        assert(d.drop_last().take(k) == d.take(k));
    } else {
        assert(d.take(k) == d);
    }
}

/// Reads `cs[lo..hi]` as `str::parse::<i32>` reads a text.
pub fn parse_i32(cs: &Vec<char>, lo: usize, hi: usize) -> (r: Option<i32>)
    requires
        lo <= hi <= cs@.len(),
    ensures
        r == i32_text(cs@.subrange(lo as int, hi as int)),
{
    let ghost s = cs@.subrange(lo as int, hi as int);
    if lo == hi {
        return None;
    }
    let signed = cs[lo] == '+' || cs[lo] == '-';
    let negative = cs[lo] == '-';
    assert(s[0] == cs@[lo as int]);
    let start: usize = if signed {
        lo + 1
    } else {
        lo
    };
    if start == hi {
        return None;
    }
    let ghost d = cs@.subrange(start as int, hi as int);
    proof {
        if signed {
            assert(s.drop_first() == d);
        } else {
            assert(s == d);
        }
    }
    let mut acc: i64 = 0;
    let mut i: usize = start;
    while i < hi
        invariant
            start <= i <= hi <= cs@.len(),
            d == cs@.subrange(start as int, hi as int),
            s == cs@.subrange(lo as int, hi as int),
            s.len() > 0,
            signed == is_sign(s[0]),
            negative == (s[0] == '-'),
            signed ==> s.drop_first() == d,
            !signed ==> s == d,
            all_digits(cs@.subrange(start as int, i as int)),
            acc == digits_value(cs@.subrange(start as int, i as int)),
            0 <= acc <= 0x8000_0000,
        decreases hi - i,
    {
        let c = cs[i];
        if !(0x30 <= c as u32 && c as u32 <= 0x39) {
            proof {
                assert(d[i - start] == c);
            }
            return None;
        }
        let ghost prev = cs@.subrange(start as int, i as int);
        let ghost next = cs@.subrange(start as int, i + 1);
        proof {
            assert(next.drop_last() == prev);
            assert(next.last() == c);
        }
        acc = acc * 10 + (c as u32 - 0x30) as i64;
        i = i + 1;
        if acc > 0x8000_0000 {
            proof {
                assert(d.take(i - start) == next);
                assert forall|k: int| 0 <= k < next.len() implies is_digit(#[trigger] next[k]) by {
                    if k < prev.len() {
                        assert(next[k] == prev[k]);
                    }
                }
                if all_digits(d) {
                    lemma_digits_value_prefix(d, i - start);
                }
            }
            return None;
        }
    }
    proof {
        assert(cs@.subrange(start as int, i as int) == d);
    }
    if negative {
        Some((-acc) as i32)
    } else if acc <= 0x7fff_ffff {
        Some(acc as i32)
    } else {
        None
    }
}

proof fn lemma_lead_digits(s: Seq<char>, k: int)
    requires
        0 <= k <= s.len(),
        forall|j: int| 0 <= j < k ==> is_digit(#[trigger] s[j]),
        k == s.len() || !is_digit(s[k]),
    ensures
        lead_digits(s) == k,
    decreases k,
{
    if k > 0 {
        lemma_lead_digits(s.drop_first(), k - 1);
    }
}

pub fn is_digit_char(c: char) -> (r: bool)
    ensures
        r == is_digit(c),
{
    0x30 <= c as u32 && c as u32 <= 0x39
}

/// The end of the run of digits that starts at `i` in `cs[..hi]`.
fn digits_end(cs: &Vec<char>, i: usize, hi: usize) -> (r: usize)
    requires
        i <= hi <= cs@.len(),
    ensures
        i <= r <= hi,
        r - i == lead_digits(cs@.subrange(i as int, hi as int)),
{
    let mut j: usize = i;
    while j < hi && is_digit_char(cs[j])
        invariant
            i <= j <= hi <= cs@.len(),
            forall|k: int| i <= k < j ==> is_digit(#[trigger] cs@[k]),
        decreases hi - j,
    {
        j = j + 1;
    }
    proof {
        let s = cs@.subrange(i as int, hi as int);
        assert forall|k: int| 0 <= k < j - i implies is_digit(#[trigger] s[k]) by {
            assert(s[k] == cs@[k + i]);
        }
        lemma_lead_digits(s, j - i);
    }
    j
}

/// Whether `cs[lo..hi]` spells `word` in any case.
fn is_word_at(cs: &Vec<char>, lo: usize, hi: usize, word: &Vec<char>) -> (r: bool)
    requires
        lo <= hi <= cs@.len(),
    ensures
        r == is_word(cs@.subrange(lo as int, hi as int), word@),
{
    let ghost s = cs@.subrange(lo as int, hi as int);
    if hi - lo != word.len() {
        return false;
    }
    let mut k: usize = 0;
    while k < word.len()
        invariant
            hi - lo == word@.len(),
            lo <= hi <= cs@.len(),
            s == cs@.subrange(lo as int, hi as int),
            k <= word@.len(),
            forall|j: int|
                0 <= j < k ==> (#[trigger] s[j] == word@[j] || s[j] as u32 + 32 == word@[j] as u32),
        decreases word@.len() - k,
    {
        let c = cs[lo + k];
        let w = word[k];
        assert(s[k as int] == c);
        if !(c == w || c as u32 as u64 + 32 == w as u32 as u64) {
            return false;
        }
        k = k + 1;
    }
    true
}

/// Whether `cs[b..hi]` is a decimal number, as `is_decimal` describes it.
fn is_decimal_at(cs: &Vec<char>, b: usize, hi: usize) -> (r: bool)
    requires
        b <= hi <= cs@.len(),
    ensures
        r == is_decimal(cs@.subrange(b as int, hi as int)),
{
    let ghost body = cs@.subrange(b as int, hi as int);
    let a_end = digits_end(cs, b, hi);
    let has_point = a_end < hi && cs[a_end] == '.';
    let f_end = if has_point {
        digits_end(cs, a_end + 1, hi)
    } else {
        a_end
    };
    proof {
        let a = lead_digits(body);
        let r1 = body.skip(a as int);
        assert(r1 == cs@.subrange(a_end as int, hi as int));
        if has_point {
            assert(r1.drop_first() == cs@.subrange(a_end + 1, hi as int));
            assert(r1.drop_first().skip(f_end - a_end - 1) == cs@.subrange(f_end as int, hi as int));
        }
    }
    let digits: usize = if has_point {
        (a_end - b) + (f_end - a_end - 1)
    } else {
        a_end - b
    };
    if digits == 0 {
        return false;
    }
    if f_end == hi {
        return true;
    }
    if !(cs[f_end] == 'e' || cs[f_end] == 'E') {
        return false;
    }
    let x_lo = f_end + 1;
    let y_lo: usize = if x_lo < hi && (cs[x_lo] == '+' || cs[x_lo] == '-') {
        x_lo + 1
    } else {
        x_lo
    };
    proof {
        let x = cs@.subrange(x_lo as int, hi as int);
        assert(cs@.subrange(f_end as int, hi as int).drop_first() == x);
        if x_lo < hi && is_sign(x[0]) {
            assert(x.drop_first() == cs@.subrange(y_lo as int, hi as int));
        } else {
            assert(x == cs@.subrange(y_lo as int, hi as int));
        }
    }
    y_lo < hi && digits_end(cs, y_lo, hi) == hi
}

/// Whether `cs[lo..hi]` is a text that `str::parse::<f32>` accepts.
pub fn is_float_chars(cs: &Vec<char>, lo: usize, hi: usize) -> (r: bool)
    requires
        lo <= hi <= cs@.len(),
    ensures
        r == is_float_text(cs@.subrange(lo as int, hi as int)),
{
    let ghost s = cs@.subrange(lo as int, hi as int);
    let b: usize = if lo < hi && (cs[lo] == '+' || cs[lo] == '-') {
        lo + 1
    } else {
        lo
    };
    let ghost body = cs@.subrange(b as int, hi as int);
    proof {
        if lo < hi && is_sign(s[0]) {
            assert(s.drop_first() == body);
        } else {
            assert(s == body);
        }
    }
    if is_word_at(cs, b, hi, &vec!['i', 'n', 'f']) || is_word_at(
        cs,
        b,
        hi,
        &vec!['i', 'n', 'f', 'i', 'n', 'i', 't', 'y'],
    ) || is_word_at(cs, b, hi, &vec!['n', 'a', 'n']) {
        return true;
    }
    is_decimal_at(cs, b, hi)
}

/// Relies on `str::split` with a `char` pattern: the pieces of `line` between
/// the separators, in order, as `split_on` describes them.
#[verifier::external_body]
pub(crate) fn split_fields<'a>(line: &'a str, sep: char) -> (r: Vec<&'a str>)
    ensures
        r@.len() == split_on(line@, sep).len(),
        forall|i: int| 0 <= i < r@.len() ==> (#[trigger] r@[i])@ == split_on(line@, sep)[i],
{
    line.split(sep).collect()
}

/// Reads `field`, trimmed, as `str::parse::<i32>` reads it.
pub fn field_i32(field: &str) -> (r: Option<i32>)
    ensures
        r == i32_text(trim(field@)),
{
    let cs = chars_of(field);
    let (lo, hi) = trim_bounds(&cs);
    parse_i32(&cs, lo, hi)
}

/// Whether `field`, trimmed, is a text that `str::parse::<f32>` accepts.
pub fn field_is_float(field: &str) -> (r: bool)
    ensures
        r == is_float_text(trim(field@)),
{
    let cs = chars_of(field);
    let (lo, hi) = trim_bounds(&cs);
    is_float_chars(&cs, lo, hi)
}

/// Number of spaces at the start of `s`.
pub open spec fn leading_spaces(s: Seq<char>) -> nat
    decreases s.len(),
{
    if s.len() > 0 && s[0] == ' ' {
        1 + leading_spaces(s.drop_first())
    } else {
        0
    }
}

proof fn lemma_leading_spaces(s: Seq<char>, k: int)
    requires
        0 <= k <= s.len(),
        forall|j: int| 0 <= j < k ==> #[trigger] s[j] == ' ',
        k == s.len() || s[k] != ' ',
    ensures
        leading_spaces(s) == k,
    decreases k,
{
    if k > 0 {
        lemma_leading_spaces(s.drop_first(), k - 1);
    }
}

/// Number of spaces at the start of `field`.
pub fn count_leading_spaces(field: &str) -> (r: usize)
    ensures
        r == leading_spaces(field@),
{
    let cs = chars_of(field);
    let mut k: usize = 0;
    while k < cs.len() && cs[k] == ' '
        invariant
            k <= cs@.len(),
            forall|j: int| 0 <= j < k ==> #[trigger] cs@[j] == ' ',
        decreases cs@.len() - k,
    {
        k = k + 1;
    }
    proof {
        lemma_leading_spaces(cs@, k as int);
    }
    k
}

} // verus!
