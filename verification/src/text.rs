//! Character-level helpers shared by the datafile reader and the display code.

use vstd::prelude::*;

verus! {

/// The characters of `s`, in order.
pub fn chars_of(s: &str) -> (out: Vec<char>)
    ensures
        out@ == s@,
{
    let mut out: Vec<char> = Vec::new();
    for c in it: s.chars()
        invariant
            out@ == it.seq().take(it.index() as int),
    {
        out.push(c);
    }
    out
}


/// The string made of the characters `cs[from..to]`.
///
/// Trusted: collects the characters into a `String` through std's
/// `FromIterator<&char> for String`, which appends each character in turn.
#[verifier::external_body]
pub(crate) fn string_from_chars(cs: &Vec<char>, from: usize, to: usize) -> (s: String)
    requires
        from <= to <= cs@.len(),
    ensures
        s@ == cs@.subrange(from as int, to as int),
{
    cs[from..to].iter().collect()
}

/// Whether `c` has the Unicode `White_Space` property, the set that
/// `char::is_whitespace` and `str::trim` go by: U+0009 to U+000D, U+0020,
/// U+0085, U+00A0, U+1680, U+2000 to U+200A, U+2028, U+2029, U+202F, U+205F
/// and U+3000.
pub open spec fn unicode_white_space(c: char) -> bool {
    let u = c as u32;
    ||| 0x09 <= u <= 0x0D
    ||| u == 0x20
    ||| u == 0x85
    ||| u == 0xA0
    ||| u == 0x1680
    ||| 0x2000 <= u <= 0x200A
    ||| u == 0x2028
    ||| u == 0x2029
    ||| u == 0x202F
    ||| u == 0x205F
    ||| u == 0x3000
}

/// Whether `c` is white space.
pub fn is_white_space(c: char) -> (b: bool)
    ensures
        b == unicode_white_space(c),
{
    let u = c as u32;
    (0x09 <= u && u <= 0x0D) || u == 0x20 || u == 0x85 || u == 0xA0 || u == 0x1680 || (0x2000
        <= u && u <= 0x200A) || u == 0x2028 || u == 0x2029 || u == 0x202F || u == 0x205F || u
        == 0x3000
}

/// Whether every character of `s` is white space (so `s.trim()` is empty).
pub open spec fn all_white_space(s: Seq<char>) -> bool {
    forall|i: int| 0 <= i < s.len() ==> unicode_white_space(#[trigger] s[i])
}

/// Whether `cs[from..to]` holds white space only.
pub fn is_blank(cs: &Vec<char>, from: usize, to: usize) -> (b: bool)
    requires
        from <= to <= cs@.len(),
    ensures
        b == all_white_space(cs@.subrange(from as int, to as int)),
{
    let mut i = from;
    while i < to
        invariant
            from <= i <= to <= cs@.len(),
            forall|j: int| from <= j < i ==> unicode_white_space(#[trigger] cs@[j]),
        decreases to - i,
    {
        if !is_white_space(cs[i]) {
            assert(cs@.subrange(from as int, to as int)[i - from] == cs@[i as int]);
            return false;
        }
        i += 1;
    }
    assert forall|k: int| 0 <= k < (to - from) implies unicode_white_space(
        #[trigger] cs@.subrange(from as int, to as int)[k],
    ) by {
        assert(cs@.subrange(from as int, to as int)[k] == cs@[from + k]);
    }
    true
}

/// Whether `c` is one of the ASCII digits `0` to `9`.
pub open spec fn is_digit(c: char) -> bool {
    '0' as u32 <= c as u32 <= '9' as u32
}

/// The value of the digit `c`.
pub open spec fn digit_value(c: char) -> nat {
    (c as u32 - '0' as u32) as nat
}

/// The number that the digits `s` write in base ten (most significant first).
pub open spec fn digits_value(s: Seq<char>) -> nat
    decreases s.len(),
{
    if s.len() == 0 {
        0
    } else {
        digits_value(s.drop_last()) * 10 + digit_value(s.last())
    }
}

/// Whether every character of `s` is an ASCII digit.
pub open spec fn all_digits(s: Seq<char>) -> bool {
    forall|i: int| 0 <= i < s.len() ==> is_digit(#[trigger] s[i])
}

/// What `s.parse::<u64>()` gives, as documented for `u64::from_str_radix`
/// in base ten: an optional `+` followed by one or more ASCII digits whose
/// value fits in a `u64`; anything else (empty text, a sign alone, a `-`,
/// other characters, an overflow) is an error.
pub open spec fn parse_u64_spec(s: Seq<char>) -> Option<u64> {
    let d = if s.len() > 0 && s[0] == '+' {
        s.skip(1)
    } else {
        s
    };
    if d.len() > 0 && all_digits(d) && digits_value(d) <= u64::MAX {
        Some(digits_value(d) as u64)
    } else {
        None
    }
}

/// Whether `c` is a sign, `+` or `-`.
pub open spec fn is_sign(c: char) -> bool {
    c == '+' || c == '-'
}

/// Whether `c` is the lowercase ASCII letter `lower` or its uppercase.
pub open spec fn eq_ignore_case(c: char, lower: char) -> bool {
    c == lower || c as u32 + 32 == lower as u32
}

/// Whether `s` spells the lowercase word `w`, ignoring ASCII case.
pub open spec fn is_word_ignore_case(s: Seq<char>, w: Seq<char>) -> bool {
    s.len() == w.len() && forall|i: int| 0 <= i < s.len() ==> eq_ignore_case(#[trigger] s[i], w[i])
}

/// How many ASCII digits `s` begins with.
pub open spec fn leading_digits(s: Seq<char>) -> nat
    decreases s.len(),
{
    if s.len() > 0 && is_digit(s[0]) {
        1 + leading_digits(s.drop_first())
    } else {
        0
    }
}

/// An exponent: `e` or `E`, an optional sign, one or more digits.
pub open spec fn is_exponent(r: Seq<char>) -> bool {
    r.len() > 0 && eq_ignore_case(r[0], 'e') && {
        let t = r.skip(1);
        let d = if t.len() > 0 && is_sign(t[0]) {
            t.skip(1)
        } else {
            t
        };
        d.len() > 0 && all_digits(d)
    }
}

/// A decimal number: digits, an optional `.` and more digits, at least one
/// digit in all, then an optional exponent.
pub open spec fn is_decimal_number(b: Seq<char>) -> bool {
    let i = leading_digits(b);
    let r = b.skip(i as int);
    if r.len() > 0 && r[0] == '.' {
        let f = leading_digits(r.skip(1));
        i + f > 0 && (r.len() == 1 + f || is_exponent(r.skip(1 + f as int)))
    } else {
        i > 0 && (r.len() == 0 || is_exponent(r))
    }
}

/// Whether `s.parse::<f64>()` succeeds, as documented for `f64::from_str`:
/// an optional sign, then `inf`, `infinity` or `nan` in any case, or a
/// decimal number with an optional exponent. Nothing else, white space
/// included, is accepted.
pub open spec fn is_float_text(s: Seq<char>) -> bool {
    let b = if s.len() > 0 && is_sign(s[0]) {
        s.skip(1)
    } else {
        s
    };
    ||| is_word_ignore_case(b, seq!['i', 'n', 'f'])
    ||| is_word_ignore_case(b, seq!['i', 'n', 'f', 'i', 'n', 'i', 't', 'y'])
    ||| is_word_ignore_case(b, seq!['n', 'a', 'n'])
    ||| is_decimal_number(b)
}

/// The leading digits are digits, and the character after them is not.
pub proof fn lemma_leading_digits(s: Seq<char>)
    ensures
        leading_digits(s) <= s.len(),
        forall|k: int| 0 <= k < leading_digits(s) ==> is_digit(#[trigger] s[k]),
        leading_digits(s) < s.len() ==> !is_digit(s[leading_digits(s) as int]),
        all_digits(s) <==> leading_digits(s) == s.len(),
    decreases s.len(),
{
    if s.len() > 0 && is_digit(s[0]) {
        let t = s.drop_first();
        lemma_leading_digits(t);
        assert forall|k: int| 0 <= k < leading_digits(s) implies is_digit(#[trigger] s[k]) by {
            if k > 0 {
                assert(s[k] == t[k - 1]);
            }
        }
        if leading_digits(s) < s.len() {
            assert(s[leading_digits(s) as int] == t[leading_digits(t) as int]);
        }
        if all_digits(s) {
            assert forall|k: int| 0 <= k < t.len() implies is_digit(#[trigger] t[k]) by {
                assert(t[k] == s[k + 1]);
            }
        }
    } else if s.len() > 0 {
        assert(!is_digit(s[0]));
    }
}

/// The end of the run of digits that starts at `from` in `cs[from..to]`.
fn digits_end(cs: &Vec<char>, from: usize, to: usize) -> (k: usize)
    requires
        from <= to <= cs@.len(),
    ensures
        from <= k <= to,
        k - from == leading_digits(cs@.subrange(from as int, to as int)),
{
    let mut k = from;
    while k < to && '0' as u32 <= cs[k] as u32 && cs[k] as u32 <= '9' as u32
        invariant
            from <= k <= to <= cs@.len(),
            leading_digits(cs@.subrange(from as int, to as int)) == (k - from) + leading_digits(
                cs@.subrange(k as int, to as int),
            ),
        decreases to - k,
    {
        assert(cs@.subrange(k as int, to as int).drop_first() =~= cs@.subrange(k + 1, to as int));
        k += 1;
    }
    k
}

/// Whether `c` is `lower` or its uppercase.
fn char_eq_ignore_case(c: char, lower: char) -> (b: bool)
    ensures
        b == eq_ignore_case(c, lower),
{
    c == lower || (c as u32) + 32 == lower as u32
}

/// Whether `cs[from..to]` spells the word `w`, ignoring ASCII case.
fn word_ignore_case_at(cs: &Vec<char>, from: usize, to: usize, w: &Vec<char>) -> (b: bool)
    requires
        from <= to <= cs@.len(),
    ensures
        b == is_word_ignore_case(cs@.subrange(from as int, to as int), w@),
{
    let ghost s = cs@.subrange(from as int, to as int);
    if to - from != w.len() {
        return false;
    }
    let mut i: usize = 0;
    while i < w.len()
        invariant
            from <= to <= cs@.len(),
            to - from == w@.len(),
            s == cs@.subrange(from as int, to as int),
            i <= w@.len(),
            forall|j: int| 0 <= j < i ==> eq_ignore_case(#[trigger] s[j], w@[j]),
        decreases w@.len() - i,
    {
        assert(s[i as int] == cs@[from + i]);
        if !char_eq_ignore_case(cs[from + i], w[i]) {
            return false;
        }
        i += 1;
    }
    true
}

/// Whether `cs[from..to]` is an exponent.
fn exponent_at(cs: &Vec<char>, from: usize, to: usize) -> (b: bool)
    requires
        from <= to <= cs@.len(),
    ensures
        b == is_exponent(cs@.subrange(from as int, to as int)),
{
    let ghost r = cs@.subrange(from as int, to as int);
    if from == to || !char_eq_ignore_case(cs[from], 'e') {
        return false;
    }
    let mut p = from + 1;
    assert(r.skip(1) =~= cs@.subrange(p as int, to as int));
    if p < to && (cs[p] == '+' || cs[p] == '-') {
        p += 1;
    }
    let ghost t = r.skip(1);
    let ghost d = if t.len() > 0 && is_sign(t[0]) {
        t.skip(1)
    } else {
        t
    };
    assert(d =~= cs@.subrange(p as int, to as int));
    let k = digits_end(cs, p, to);
    proof {
        lemma_leading_digits(d);
    }
    p < to && k == to
}

/// Whether `cs[from..to]` is a decimal number.
fn decimal_number_at(cs: &Vec<char>, from: usize, to: usize) -> (b: bool)
    requires
        from <= to <= cs@.len(),
    ensures
        b == is_decimal_number(cs@.subrange(from as int, to as int)),
{
    let ghost b = cs@.subrange(from as int, to as int);
    let i = digits_end(cs, from, to);
    proof {
        lemma_leading_digits(b);
    }
    let ghost r = b.skip(i - from);
    assert(r =~= cs@.subrange(i as int, to as int));
    if i < to && cs[i] == '.' {
        assert(r.skip(1) =~= cs@.subrange(i + 1, to as int));
        let f = digits_end(cs, i + 1, to);
        proof {
            lemma_leading_digits(r.skip(1));
        }
        assert(r.skip(1 + (f - i - 1)) =~= cs@.subrange(f as int, to as int));
        (i - from) + (f - i - 1) > 0 && (f == to || exponent_at(cs, f, to))
    } else {
        i > from && (i == to || exponent_at(cs, i, to))
    }
}

/// Whether `cs[from..to]` reads as an `f64`, as `str::parse::<f64>` reads.
pub fn is_float_chars(cs: &Vec<char>, from: usize, to: usize) -> (ok: bool)
    requires
        from <= to <= cs@.len(),
    ensures
        ok == is_float_text(cs@.subrange(from as int, to as int)),
{
    let ghost s = cs@.subrange(from as int, to as int);
    let mut start = from;
    if from < to && (cs[from] == '+' || cs[from] == '-') {
        start = from + 1;
    }
    assert(cs@.subrange(start as int, to as int) =~= if s.len() > 0 && is_sign(s[0]) {
        s.skip(1)
    } else {
        s
    });
    let inf = vec!['i', 'n', 'f'];
    let infinity = vec!['i', 'n', 'f', 'i', 'n', 'i', 't', 'y'];
    let nan = vec!['n', 'a', 'n'];
    assert(inf@ =~= seq!['i', 'n', 'f']);
    assert(infinity@ =~= seq!['i', 'n', 'f', 'i', 'n', 'i', 't', 'y']);
    assert(nan@ =~= seq!['n', 'a', 'n']);
    word_ignore_case_at(cs, start, to, &inf) || word_ignore_case_at(cs, start, to, &infinity)
        || word_ignore_case_at(cs, start, to, &nan) || decimal_number_at(cs, start, to)
}

proof fn lemma_word_has_no_pipe(b: Seq<char>, w: Seq<char>)
    requires
        is_word_ignore_case(b, w),
        forall|i: int| 0 <= i < w.len() ==> 'a' as u32 <= (#[trigger] w[i]) as u32 <= 'z' as u32,
    ensures
        forall|i: int| 0 <= i < b.len() ==> #[trigger] b[i] != '|',
{
    assert forall|i: int| 0 <= i < b.len() implies #[trigger] b[i] != '|' by {
        assert(eq_ignore_case(b[i], w[i]));
        assert('a' as u32 <= w[i] as u32 <= 'z' as u32);
    }
}

proof fn lemma_exponent_has_no_pipe(r: Seq<char>)
    requires
        is_exponent(r),
    ensures
        forall|k: int| 0 <= k < r.len() ==> #[trigger] r[k] != '|',
{
    let t = r.skip(1);
    let signed = t.len() > 0 && is_sign(t[0]);
    let d = if signed {
        t.skip(1)
    } else {
        t
    };
    assert forall|k: int| 0 <= k < r.len() implies #[trigger] r[k] != '|' by {
        if k == 0 {
            assert(eq_ignore_case(r[0], 'e'));
        } else if signed && k == 1 {
            assert(r[1] == t[0]);
        } else if signed {
            assert(r[k] == d[k - 2]);
            assert(is_digit(d[k - 2]));
        } else {
            assert(r[k] == d[k - 1]);
            assert(is_digit(d[k - 1]));
        }
    }
}

/// Text that reads as a number holds no `|`.
pub proof fn lemma_float_text_has_no_pipe(s: Seq<char>)
    requires
        is_float_text(s),
    ensures
        forall|k: int| 0 <= k < s.len() ==> #[trigger] s[k] != '|',
{
    let signed = s.len() > 0 && is_sign(s[0]);
    let b = if signed {
        s.skip(1)
    } else {
        s
    };
    let w1 = seq!['i', 'n', 'f'];
    let w2 = seq!['i', 'n', 'f', 'i', 'n', 'i', 't', 'y'];
    let w3 = seq!['n', 'a', 'n'];
    assert forall|i: int| 0 <= i < w1.len() implies 'a' as u32 <= (#[trigger] w1[i]) as u32
        <= 'z' as u32 by {
        if i == 0 {} else if i == 1 {} else {}
    }
    assert forall|i: int| 0 <= i < w2.len() implies 'a' as u32 <= (#[trigger] w2[i]) as u32
        <= 'z' as u32 by {
        if i == 0 {} else if i == 1 {} else if i == 2 {} else if i == 3 {} else if i == 4 {
        } else if i == 5 {} else if i == 6 {} else {}
    }
    assert forall|i: int| 0 <= i < w3.len() implies 'a' as u32 <= (#[trigger] w3[i]) as u32
        <= 'z' as u32 by {
        if i == 0 {} else if i == 1 {} else {}
    }
    if is_word_ignore_case(b, w1) {
        lemma_word_has_no_pipe(b, w1);
    } else if is_word_ignore_case(b, w2) {
        lemma_word_has_no_pipe(b, w2);
    } else if is_word_ignore_case(b, w3) {
        lemma_word_has_no_pipe(b, w3);
    } else {
        lemma_decimal_has_no_pipe(b);
    }
    assert forall|k: int| 0 <= k < s.len() implies #[trigger] s[k] != '|' by {
        if signed {
            if k > 0 {
                assert(s[k] == b[k - 1]);
            }
        } else {
            assert(s[k] == b[k]);
        }
    }
}

proof fn lemma_decimal_has_no_pipe(b: Seq<char>)
    requires
        is_decimal_number(b),
    ensures
        forall|k: int| 0 <= k < b.len() ==> #[trigger] b[k] != '|',
{
    lemma_leading_digits(b);
    let i = leading_digits(b) as int;
    let r = b.skip(i);
    if r.len() > 0 && r[0] == '.' {
        let u = r.skip(1);
        lemma_leading_digits(u);
        let f = leading_digits(u) as int;
        if r.len() != 1 + f {
            lemma_exponent_has_no_pipe(r.skip(1 + f));
        }
        assert forall|k: int| 0 <= k < b.len() implies #[trigger] b[k] != '|' by {
            if k < i {
                assert(is_digit(b[k]));
            } else if k == i {
                assert(b[k] == r[0]);
            } else if k < i + 1 + f {
                assert(b[k] == u[k - i - 1]);
                assert(is_digit(u[k - i - 1]));
            } else {
                assert(b[k] == r.skip(1 + f)[k - i - 1 - f]);
            }
        }
    } else {
        if r.len() > 0 {
            lemma_exponent_has_no_pipe(r);
        }
        assert forall|k: int| 0 <= k < b.len() implies #[trigger] b[k] != '|' by {
            if k < i {
                assert(is_digit(b[k]));
            } else {
                assert(b[k] == r[k - i]);
            }
        }
    }
}

/// Appending digits never makes the value smaller.
pub proof fn lemma_digits_value_grows(s: Seq<char>, k: int)
    requires
        0 <= k <= s.len(),
        all_digits(s),
    ensures
        digits_value(s.take(k)) <= digits_value(s),
    decreases s.len() - k,
{
    if k < s.len() {
        let t = s.take(k + 1);
        assert(t.drop_last() =~= s.take(k));
        lemma_digits_value_grows(s, k + 1);
        assert(is_digit(s[k]));
    } else {
        assert(s.take(k) =~= s);
    }
}

/// Reads `cs[from..to]` as `str::parse::<u64>` does.
pub fn parse_u64_chars(cs: &Vec<char>, from: usize, to: usize) -> (r: Option<u64>)
    requires
        from <= to <= cs@.len(),
    ensures
        r == parse_u64_spec(cs@.subrange(from as int, to as int)),
{
    let ghost s = cs@.subrange(from as int, to as int);
    let mut start = from;
    if from < to && cs[from] == '+' {
        start = from + 1;
    }
    let ghost d = cs@.subrange(start as int, to as int);
    assert(d =~= if s.len() > 0 && s[0] == '+' { s.skip(1) } else { s });
    if start == to {
        return None;
    }
    let mut value: u64 = 0;
    let mut i = start;
    while i < to
        invariant
            from <= start <= i <= to <= cs@.len(),
            d == cs@.subrange(start as int, to as int),
            s == cs@.subrange(from as int, to as int),
            d == (if s.len() > 0 && s[0] == '+' { s.skip(1) } else { s }),
            all_digits(d.take(i - start)),
            value as nat == digits_value(d.take(i - start)),
        decreases to - i,
    {
        let c = cs[i];
        assert(d[i - start] == c);
        let code = c as u32;
        if !('0' as u32 <= code && code <= '9' as u32) {
            assert(!is_digit(d[i - start]));
            return None;
        }
        let digit = (code - '0' as u32) as u64;
        let ghost next = d.take(i - start + 1);
        assert(next.drop_last() =~= d.take(i - start));
        assert(all_digits(next)) by {
            assert forall|j: int| 0 <= j < next.len() implies is_digit(#[trigger] next[j]) by {
                if j < next.len() - 1 {
                    assert(next[j] == d.take(i - start)[j]);
                }
            }
        }
        match value.checked_mul(10) {
            None => {
                proof { lemma_overflow_is_final(d, i - start + 1); }
                return None;
            },
            Some(tens) => match tens.checked_add(digit) {
                None => {
                    proof { lemma_overflow_is_final(d, i - start + 1); }
                    return None;
                },
                Some(v) => {
                    value = v;
                },
            },
        }
        i += 1;
    }
    assert(d.take(to - start) =~= d);
    Some(value)
}

/// Once a prefix of the digits overflows, the whole text does not parse.
proof fn lemma_overflow_is_final(d: Seq<char>, k: int)
    requires
        0 < k <= d.len(),
        all_digits(d.take(k)),
        digits_value(d.take(k)) > u64::MAX,
    ensures
        !(d.len() > 0 && all_digits(d) && digits_value(d) <= u64::MAX),
{
    if all_digits(d) {
        lemma_digits_value_grows(d, k);
    }
}

/// The character of the decimal digit `d`.
pub open spec fn digit_char(d: nat) -> char {
    (48 + d) as char
}

/// `n` written in decimal, as `Display` writes an integer.
pub open spec fn decimal(n: nat) -> Seq<char>
    decreases n,
{
    if n < 10 {
        seq![digit_char(n)]
    } else {
        decimal(n / 10).push(digit_char(n % 10))
    }
}

/// `n` written in decimal.
pub fn decimal_string(n: usize) -> (s: String)
    ensures
        s@ == decimal(n as nat),
{
    let mut digits: Vec<char> = Vec::new();
    let mut m = n;
    while m >= 10
        invariant
            decimal(n as nat) == decimal(m as nat) + digits@,
        decreases m,
    {
        let d = (m % 10) as u8;
        let c = (48u8 + d) as char;
        assert(c == digit_char((m % 10) as nat));
        let ghost before = digits@;
        digits.insert(0, c);
        assert(decimal(m as nat) == decimal((m / 10) as nat).push(c));
        assert(decimal((m / 10) as nat) + digits@ =~= decimal(m as nat) + before);
        m = m / 10;
    }
    let c = (48u8 + m as u8) as char;
    let ghost before = digits@;
    digits.insert(0, c);
    assert(digits@ =~= decimal(m as nat) + before);
    string_from_chars(&digits, 0, digits.len())
}

/// Decimal text reads back as the number it writes.
pub proof fn lemma_decimal_parses(n: u64)
    ensures
        parse_u64_spec(decimal(n as nat)) == Some(n),
{
    lemma_decimal_digits(n as nat);
    let s = decimal(n as nat);
    assert(s[0] != '+') by {
        assert(is_digit(s[0]));
    }
}

proof fn lemma_digit_char(d: nat)
    requires
        d < 10,
    ensures
        is_digit(digit_char(d)),
        digit_value(digit_char(d)) == d,
{
    assert((digit_char(d) as u32) == 48 + d);
}

/// Decimal text is made of digits alone.
pub proof fn lemma_decimal_digits_all(n: nat)
    ensures
        all_digits(decimal(n)),
{
    lemma_decimal_digits(n);
}

/// Decimal text is one or more digits that read back as the number.
pub proof fn lemma_decimal_digits(n: nat)
    ensures
        decimal(n).len() > 0,
        all_digits(decimal(n)),
        digits_value(decimal(n)) == n,
    decreases n,
{
    if n < 10 {
        lemma_digit_char(n);
        let s = decimal(n);
        assert(s.drop_last() =~= Seq::<char>::empty());
        assert(digits_value(s.drop_last()) == 0);
        assert(s.last() == digit_char(n));
    } else {
        lemma_decimal_digits(n / 10);
        lemma_digit_char(n % 10);
        let s = decimal(n);
        assert(s.drop_last() =~= decimal(n / 10));
        assert(s.last() == digit_char(n % 10));
        assert(digits_value(s) == digits_value(decimal(n / 10)) * 10 + (n % 10));
        assert(n == (n / 10) * 10 + n % 10) by (nonlinear_arith);
        assert forall|i: int| 0 <= i < s.len() implies is_digit(#[trigger] s[i]) by {
            if i < s.len() - 1 {
                assert(s[i] == decimal(n / 10)[i]);
            }
        }
    }
}


/// The digits `d` followed by a non-digit: exactly `d` leads the text.
pub proof fn lemma_leading_digits_prefix(d: Seq<char>, t: Seq<char>)
    requires
        all_digits(d),
        t.len() > 0,
        !is_digit(t[0]),
    ensures
        leading_digits(d + t) == d.len(),
{
    let s = d + t;
    lemma_leading_digits(s);
    let k = leading_digits(s) as int;
    if k < d.len() {
        assert(s[k] == d[k]);
    } else if k > d.len() {
        assert(s[d.len() as int] == t[0]);
        assert(is_digit(s[d.len() as int]));
    }
}

/// One or more digits read as a number.
pub proof fn lemma_integer_is_float(a: Seq<char>)
    requires
        a.len() > 0,
        all_digits(a),
    ensures
        is_float_text(a),
{
    lemma_leading_digits(a);
    assert(is_digit(a[0]));
    assert(a.skip(a.len() as int) =~= Seq::<char>::empty());
}

/// Digits, a `.`, and digits, at least one digit in all and however many
/// on either side, read as a number.
pub proof fn lemma_fraction_is_float(a: Seq<char>, b: Seq<char>)
    requires
        all_digits(a),
        all_digits(b),
        a.len() + b.len() > 0,
    ensures
        is_float_text(a + seq!['.'] + b),
{
    let s = a + seq!['.'] + b;
    assert(s =~= a + (seq!['.'] + b));
    lemma_leading_digits_prefix(a, seq!['.'] + b);
    if a.len() > 0 {
        assert(s[0] == a[0]);
        assert(is_digit(a[0]));
    } else {
        assert(s[0] == '.');
    }
    let r = s.skip(a.len() as int);
    assert(r =~= seq!['.'] + b);
    assert(r.skip(1) =~= b);
    lemma_leading_digits(b);
}

} // verus!
