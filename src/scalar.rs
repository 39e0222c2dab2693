use vstd::prelude::*;
use crate::error::Fault;
use crate::text::string_of;
use crate::value::{JSON, JVal};

verus! {

/// The character that an escape sequence `\c` stands for, if `c` has one.
pub open spec fn escape_of(c: char) -> Option<char> {
    match c {
        'b' => Some('\x08'),
        'f' => Some('\x0c'),
        'n' => Some('\n'),
        't' => Some('\t'),
        'r' => Some('\r'),
        '\\' => Some('\\'),
        '"' => Some('"'),
        _ => None,
    }
}

/// Resolves the character after a backslash through the fixed escape table.
pub fn get_esc_char(ch: char) -> (r: Option<char>)
    ensures
        r == escape_of(ch),
{
    match ch {
        'b' => Some('\x08'),
        'f' => Some('\x0c'),
        'n' => Some('\n'),
        't' => Some('\t'),
        'r' => Some('\r'),
        '\\' => Some('\\'),
        '"' => Some('"'),
        _ => None,
    }
}

/// An ASCII decimal digit.
pub open spec fn is_digit(c: char) -> bool {
    '0' <= c <= '9'
}

/// The value of a decimal digit character.
pub open spec fn digit_value(c: char) -> int {
    c as int - '0' as int
}

/// Every character is a decimal digit.
pub open spec fn all_digits(s: Seq<char>) -> bool {
    forall|i: int| 0 <= i < s.len() ==> is_digit(#[trigger] s[i])
}

/// The number that a run of decimal digits spells, most significant first.
pub open spec fn digits_value(s: Seq<char>) -> nat
    decreases s.len(),
{
    if s.len() == 0 {
        0
    } else {
        (digits_value(s.drop_last()) * 10 + digit_value(s.last())) as nat
    }
}

/// A text without its leading `+` or `-`, if it has one.
pub open spec fn unsigned_part(t: Seq<char>) -> Seq<char> {
    if t.len() > 0 && (t[0] == '+' || t[0] == '-') {
        t.drop_first()
    } else {
        t
    }
}

/// What std's `i64` parser makes of a text: an optional sign, then one or more
/// ASCII digits, whose value must lie in the range of `i64`.
pub open spec fn int_of_text(t: Seq<char>) -> Option<int> {
    let body = unsigned_part(t);
    if body.len() > 0 && all_digits(body) {
        let n = if t[0] == '-' {
            -(digits_value(body) as int)
        } else {
            digits_value(body) as int
        };
        if i64::MIN <= n <= i64::MAX {
            Some(n)
        } else {
            None
        }
    } else {
        None
    }
}

/// The value of a decimal digit character.
pub fn digit_of(c: char) -> (r: Option<u8>)
    ensures
        r is Some <==> is_digit(c),
        r is Some ==> r->Some_0 as int == digit_value(c) && r->Some_0 <= 9,
{
    match c {
        '0' => Some(0),
        '1' => Some(1),
        '2' => Some(2),
        '3' => Some(3),
        '4' => Some(4),
        '5' => Some(5),
        '6' => Some(6),
        '7' => Some(7),
        '8' => Some(8),
        '9' => Some(9),
        _ => None,
    }
}

/// A prefix of a run of digits spells no more than the whole run.
proof fn lemma_digits_value_prefix(s: Seq<char>, i: int)
    requires
        0 <= i <= s.len(),
        all_digits(s),
    ensures
        digits_value(s.take(i)) <= digits_value(s),
    decreases s.len(),
{
    if i < s.len() {
        assert(s.drop_last().take(i) =~= s.take(i));
        lemma_digits_value_prefix(s.drop_last(), i);
        assert(is_digit(s[s.len() - 1]));
    } else {
        assert(s.take(i) =~= s);
    }
}

/// Reads a whole text as an `i64`, as std's parser does.
pub fn parse_int(t: &Vec<char>) -> (r: Option<i64>)
    ensures
        match int_of_text(t@) {
            Some(n) => r == Some(n as i64),
            None => r is None,
        },
{
    let n = t.len();
    if n == 0 {
        return None;
    }
    let neg = t[0] == '-';
    let start: usize = if t[0] == '-' || t[0] == '+' { 1 } else { 0 };
    let ghost body = unsigned_part(t@);
    assert(body =~= t@.subrange(start as int, n as int));
    if start == n {
        return None;
    }
    let limit: u64 = 9223372036854775808;
    let mut acc: u64 = 0;
    let mut i: usize = start;
    while i < n
        invariant
            start <= i <= n,
            n == t@.len(),
            body == t@.subrange(start as int, n as int),
            body == unsigned_part(t@),
            neg == (t@[0] == '-'),
            acc as nat == digits_value(body.take(i - start)),
            acc <= limit,
            limit == 9223372036854775808,
            all_digits(body.take(i - start)),
        decreases n - i,
    {
        let c = t[i];
        let d: u64 = match digit_of(c) {
            Some(d) => d as u64,
            None => {
                assert(!all_digits(body)) by {
                    assert(body[i - start] == c);
                }
                return None;
            },
        };
        assert(d <= 9 && d as int == digit_value(c));
        assert(body.take(i + 1 - start).drop_last() =~= body.take(i - start));
        assert(body.take(i + 1 - start).last() == c);
        assert(digits_value(body.take(i + 1 - start)) == acc * 10 + d);
        let next: u128 = acc as u128 * 10 + d as u128;
        if next > limit as u128 {
            proof {
                if all_digits(body) {
                    lemma_digits_value_prefix(body, i + 1 - start);
                    assert(digits_value(body) > limit);
                }
                assert(int_of_text(t@) is None);
            }
            return None;
        }
        acc = next as u64;
        i = i + 1;
        assert(all_digits(body.take(i - start))) by {
            assert forall|j: int| 0 <= j < i - start implies is_digit(#[trigger] body.take(i - start)[j]) by {
                if j < i - 1 - start {
                    assert(body.take(i - 1 - start)[j] == body.take(i - start)[j]);
                }
            }
        }
    }
    assert(body.take(n - start) =~= body);
    if neg {
        if acc == limit {
            Some(i64::MIN)
        } else {
            Some(-(acc as i64))
        }
    } else {
        if acc == limit {
            None
        } else {
            Some(acc as i64)
        }
    }
}

/// The mark that starts an exponent.
pub open spec fn is_exp_mark(c: char) -> bool {
    c == 'e' || c == 'E'
}

/// Digits with at most one decimal point, and at least one digit.
pub open spec fn is_mantissa(m: Seq<char>) -> bool {
    ||| (m.len() >= 1 && all_digits(m))
    ||| exists|p: int|
        0 <= p < m.len() && #[trigger] m[p] == '.' && m.len() >= 2 && all_digits(m.take(p))
            && all_digits(m.skip(p + 1))
}

/// What follows the exponent mark: an optional sign and one or more digits.
pub open spec fn is_exponent(x: Seq<char>) -> bool {
    unsigned_part(x).len() >= 1 && all_digits(unsigned_part(x))
}

/// A mantissa, optionally followed by an exponent mark and an exponent.
pub open spec fn is_decimal(b: Seq<char>) -> bool {
    ||| is_mantissa(b)
    ||| exists|k: int|
        0 <= k < b.len() && is_exp_mark(#[trigger] b[k]) && is_mantissa(b.take(k))
            && is_exponent(b.skip(k + 1))
}

/// The upper-case form of a lower-case ASCII letter; any other character unchanged.
pub open spec fn upper_of(c: char) -> char {
    match c {
        'a' => 'A',
        'b' => 'B',
        'c' => 'C',
        'd' => 'D',
        'e' => 'E',
        'f' => 'F',
        'g' => 'G',
        'h' => 'H',
        'i' => 'I',
        'j' => 'J',
        'k' => 'K',
        'l' => 'L',
        'm' => 'M',
        'n' => 'N',
        'o' => 'O',
        'p' => 'P',
        'q' => 'Q',
        'r' => 'R',
        's' => 'S',
        't' => 'T',
        'u' => 'U',
        'v' => 'V',
        'w' => 'W',
        'x' => 'X',
        'y' => 'Y',
        'z' => 'Z',
        _ => c,
    }
}

/// The upper-case form of a lower-case ASCII letter.
fn to_upper(c: char) -> (r: char)
    ensures
        r == upper_of(c),
{
    match c {
        'a' => 'A',
        'b' => 'B',
        'c' => 'C',
        'd' => 'D',
        'e' => 'E',
        'f' => 'F',
        'g' => 'G',
        'h' => 'H',
        'i' => 'I',
        'j' => 'J',
        'k' => 'K',
        'l' => 'L',
        'm' => 'M',
        'n' => 'N',
        'o' => 'O',
        'p' => 'P',
        'q' => 'Q',
        'r' => 'R',
        's' => 'S',
        't' => 'T',
        'u' => 'U',
        'v' => 'V',
        'w' => 'W',
        'x' => 'X',
        'y' => 'Y',
        'z' => 'Z',
        _ => c,
    }
}

/// `s` spells the lower-case ASCII word `w`, ignoring the case of its letters.
pub open spec fn is_word_ci(s: Seq<char>, w: Seq<char>) -> bool {
    s.len() == w.len() && forall|i: int|
        0 <= i < s.len() ==> (#[trigger] s[i] == w[i] || s[i] == upper_of(w[i]))
}

/// The texts that std's `f64` parser accepts: an optional sign, then a decimal
/// number with an optional exponent, or one of the words `inf`, `infinity` and
/// `nan` in any case.
pub open spec fn is_float_text(t: Seq<char>) -> bool {
    let b = unsigned_part(t);
    ||| is_decimal(b)
    ||| is_word_ci(b, seq!['i', 'n', 'f'])
    ||| is_word_ci(b, seq!['i', 'n', 'f', 'i', 'n', 'i', 't', 'y'])
    ||| is_word_ci(b, seq!['n', 'a', 'n'])
}

/// Whether `lo..hi` holds digits only.
fn digits_in(t: &Vec<char>, lo: usize, hi: usize) -> (r: bool)
    requires
        lo <= hi <= t@.len(),
    ensures
        r == all_digits(t@.subrange(lo as int, hi as int)),
{
    let mut i = lo;
    while i < hi
        invariant
            lo <= i <= hi <= t@.len(),
            forall|j: int| lo <= j < i ==> is_digit(#[trigger] t@[j]),
        decreases hi - i,
    {
        if digit_of(t[i]).is_none() {
            assert(t@.subrange(lo as int, hi as int)[i - lo] == t@[i as int]);
            return false;
        }
        i = i + 1;
    }
    assert forall|j: int| 0 <= j < hi - lo implies is_digit(
        #[trigger] t@.subrange(lo as int, hi as int)[j],
    ) by {
        assert(t@.subrange(lo as int, hi as int)[j] == t@[lo + j]);
    }
    true
}

/// The first index in `lo..hi` that holds `a` or `b`, or `hi` if none does.
fn find_in(t: &Vec<char>, lo: usize, hi: usize, a: char, b: char) -> (r: usize)
    requires
        lo <= hi <= t@.len(),
    ensures
        lo <= r <= hi,
        forall|j: int| lo <= j < r ==> #[trigger] t@[j] != a && t@[j] != b,
        r < hi ==> t@[r as int] == a || t@[r as int] == b,
{
    let mut i = lo;
    while i < hi
        invariant
            lo <= i <= hi <= t@.len(),
            forall|j: int| lo <= j < i ==> #[trigger] t@[j] != a && t@[j] != b,
        decreases hi - i,
    {
        if t[i] == a || t[i] == b {
            return i;
        }
        i = i + 1;
    }
    i
}

/// A mantissa holds digits and points only.
proof fn lemma_mantissa_chars(m: Seq<char>)
    requires
        is_mantissa(m),
    ensures
        forall|i: int| 0 <= i < m.len() ==> is_digit(#[trigger] m[i]) || m[i] == '.',
{
    if !(m.len() >= 1 && all_digits(m)) {
        let p = choose|p: int|
            0 <= p < m.len() && #[trigger] m[p] == '.' && m.len() >= 2 && all_digits(m.take(p))
                && all_digits(m.skip(p + 1));
        assert forall|i: int| 0 <= i < m.len() implies is_digit(#[trigger] m[i]) || m[i] == '.' by {
            if i < p {
                assert(m.take(p)[i] == m[i]);
            } else if i > p {
                assert(m.skip(p + 1)[i - p - 1] == m[i]);
            }
        }
    }
}

/// Whether `lo..hi` holds a mantissa.
fn mantissa_in(t: &Vec<char>, lo: usize, hi: usize) -> (r: bool)
    requires
        lo <= hi <= t@.len(),
    ensures
        r == is_mantissa(t@.subrange(lo as int, hi as int)),
{
    let ghost m = t@.subrange(lo as int, hi as int);
    let p = find_in(t, lo, hi, '.', '.');
    if p == hi {
        assert forall|q: int| 0 <= q < m.len() implies #[trigger] m[q] != '.' by {
            assert(m[q] == t@[lo + q]);
        }
        hi > lo && digits_in(t, lo, hi)
    } else {
        let q = p - lo;
        assert(m[q as int] == '.');
        assert(m.take(q as int) =~= t@.subrange(lo as int, p as int));
        assert(m.skip(q + 1) =~= t@.subrange(p + 1, hi as int));
        assert(!all_digits(m));
        let r = hi - lo >= 2 && digits_in(t, lo, p) && digits_in(t, p + 1, hi);
        proof {
            if is_mantissa(m) {
                let w = choose|w: int|
                    0 <= w < m.len() && #[trigger] m[w] == '.' && m.len() >= 2 && all_digits(
                        m.take(w),
                    ) && all_digits(m.skip(w + 1));
                if w < q {
                    assert(m[w] == t@[lo + w]);
                } else if w > q {
                    assert(m.take(w)[q as int] == '.');
                }
                assert(w == q);
            }
        }
        r
    }
}

/// Whether `lo..hi` holds an exponent without its mark.
fn exponent_in(t: &Vec<char>, lo: usize, hi: usize) -> (r: bool)
    requires
        lo <= hi <= t@.len(),
    ensures
        r == is_exponent(t@.subrange(lo as int, hi as int)),
{
    let ghost x = t@.subrange(lo as int, hi as int);
    let start = if lo < hi && (t[lo] == '+' || t[lo] == '-') {
        lo + 1
    } else {
        lo
    };
    assert(unsigned_part(x) =~= t@.subrange(start as int, hi as int));
    start < hi && digits_in(t, start, hi)
}

/// Whether `lo..hi` holds a decimal number.
fn decimal_in(t: &Vec<char>, lo: usize, hi: usize) -> (r: bool)
    requires
        lo <= hi <= t@.len(),
    ensures
        r == is_decimal(t@.subrange(lo as int, hi as int)),
{
    let ghost b = t@.subrange(lo as int, hi as int);
    let k = find_in(t, lo, hi, 'e', 'E');
    if k == hi {
        assert forall|q: int| 0 <= q < b.len() implies !is_exp_mark(#[trigger] b[q]) by {
            assert(b[q] == t@[lo + q]);
        }
        mantissa_in(t, lo, hi)
    } else {
        let q = k - lo;
        assert(is_exp_mark(b[q as int]));
        assert(b.take(q as int) =~= t@.subrange(lo as int, k as int));
        assert(b.skip(q + 1) =~= t@.subrange(k + 1, hi as int));
        proof {
            if is_mantissa(b) {
                lemma_mantissa_chars(b);
                assert(b[q as int] == 'e' || b[q as int] == 'E');
            }
        }
        let r = mantissa_in(t, lo, k) && exponent_in(t, k + 1, hi);
        proof {
            if is_decimal(b) {
                let w = choose|w: int|
                    0 <= w < b.len() && is_exp_mark(#[trigger] b[w]) && is_mantissa(b.take(w))
                        && is_exponent(b.skip(w + 1));
                if w < q {
                    assert(b[w] == t@[lo + w]);
                } else if w > q {
                    lemma_mantissa_chars(b.take(w));
                    assert(b.take(w)[q as int] == b[q as int]);
                }
                assert(w == q);
            }
        }
        r
    }
}

/// Whether `lo..hi` spells the lower-case word `w` in any case.
fn word_in(t: &Vec<char>, lo: usize, hi: usize, w: &Vec<char>) -> (r: bool)
    requires
        lo <= hi <= t@.len(),
    ensures
        r == is_word_ci(t@.subrange(lo as int, hi as int), w@),
{
    let ghost s = t@.subrange(lo as int, hi as int);
    if hi - lo != w.len() {
        return false;
    }
    let mut i: usize = 0;
    while i < w.len()
        invariant
            lo <= hi <= t@.len(),
            hi - lo == w@.len(),
            s == t@.subrange(lo as int, hi as int),
            0 <= i <= w@.len(),
            forall|j: int| 0 <= j < i ==> (#[trigger] s[j] == w@[j] || s[j] == upper_of(w@[j])),
        decreases w@.len() - i,
    {
        let c = t[lo + i];
        assert(s[i as int] == c);
        if !(c == w[i] || c == to_upper(w[i])) {
            return false;
        }
        i = i + 1;
    }
    true
}

/// Tells whether std's `f64` parser accepts the whole text.
pub fn is_float(t: &Vec<char>) -> (r: bool)
    ensures
        r == is_float_text(t@),
{
    let n = t.len();
    let start: usize = if n > 0 && (t[0] == '+' || t[0] == '-') {
        1
    } else {
        0
    };
    assert(unsigned_part(t@) =~= t@.subrange(start as int, n as int));
    let inf = vec!['i', 'n', 'f'];
    let infinity = vec!['i', 'n', 'f', 'i', 'n', 'i', 't', 'y'];
    let nan = vec!['n', 'a', 'n'];
    assert(inf@ =~= seq!['i', 'n', 'f']);
    assert(infinity@ =~= seq!['i', 'n', 'f', 'i', 'n', 'i', 't', 'y']);
    assert(nan@ =~= seq!['n', 'a', 'n']);
    decimal_in(t, start, n) || word_in(t, start, n, &inf) || word_in(t, start, n, &infinity)
        || word_in(t, start, n, &nan)
}

/// What the raw text of a primitive stands for: `null`, `true`, `false`, an
/// `i64`, or else a number that std's `f64` parser accepts. Two leading zeros
/// are refused before any number is read.
pub open spec fn prim_value(t: Seq<char>) -> Result<JVal, Fault> {
    if t == seq!['n', 'u', 'l', 'l'] {
        Ok(JVal::Nul)
    } else if t == seq!['t', 'r', 'u', 'e'] {
        Ok(JVal::Bol(true))
    } else if t == seq!['f', 'a', 'l', 's', 'e'] {
        Ok(JVal::Bol(false))
    } else if t.len() >= 2 && t[0] == '0' && t[1] == '0' {
        Err(Fault::LeadingZeros)
    } else {
        match int_of_text(t) {
            Some(n) => Ok(JVal::Int(n)),
            None => if is_float_text(t) {
                Ok(JVal::Flt(t))
            } else {
                Err(Fault::Unparsable)
            },
        }
    }
}

/// Whether two sequences of characters are equal.
fn same_chars(t: &Vec<char>, w: &Vec<char>) -> (r: bool)
    ensures
        r == (t@ == w@),
{
    if t.len() != w.len() {
        return false;
    }
    let mut i: usize = 0;
    while i < t.len()
        invariant
            t@.len() == w@.len(),
            0 <= i <= t@.len(),
            forall|j: int| 0 <= j < i ==> t@[j] == w@[j],
        decreases t@.len() - i,
    {
        if t[i] != w[i] {
            return false;
        }
        i = i + 1;
    }
    assert(t@ =~= w@);
    true
}

/// Interprets the raw text of a primitive once it is complete.
pub fn primitive_parse(t: &Vec<char>) -> (r: Result<JSON, Fault>)
    ensures
        match prim_value(t@) {
            Ok(v) => r is Ok && r->Ok_0@ == v,
            Err(f) => r == Err::<JSON, Fault>(f),
        },
{
    let null = vec!['n', 'u', 'l', 'l'];
    let yes = vec!['t', 'r', 'u', 'e'];
    let no = vec!['f', 'a', 'l', 's', 'e'];
    assert(null@ =~= seq!['n', 'u', 'l', 'l']);
    assert(yes@ =~= seq!['t', 'r', 'u', 'e']);
    assert(no@ =~= seq!['f', 'a', 'l', 's', 'e']);
    if same_chars(t, &null) {
        Ok(JSON::Nul)
    } else if same_chars(t, &yes) {
        Ok(JSON::Bol(true))
    } else if same_chars(t, &no) {
        Ok(JSON::Bol(false))
    } else if t.len() >= 2 && t[0] == '0' && t[1] == '0' {
        Err(Fault::LeadingZeros)
    } else {
        match parse_int(t) {
            Some(n) => Ok(JSON::Int(n)),
            None => {
                if is_float(t) {
                    Ok(JSON::Flt(string_of(t)))
                } else {
                    Err(Fault::Unparsable)
                }
            },
        }
    }
}

} // verus!
