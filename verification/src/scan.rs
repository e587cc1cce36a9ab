//! Splitting text into whitespace-separated words and reading decimal
//! integers, as `str::split_whitespace` and `i32::from_str` do.

use vstd::prelude::*;
use vstd::string::*;
use crate::text::{decimal, decimal2, digit_char};

verus! {

/// Unicode `White_Space`, the class `char::is_whitespace` tests.
pub open spec fn is_white(c: char) -> bool {
    let u = c as u32;
    ||| 0x9 <= u <= 0xd
    ||| u == 0x20
    ||| u == 0x85
    ||| u == 0xa0
    ||| u == 0x1680
    ||| 0x2000 <= u <= 0x200a
    ||| u == 0x2028
    ||| u == 0x2029
    ||| u == 0x202f
    ||| u == 0x205f
    ||| u == 0x3000
}

/// Whether `c` is an ASCII decimal digit.
pub open spec fn is_digit(c: char) -> bool {
    48 <= (c as u32) <= 57
}

/// The value of the ASCII digit `c`.
pub open spec fn digit_value(c: char) -> int {
    (c as u32) - 48
}

/// Whether every character of `s` is an ASCII decimal digit.
pub open spec fn all_digits(s: Seq<char>) -> bool {
    forall|i: int| 0 <= i < s.len() ==> is_digit(#[trigger] s[i])
}

/// The number that the digits `s` spell.
pub open spec fn digits_value(s: Seq<char>) -> int
    decreases s.len(),
{
    if s.len() == 0 {
        0
    } else {
        digits_value(s.drop_last()) * 10 + digit_value(s.last())
    }
}

/// Whether `x` fits in an `i32`.
pub open spec fn in_i32(x: int) -> bool {
    i32::MIN <= x <= i32::MAX
}

/// What `i32::from_str` gives for `s`: an optional sign followed by at least
/// one ASCII digit, the value in range; `None` for anything else.
pub open spec fn parse_i32(s: Seq<char>) -> Option<int> {
    if s.len() == 0 {
        None
    } else {
        let neg = s[0] == '-';
        let body = if s[0] == '-' || s[0] == '+' {
            s.drop_first()
        } else {
            s
        };
        let v = if neg {
            -digits_value(body)
        } else {
            digits_value(body)
        };
        if body.len() == 0 || !all_digits(body) || !in_i32(v) {
            None
        } else {
            Some(v)
        }
    }
}

/// The first position at or after `i` that holds no whitespace (the length
/// of `s` where there is none).
pub open spec fn skip_white(s: Seq<char>, i: int) -> int
    decreases s.len() - i,
{
    if i < 0 || i >= s.len() || !is_white(s[i]) {
        i
    } else {
        skip_white(s, i + 1)
    }
}

/// The first position at or after `i` that holds whitespace (the length of
/// `s` where there is none).
pub open spec fn word_end(s: Seq<char>, i: int) -> int
    decreases s.len() - i,
{
    if i < 0 || i >= s.len() || is_white(s[i]) {
        i
    } else {
        word_end(s, i + 1)
    }
}

/// Where `skip_white` lands: no earlier than `i`, past whitespace only,
/// and on a character that is no whitespace unless at the end.
pub proof fn lemma_skip_white(s: Seq<char>, i: int)
    requires
        0 <= i <= s.len(),
    ensures
        i <= skip_white(s, i) <= s.len(),
        skip_white(s, i) < s.len() ==> !is_white(s[skip_white(s, i)]),
        forall|k: int| i <= k < skip_white(s, i) ==> is_white(#[trigger] s[k]),
    decreases s.len() - i,
{
    if i < s.len() && is_white(s[i]) {
        lemma_skip_white(s, i + 1);
    }
}

/// Where `word_end` lands: no earlier than `i`, past non-whitespace only,
/// and on whitespace unless at the end.
pub proof fn lemma_word_end(s: Seq<char>, i: int)
    requires
        0 <= i <= s.len(),
    ensures
        i <= word_end(s, i) <= s.len(),
        word_end(s, i) < s.len() ==> is_white(s[word_end(s, i)]),
        forall|k: int| i <= k < word_end(s, i) ==> !is_white(#[trigger] s[k]),
    decreases s.len() - i,
{
    if i < s.len() && !is_white(s[i]) {
        lemma_word_end(s, i + 1);
    }
}

/// The words of `s` from position `i` on.
pub open spec fn words_from(s: Seq<char>, i: int) -> Seq<Seq<char>>
    decreases s.len() - i,
{
    if i < 0 || i > s.len() {
        seq![]
    } else {
        let b = skip_white(s, i);
        if b >= s.len() {
            seq![]
        } else {
            let e = word_end(s, b);
            proof {
                lemma_skip_white(s, i);
                lemma_word_end(s, b);
            }
            seq![s.subrange(b, e)] + words_from(s, e)
        }
    }
}

/// The maximal runs of non-whitespace characters of `s`, in order: what
/// `str::split_whitespace` yields.
pub open spec fn words(s: Seq<char>) -> Seq<Seq<char>> {
    words_from(s, 0)
}

/// How the first two words of `s` sit, given the positions that scanning
/// from the start finds: the first word starts at `b0` and ends at `e0`, the
/// second starts at `b1` and ends at `e1`.
pub proof fn lemma_first_two_words(s: Seq<char>, b0: int, e0: int, b1: int, e1: int)
    requires
        b0 == skip_white(s, 0),
        b0 < s.len() ==> e0 == word_end(s, b0),
        b0 < s.len() ==> b1 == skip_white(s, e0),
        b0 < s.len() && b1 < s.len() ==> e1 == word_end(s, b1),
    ensures
        (words(s).len() == 0) == (b0 >= s.len()),
        b0 < s.len() ==> words(s)[0] == s.subrange(b0, e0),
        b0 < s.len() ==> (words(s).len() == 1) == (b1 >= s.len()),
        b0 < s.len() && b1 < s.len() ==> words(s)[1] == s.subrange(b1, e1),
{
    lemma_skip_white(s, 0);
    if b0 < s.len() {
        lemma_word_end(s, b0);
        lemma_skip_white(s, e0);
        let rest = words_from(s, e0);
        assert(words(s) == seq![s.subrange(b0, e0)] + rest);
        if b1 < s.len() {
            lemma_word_end(s, b1);
            assert(rest == seq![s.subrange(b1, e1)] + words_from(s, e1));
        } else {
            assert(rest == Seq::<Seq<char>>::empty());
        }
    }
}

/// `word_end` from `i` is `j` when `s[i..j]` holds no whitespace and `j` is
/// the end of `s` or holds whitespace.
pub proof fn lemma_word_end_is(s: Seq<char>, i: int, j: int)
    requires
        0 <= i <= j <= s.len(),
        forall|k: int| i <= k < j ==> !is_white(#[trigger] s[k]),
        j == s.len() || is_white(s[j]),
    ensures
        word_end(s, i) == j,
    decreases j - i,
{
    if i < j {
        lemma_word_end_is(s, i + 1, j);
    }
}

/// `skip_white` from `i` is `j` when `s[i..j]` is all whitespace and `j` is
/// the end of `s` or holds none.
pub proof fn lemma_skip_white_is(s: Seq<char>, i: int, j: int)
    requires
        0 <= i <= j <= s.len(),
        forall|k: int| i <= k < j ==> is_white(#[trigger] s[k]),
        j == s.len() || !is_white(s[j]),
    ensures
        skip_white(s, i) == j,
    decreases j - i,
{
    if i < j {
        lemma_skip_white_is(s, i + 1, j);
    }
}

/// Characters with the same code are the same character.
pub proof fn lemma_char_code_injective(a: char, b: char)
    requires
        a as u32 == b as u32,
    ensures
        a == b,
{
    assert((a as u32) as char == a);
    assert((b as u32) as char == b);
}

/// A decimal rendering is a non-empty run of digits, none of them whitespace,
/// that spells the number rendered.
pub proof fn lemma_decimal_digits(n: nat)
    ensures
        decimal(n).len() >= 1,
        all_digits(decimal(n)),
        forall|k: int| 0 <= k < decimal(n).len() ==> !is_white(#[trigger] decimal(n)[k]),
        digits_value(decimal(n)) == n,
    decreases n,
{
    let d = digit_char(n % 10);
    assert(d as u32 == 48 + n % 10);
    if n >= 10 {
        lemma_decimal_digits(n / 10);
        let p = decimal(n / 10);
        assert(decimal(n) == p.push(d));
        assert(decimal(n).drop_last() =~= p);
        assert(decimal(n).last() == d);
        assert(digits_value(decimal(n)) == digits_value(p) * 10 + digit_value(d));
        assert forall|k: int| 0 <= k < decimal(n).len() implies is_digit(#[trigger] decimal(n)[k])
            && !is_white(decimal(n)[k]) by {
            if k < p.len() {
                assert(decimal(n)[k] == p[k]);
            }
        }
    } else {
        assert(decimal(n).drop_last() =~= Seq::<char>::empty());
        assert(digits_value(decimal(n)) == digits_value(Seq::<char>::empty()) * 10 + digit_value(
            d,
        ));
    }
}

/// A rendering with two digits of a number below 100 is two digits that
/// spell the number.
pub proof fn lemma_decimal2_digits(n: nat)
    requires
        n < 100,
    ensures
        decimal2(n).len() == 2,
        all_digits(decimal2(n)),
        digits_value(decimal2(n)) == n,
{
    lemma_decimal_digits(n);
    let d = digit_char(n % 10);
    assert(d as u32 == 48 + n % 10);
    if n < 10 {
        let t = decimal2(n);
        assert(t == seq!['0', d]);
        assert(t.drop_last() =~= seq!['0']);
        assert(seq!['0'].drop_last() =~= Seq::<char>::empty());
        assert(seq!['0'].last() == '0');
        assert('0' as u32 == 48);
        assert(digits_value(Seq::<char>::empty()) == 0);
        assert(digit_value('0') == 0);
        assert(digits_value(seq!['0']) == 0);
        assert(t.last() == d);
        assert(is_digit(t[0]) && is_digit(t[1]));
    } else {
        assert(decimal(n) == decimal(n / 10).push(d));
        assert(decimal(n / 10).len() == 1);
    }
}

/// `i32::from_str` reads a decimal rendering back as the number rendered.
pub proof fn lemma_parse_decimal(n: nat)
    requires
        n <= i32::MAX,
    ensures
        parse_i32(decimal(n)) == Some(n as int),
{
    lemma_decimal_digits(n);
    let s = decimal(n);
    assert(is_digit(s[0]));
}

/// What `u32::from_str`, `u64::from_str` and the like give for `s` when the
/// largest value of the type is `max`: an optional `+` followed by at least
/// one ASCII digit, the value at most `max`; `None` for anything else.
pub open spec fn parse_unsigned(s: Seq<char>, max: int) -> Option<int> {
    if s.len() == 0 {
        None
    } else {
        let body = if s[0] == '+' {
            s.drop_first()
        } else {
            s
        };
        if body.len() == 0 || !all_digits(body) || digits_value(body) > max {
            None
        } else {
            Some(digits_value(body))
        }
    }
}

/// The value `r` read as a mathematical integer.
pub open spec fn opt_u64(r: Option<u64>) -> Option<int> {
    match r {
        Some(x) => Some(x as int),
        None => None,
    }
}

/// The first position at or after `i` that holds `c` (the length of `s`
/// where there is none).
pub open spec fn find_char(s: Seq<char>, c: char, i: int) -> int
    decreases s.len() - i,
{
    if i < 0 || i >= s.len() || s[i] == c {
        i
    } else {
        find_char(s, c, i + 1)
    }
}

/// Where `find_char` lands: no earlier than `i`, past other characters only,
/// and on `c` unless at the end.
pub proof fn lemma_find_char(s: Seq<char>, c: char, i: int)
    requires
        0 <= i <= s.len(),
    ensures
        i <= find_char(s, c, i) <= s.len(),
        find_char(s, c, i) < s.len() ==> s[find_char(s, c, i)] == c,
        forall|k: int| i <= k < find_char(s, c, i) ==> #[trigger] s[k] != c,
    decreases s.len() - i,
{
    if i < s.len() && s[i] != c {
        lemma_find_char(s, c, i + 1);
    }
}

/// One past the last position before `j` that holds no whitespace (zero
/// where there is none).
pub open spec fn trim_end(s: Seq<char>, j: int) -> int
    decreases j,
{
    if j <= 0 || j > s.len() || !is_white(s[j - 1]) {
        j
    } else {
        trim_end(s, j - 1)
    }
}

/// Where `trim_end` lands: no later than `j`, before whitespace only, and
/// just after a character that is no whitespace unless at the start.
pub proof fn lemma_trim_end(s: Seq<char>, j: int)
    requires
        0 <= j <= s.len(),
    ensures
        0 <= trim_end(s, j) <= j,
        trim_end(s, j) > 0 ==> !is_white(s[trim_end(s, j) - 1]),
        forall|k: int| trim_end(s, j) <= k < j ==> is_white(#[trigger] s[k]),
    decreases j,
{
    if j > 0 && is_white(s[j - 1]) {
        lemma_trim_end(s, j - 1);
    }
}

/// `s` without its leading and trailing whitespace (`str::trim`).
pub open spec fn trim(s: Seq<char>) -> Seq<char> {
    let b = skip_white(s, 0);
    if b >= s.len() {
        Seq::empty()
    } else {
        s.subrange(b, trim_end(s, s.len() as int))
    }
}

/// A line taken from before a line feed loses one trailing carriage return.
pub open spec fn strip_cr(raw: Seq<char>) -> Seq<char> {
    if raw.len() > 0 && raw.last() == '\r' {
        raw.drop_last()
    } else {
        raw
    }
}

/// The lines of `s` from position `i` on.
pub open spec fn lines_from(s: Seq<char>, i: int) -> Seq<Seq<char>>
    decreases s.len() + 1 - i,
{
    if i < 0 || i >= s.len() {
        seq![]
    } else {
        let e = find_char(s, '\n', i);
        proof {
            lemma_find_char(s, '\n', i);
        }
        let raw = s.subrange(i, e);
        let line = if e < s.len() {
            strip_cr(raw)
        } else {
            raw
        };
        seq![line] + lines_from(s, e + 1)
    }
}

/// The lines of `s`, as `str::lines` yields them: split at each line feed,
/// a carriage return just before a line feed dropped, and no empty line after
/// a final line feed.
pub open spec fn lines(s: Seq<char>) -> Seq<Seq<char>> {
    lines_from(s, 0)
}

/// The lines `ls` joined with line feeds between them.
pub open spec fn join_lines(ls: Seq<Seq<char>>) -> Seq<char>
    decreases ls.len(),
{
    if ls.len() == 0 {
        Seq::empty()
    } else if ls.len() == 1 {
        ls[0]
    } else {
        join_lines(ls.drop_last()) + seq!['\n'] + ls.last()
    }
}

/// Whether `c` is Unicode whitespace (`char::is_whitespace`).
pub fn is_white_char(c: char) -> (r: bool)
    ensures
        r == is_white(c),
{
    let u = c as u32;
    (0x9 <= u && u <= 0xd) || u == 0x20 || u == 0x85 || u == 0xa0 || u == 0x1680 || (0x2000 <= u
        && u <= 0x200a) || u == 0x2028 || u == 0x2029 || u == 0x202f || u == 0x205f || u == 0x3000
}

/// The characters of `s`.
pub fn chars_of(s: &str) -> (r: Vec<char>)
    ensures
        r@ == s@,
{
    let n = s.unicode_len();
    let mut v: Vec<char> = Vec::new();
    let mut i: usize = 0;
    while i < n
        invariant
            n == s@.len(),
            i <= n,
            v@ == s@.take(i as int),
        decreases n - i,
    {
        v.push(s.get_char(i));
        i = i + 1;
        assert(v@ =~= s@.take(i as int));
    }
    assert(v@ =~= s@);
    v
}

/// The first position at or after `i` in `v` that holds no whitespace.
pub fn skip_white_at(v: &Vec<char>, i: usize) -> (r: usize)
    requires
        i <= v@.len(),
    ensures
        r == skip_white(v@, i as int),
{
    let mut j = i;
    while j < v.len() && is_white_char(v[j])
        invariant
            i <= j <= v@.len(),
            skip_white(v@, j as int) == skip_white(v@, i as int),
        decreases v@.len() - j,
    {
        j = j + 1;
    }
    j
}

/// The first position at or after `i` in `v` that holds whitespace.
pub fn word_end_at(v: &Vec<char>, i: usize) -> (r: usize)
    requires
        i <= v@.len(),
    ensures
        r == word_end(v@, i as int),
{
    let mut j = i;
    while j < v.len() && !is_white_char(v[j])
        invariant
            i <= j <= v@.len(),
            word_end(v@, j as int) == word_end(v@, i as int),
        decreases v@.len() - j,
    {
        j = j + 1;
    }
    j
}

/// The value `r` read as a mathematical integer.
pub open spec fn opt_i32(r: Option<i32>) -> Option<int> {
    match r {
        Some(x) => Some(x as int),
        None => None,
    }
}

/// Digits spell no negative number.
pub proof fn lemma_digits_value_nonneg(s: Seq<char>)
    requires
        all_digits(s),
    ensures
        digits_value(s) >= 0,
    decreases s.len(),
{
    if s.len() > 0 {
        assert(all_digits(s.drop_last())) by {
            assert forall|i: int| 0 <= i < s.drop_last().len() implies is_digit(
                #[trigger] s.drop_last()[i],
            ) by {
                assert(s.drop_last()[i] == s[i]);
            }
        }
        lemma_digits_value_nonneg(s.drop_last());
        assert(is_digit(s[s.len() - 1]));
    }
}

/// A longer run of digits never spells a smaller number.
pub proof fn lemma_digits_value_prefix(s: Seq<char>, k: int)
    requires
        all_digits(s),
        0 <= k <= s.len(),
    ensures
        0 <= digits_value(s.take(k)) <= digits_value(s),
    decreases s.len(),
{
    lemma_digits_value_nonneg(s);
    if k == s.len() {
        assert(s.take(k) =~= s);
    } else {
        let t = s.drop_last();
        assert(all_digits(t)) by {
            assert forall|i: int| 0 <= i < t.len() implies is_digit(#[trigger] t[i]) by {
                assert(t[i] == s[i]);
            }
        }
        assert(s.take(k) =~= t.take(k));
        lemma_digits_value_prefix(t, k);
        lemma_digits_value_nonneg(t);
        assert(is_digit(s[s.len() - 1]));
    }
}

/// Reads `v[b..e]` as `i32::from_str` does.
pub fn parse_i32_at(v: &Vec<char>, b: usize, e: usize) -> (r: Option<i32>)
    requires
        b <= e <= v@.len(),
    ensures
        opt_i32(r) == parse_i32(v@.subrange(b as int, e as int)),
{
    let ghost s = v@.subrange(b as int, e as int);
    if b == e {
        return None;
    }
    let first = v[b];
    let neg = first == '-';
    let start = if first == '-' || first == '+' {
        b + 1
    } else {
        b
    };
    let ghost body = v@.subrange(start as int, e as int);
    assert(body =~= (if s[0] == '-' || s[0] == '+' {
        s.drop_first()
    } else {
        s
    }));
    if start == e {
        return None;
    }
    let mut acc: i64 = 0;
    let mut k = start;
    assert(body.take(0) =~= Seq::<char>::empty());
    while k < e
        invariant
            b <= start <= k <= e <= v@.len(),
            body == v@.subrange(start as int, e as int),
            s == v@.subrange(b as int, e as int),
            s.len() > 0,
            neg == (s[0] == '-'),
            body == (if s[0] == '-' || s[0] == '+' {
                s.drop_first()
            } else {
                s
            }),
            all_digits(body.take(k - start)),
            acc == digits_value(body.take(k - start)),
            0 <= acc <= 2147483648,
        decreases e - k,
    {
        let c = v[k];
        let u = c as u32;
        if !(48 <= u && u <= 57) {
            assert(!is_digit(body[k - start]));
            assert(!all_digits(body));
            return None;
        }
        let ghost prev = body.take(k - start);
        acc = acc * 10 + (u - 48) as i64;
        k = k + 1;
        assert(body.take(k - start).drop_last() =~= prev);
        assert(body.take(k - start).last() == c);
        assert(all_digits(body.take(k - start))) by {
            assert forall|i: int| 0 <= i < body.take(k - start).len() implies is_digit(
                #[trigger] body.take(k - start)[i],
            ) by {
                if i < prev.len() {
                    assert(body.take(k - start)[i] == prev[i]);
                }
            }
        }
        if acc > 2147483648 {
            proof {
                if all_digits(body) {
                    lemma_digits_value_prefix(body, (k - start) as int);
                }
            }
            return None;
        }
    }
    assert(body.take(k - start) =~= body);
    if neg {
        Some((-acc) as i32)
    } else if acc <= 2147483647 {
        Some(acc as i32)
    } else {
        None
    }
}

/// Reads `v[b..e]` as an unsigned integer type whose largest value is `max`.
pub fn parse_unsigned_at(v: &Vec<char>, b: usize, e: usize, max: u64) -> (r: Option<u64>)
    requires
        b <= e <= v@.len(),
    ensures
        opt_u64(r) == parse_unsigned(v@.subrange(b as int, e as int), max as int),
{
    let ghost s = v@.subrange(b as int, e as int);
    if b == e {
        return None;
    }
    let start = if v[b] == '+' {
        b + 1
    } else {
        b
    };
    let ghost body = v@.subrange(start as int, e as int);
    assert(body =~= (if s[0] == '+' {
        s.drop_first()
    } else {
        s
    }));
    if start == e {
        return None;
    }
    let mut acc: u128 = 0;
    let mut k = start;
    assert(body.take(0) =~= Seq::<char>::empty());
    while k < e
        invariant
            b <= start <= k <= e <= v@.len(),
            body == v@.subrange(start as int, e as int),
            s == v@.subrange(b as int, e as int),
            s.len() > 0,
            body == (if s[0] == '+' {
                s.drop_first()
            } else {
                s
            }),
            all_digits(body.take(k - start)),
            acc == digits_value(body.take(k - start)),
            acc <= max,
        decreases e - k,
    {
        let c = v[k];
        let u = c as u32;
        if !(48 <= u && u <= 57) {
            assert(!is_digit(body[k - start]));
            assert(!all_digits(body));
            return None;
        }
        let ghost prev = body.take(k - start);
        acc = acc * 10 + (u - 48) as u128;
        k = k + 1;
        assert(body.take(k - start).drop_last() =~= prev);
        assert(body.take(k - start).last() == c);
        assert(all_digits(body.take(k - start))) by {
            assert forall|i: int| 0 <= i < body.take(k - start).len() implies is_digit(
                #[trigger] body.take(k - start)[i],
            ) by {
                if i < prev.len() {
                    assert(body.take(k - start)[i] == prev[i]);
                }
            }
        }
        if acc > max as u128 {
            proof {
                if all_digits(body) {
                    lemma_digits_value_prefix(body, (k - start) as int);
                }
            }
            return None;
        }
    }
    assert(body.take(k - start) =~= body);
    Some(acc as u64)
}

/// The first position at or after `i` in `v` that holds `c`.
pub fn find_char_at(v: &Vec<char>, c: char, i: usize) -> (r: usize)
    requires
        i <= v@.len(),
    ensures
        r == find_char(v@, c, i as int),
{
    let mut j = i;
    while j < v.len() && v[j] != c
        invariant
            i <= j <= v@.len(),
            find_char(v@, c, j as int) == find_char(v@, c, i as int),
        decreases v@.len() - j,
    {
        j = j + 1;
    }
    j
}

/// One past the last position before `j` in `v` that holds no whitespace.
pub fn trim_end_at(v: &Vec<char>, j: usize) -> (r: usize)
    requires
        j <= v@.len(),
    ensures
        r == trim_end(v@, j as int),
{
    let mut k = j;
    while k > 0 && is_white_char(v[k - 1])
        invariant
            k <= j <= v@.len(),
            trim_end(v@, k as int) == trim_end(v@, j as int),
        decreases k,
    {
        k = k - 1;
    }
    k
}

} // verus!
