//! Value parsing and formatting: prices in minor currency units and strict
//! calendar dates, plus the current date from the system clock.

use vstd::prelude::*;
use vstd::string::StrSliceExecFns;
use vstd::string::StringExecFns;
use crate::text::{trim_spec, trim_str};

verus! {

pub open spec fn is_digit(c: char) -> bool {
    c == '0' || c == '1' || c == '2' || c == '3' || c == '4' || c == '5' || c == '6' || c == '7'
        || c == '8' || c == '9'
}

pub open spec fn digit_val(c: char) -> int {
    if c == '0' {
        0
    } else if c == '1' {
        1
    } else if c == '2' {
        2
    } else if c == '3' {
        3
    } else if c == '4' {
        4
    } else if c == '5' {
        5
    } else if c == '6' {
        6
    } else if c == '7' {
        7
    } else if c == '8' {
        8
    } else if c == '9' {
        9
    } else {
        0
    }
}

pub open spec fn all_digits(s: Seq<char>) -> bool {
    forall|i: int| 0 <= i < s.len() ==> is_digit(#[trigger] s[i])
}

/// The number denoted by a sequence of decimal digits, most significant first.
pub open spec fn digits_val(s: Seq<char>) -> int
    decreases s.len(),
{
    if s.len() == 0 {
        0
    } else {
        digits_val(s.drop_last()) * 10 + digit_val(s.last())
    }
}

pub proof fn lemma_digits_val_nonneg(s: Seq<char>)
    requires
        all_digits(s),
    ensures
        digits_val(s) >= 0,
    decreases s.len(),
{
    if s.len() > 0 {
        assert(all_digits(s.drop_last()));
        lemma_digits_val_nonneg(s.drop_last());
    }
}

/// A longer digit string never denotes a smaller number than its prefix.
proof fn lemma_digits_val_prefix(s: Seq<char>, k: int)
    requires
        all_digits(s),
        0 <= k <= s.len(),
    ensures
        digits_val(s) >= digits_val(s.take(k)),
    decreases s.len() - k,
{
    if k < s.len() {
        lemma_digits_val_prefix(s, k + 1);
        let p = s.take(k + 1);
        assert(p.drop_last() =~= s.take(k));
        assert(all_digits(p.drop_last()));
        lemma_digits_val_nonneg(s.take(k));
        assert(digits_val(p) == digits_val(s.take(k)) * 10 + digit_val(p.last()));
        assert(is_digit(s[k]));
    } else {
        assert(s.take(k) =~= s);
    }
}

/// The value of a two-digit string, spelled out.
pub proof fn lemma_digits_val2(q: Seq<char>)
    requires
        q.len() == 2,
    ensures
        digits_val(q) == digit_val(q[0]) * 10 + digit_val(q[1]),
{
    let q1 = q.drop_last();
    assert(q1.len() == 1 && q1[0] == q[0]);
    assert(q1.drop_last() =~= Seq::<char>::empty());
    assert(digits_val(Seq::<char>::empty()) == 0);
    assert(digits_val(q1) == digits_val(q1.drop_last()) * 10 + digit_val(q1.last()));
    assert(digits_val(q) == digits_val(q1) * 10 + digit_val(q.last()));
}

/// A four-digit string splits into its high and low two-digit halves.
pub proof fn lemma_digits_val_split4(q: Seq<char>)
    requires
        q.len() == 4,
    ensures
        digits_val(q) == digits_val(q.subrange(0, 2)) * 100 + digits_val(q.subrange(2, 4)),
{
    let q3 = q.drop_last();
    let q2 = q3.drop_last();
    assert(q2 =~= q.subrange(0, 2));
    assert(digits_val(q) == digits_val(q3) * 10 + digit_val(q.last()));
    assert(digits_val(q3) == digits_val(q2) * 10 + digit_val(q3.last()));
    lemma_digits_val2(q.subrange(2, 4));
    assert(q3.last() == q.subrange(2, 4)[0]);
    assert(q.last() == q.subrange(2, 4)[1]);
}

/// A nonempty all-digit string denotes a value fitting in `i64`, or fails.
pub open spec fn parse_digits_spec(s: Seq<char>) -> Option<i64> {
    if s.len() > 0 && all_digits(s) && digits_val(s) <= i64::MAX {
        Some(digits_val(s) as i64)
    } else {
        None
    }
}

fn digit_of(c: char) -> (d: u64)
    requires
        is_digit(c),
    ensures
        d == digit_val(c),
        d <= 9,
{
    if c == '0' {
        0
    } else if c == '1' {
        1
    } else if c == '2' {
        2
    } else if c == '3' {
        3
    } else if c == '4' {
        4
    } else if c == '5' {
        5
    } else if c == '6' {
        6
    } else if c == '7' {
        7
    } else if c == '8' {
        8
    } else {
        9
    }
}

fn is_digit_exec(c: char) -> (r: bool)
    ensures
        r == is_digit(c),
{
    c == '0' || c == '1' || c == '2' || c == '3' || c == '4' || c == '5' || c == '6' || c == '7'
        || c == '8' || c == '9'
}

/// Parses a nonempty string of decimal digits as an `i64`; fails on empty
/// input, a non-digit, or overflow.
pub fn parse_digits(s: &str) -> (r: Option<i64>)
    ensures
        r == parse_digits_spec(s@),
{
    let len = s.unicode_len();
    if len == 0 {
        return None;
    }
    let mut acc: u64 = 0;
    let mut i: usize = 0;
    while i < len
        invariant
            0 <= i <= len,
            len == s@.len(),
            all_digits(s@.take(i as int)),
            acc == digits_val(s@.take(i as int)),
            acc <= 0x7fff_ffff_ffff_ffff,
        decreases len - i,
    {
        let c = s.get_char(i);
        if !is_digit_exec(c) {
            assert(!all_digits(s@));
            return None;
        }
        let d = digit_of(c);
        proof {
            assert(s@.take(i as int + 1).drop_last() =~= s@.take(i as int));
            assert(s@.take(i as int + 1).last() == s@[i as int]);
        }
        if acc > 922_337_203_685_477_580 || (acc == 922_337_203_685_477_580 && d > 7) {
            proof {
                assert(digits_val(s@.take(i as int + 1)) > i64::MAX);
                assert(all_digits(s@.take(i as int + 1)));
                if all_digits(s@) {
                    lemma_digits_val_prefix(s@, i as int + 1);
                }
            }
            return None;
        }
        acc = acc * 10 + d;
        i = i + 1;
    }
    proof {
        assert(s@.take(len as int) =~= s@);
    }
    Some(acc as i64)
}

/// The index of the first `'.'` in `s`, or `s.len()` if there is none.
pub open spec fn find_dot(s: Seq<char>) -> int
    decreases s.len(),
{
    if s.len() == 0 {
        0
    } else if s[0] == '.' {
        0
    } else {
        1 + find_dot(s.drop_first())
    }
}

proof fn lemma_find_dot(s: Seq<char>)
    ensures
        0 <= find_dot(s) <= s.len(),
        forall|j: int| 0 <= j < find_dot(s) ==> s[j] != '.',
        find_dot(s) < s.len() ==> s[find_dot(s)] == '.',
    decreases s.len(),
{
    if s.len() > 0 && s[0] != '.' {
        lemma_find_dot(s.drop_first());
        let k = find_dot(s);
        assert(k == 1 + find_dot(s.drop_first()));
        assert forall|j: int| 0 <= j < k implies s[j] != '.' by {
            if j > 0 {
                assert(s.drop_first()[j - 1] == s[j]);
            }
        }
        if k < s.len() {
            assert(s.drop_first()[k - 1] == s[k]);
        }
    }
}

/// The cents part of a price: at most two digits; one digit counts tens.
pub open spec fn cents_ok(c: Seq<char>) -> bool {
    c.len() <= 2 && all_digits(c)
}

pub open spec fn cents_val(c: Seq<char>) -> int {
    if c.len() == 0 {
        0
    } else if c.len() == 1 {
        digit_val(c[0]) * 10
    } else {
        digits_val(c)
    }
}

/// Whether trimmed input `t` is a well-formed price `D[.C[C]]` whose value
/// fits in `i64`, and that value in minor units.
pub open spec fn price_ok(t: Seq<char>) -> bool {
    let k = find_dot(t);
    let d = t.take(k);
    &&& d.len() > 0
    &&& all_digits(d)
    &&& (k == t.len() || cents_ok(t.skip(k + 1)))
    &&& price_val(t) <= i64::MAX
}

pub open spec fn price_val(t: Seq<char>) -> int {
    let k = find_dot(t);
    let cents = if k == t.len() {
        0
    } else {
        cents_val(t.skip(k + 1))
    };
    digits_val(t.take(k)) * 100 + cents
}

/// What `parse_price` returns: the value in minor units of the trimmed
/// input, if well-formed.
pub open spec fn parse_price_spec(s: Seq<char>) -> Option<i64> {
    let t = trim_spec(s);
    if price_ok(t) {
        Some(price_val(t) as i64)
    } else {
        None
    }
}

proof fn lemma_find_dot_unique(s: Seq<char>, k: int)
    requires
        0 <= k <= s.len(),
        forall|j: int| 0 <= j < k ==> s[j] != '.',
        k < s.len() ==> s[k] == '.',
    ensures
        find_dot(s) == k,
{
    lemma_find_dot(s);
}

/// Parses trimmed input of the shape `D[.C[C]]` into minor currency units:
/// a single fractional digit counts tens of cents. Fails on an empty or
/// non-numeric dollar part, more than two fractional digits, or overflow.
pub fn parse_price(line: &str) -> (r: Option<i64>)
    ensures
        r == parse_price_spec(line@),
        r matches Some(v) ==> v >= 0,
{
    let t = trim_str(line);
    let tlen = t.unicode_len();
    let ghost ts = t@;
    let mut k: usize = 0;
    while k < tlen && t.get_char(k) != '.'
        invariant
            0 <= k <= tlen,
            tlen == ts.len(),
            t@ == ts,
            forall|j: int| 0 <= j < k ==> ts[j] != '.',
        decreases tlen - k,
    {
        k = k + 1;
    }
    proof {
        lemma_find_dot_unique(ts, k as int);
    }
    let dollars = t.substring_char(0, k);
    assert(dollars@ =~= ts.take(k as int));
    proof {
        if all_digits(ts.take(k as int)) {
            lemma_digits_val_nonneg(ts.take(k as int));
        }
    }
    let dollars_v: i64 = match parse_digits(dollars) {
        Some(v) => v,
        None => {
            proof {
                let d = ts.take(k as int);
                if d.len() > 0 && all_digits(d) {
                    // the dollar part alone already overflows
                    let cents = if k as int == ts.len() {
                        0
                    } else {
                        cents_val(ts.skip(k as int + 1))
                    };
                    if k as int != ts.len() && cents_ok(ts.skip(k as int + 1)) {
                        if ts.skip(k as int + 1).len() == 1 {
                            assert(is_digit(ts.skip(k as int + 1)[0]));
                        } else {
                            lemma_digits_val_nonneg(ts.skip(k as int + 1));
                        }
                    }
                }
            }
            return None;
        },
    };
    assert(digits_val(ts.take(k as int)) == dollars_v);
    let cents_v: u64 = if k == tlen {
        0
    } else {
        let clen = tlen - k - 1;
        let ghost cs = ts.skip(k as int + 1);
        assert(cs.len() == clen);
        if clen > 2 {
            assert(!cents_ok(cs));
            return None;
        }
        if clen == 0 {
            assert(cents_ok(cs));
            assert(cents_val(cs) == 0);
            0
        } else if clen == 1 {
            let c0 = t.get_char(k + 1);
            assert(c0 == cs[0]);
            if !is_digit_exec(c0) {
                assert(!cents_ok(cs));
                return None;
            }
            assert(cents_ok(cs)) by {
                assert(forall|i: int| 0 <= i < cs.len() ==> cs[i] == c0);
            }
            digit_of(c0) * 10
        } else {
            let c0 = t.get_char(k + 1);
            let c1 = t.get_char(k + 2);
            assert(c0 == cs[0] && c1 == cs[1]);
            if !is_digit_exec(c0) || !is_digit_exec(c1) {
                assert(!cents_ok(cs));
                return None;
            }
            assert(cents_ok(cs)) by {
                assert(forall|i: int| 0 <= i < cs.len() ==> cs[i] == c0 || cs[i] == c1);
            }
            proof {
                lemma_digits_val2(cs);
            }
            digit_of(c0) * 10 + digit_of(c1)
        }
    };
    assert(cents_v <= 99);
    assert(price_val(ts) == dollars_v * 100 + cents_v);
    if dollars_v > 92_233_720_368_547_758 || (dollars_v == 92_233_720_368_547_758 && cents_v > 7) {
        assert(price_val(ts) > i64::MAX);
        return None;
    }
    assert(price_ok(ts));
    Some(dollars_v * 100 + cents_v as i64)
}

/// The decimal digit characters of `n`, most significant first, no leading
/// zeros (a single `'0'` for zero).
pub open spec fn dec_digits(n: int) -> Seq<char>
    decreases n,
{
    if n <= 9 {
        seq![digit_char(n)]
    } else {
        dec_digits(n / 10).push(digit_char(n % 10))
    }
}

pub open spec fn digit_char(d: int) -> char {
    if d == 0 {
        '0'
    } else if d == 1 {
        '1'
    } else if d == 2 {
        '2'
    } else if d == 3 {
        '3'
    } else if d == 4 {
        '4'
    } else if d == 5 {
        '5'
    } else if d == 6 {
        '6'
    } else if d == 7 {
        '7'
    } else if d == 8 {
        '8'
    } else {
        '9'
    }
}

/// What `format_price` returns: the dollar digits, a dot, and exactly two
/// cent digits.
pub open spec fn format_price_spec(p: int) -> Seq<char> {
    dec_digits(p / 100) + seq!['.', digit_char((p % 100) / 10), digit_char(p % 100 % 10)]
}

/// Relies on `String::push`: appends the character to the string.
pub assume_specification[ String::push ](s: &mut String, c: char)
    ensures
        final(s)@ == old(s)@.push(c),
;

fn digit_char_of(d: u64) -> (c: char)
    requires
        d <= 9,
    ensures
        c == digit_char(d as int),
{
    if d == 0 {
        '0'
    } else if d == 1 {
        '1'
    } else if d == 2 {
        '2'
    } else if d == 3 {
        '3'
    } else if d == 4 {
        '4'
    } else if d == 5 {
        '5'
    } else if d == 6 {
        '6'
    } else if d == 7 {
        '7'
    } else if d == 8 {
        '8'
    } else {
        '9'
    }
}

fn push_dec(n: u64, out: &mut String)
    ensures
        final(out)@ == old(out)@ + dec_digits(n as int),
    decreases n,
{
    if n <= 9 {
        out.push(digit_char_of(n));
        assert(final(out)@ =~= old(out)@ + dec_digits(n as int));
    } else {
        push_dec(n / 10, out);
        out.push(digit_char_of(n % 10));
        assert(final(out)@ =~= old(out)@ + dec_digits(n as int));
    }
}

/// Formats a nonnegative price in minor units as `D.CC`, always with two
/// cent digits.
pub fn format_price(price: i64) -> (r: String)
    requires
        price >= 0,
    ensures
        r@ == format_price_spec(price as int),
{
    let p = price as u64;
    let mut s = String::new();
    push_dec(p / 100, &mut s);
    s.push('.');
    let c = p % 100;
    s.push(digit_char_of(c / 10));
    s.push(digit_char_of(c % 10));
    assert(s@ =~= format_price_spec(price as int));
    s
}

pub open spec fn is_leap_year(y: int) -> bool {
    (y % 4 == 0 && y % 100 != 0) || y % 400 == 0
}

pub open spec fn days_in_month(y: int, m: int) -> int {
    if m == 2 {
        if is_leap_year(y) {
            29
        } else {
            28
        }
    } else if m == 4 || m == 6 || m == 9 || m == 11 {
        30
    } else {
        31
    }
}

pub open spec fn date_year(s: Seq<char>) -> int {
    digits_val(s.take(4))
}

pub open spec fn date_month(s: Seq<char>) -> int {
    digits_val(s.subrange(5, 7))
}

pub open spec fn date_day(s: Seq<char>) -> int {
    digits_val(s.subrange(8, 10))
}

/// A strict ISO-8601 calendar date: exactly `YYYY-MM-DD`, with a real
/// month and a day that exists in that month of that year.
pub open spec fn valid_date_str(s: Seq<char>) -> bool {
    &&& s.len() == 10
    &&& all_digits(s.take(4))
    &&& s[4] == '-'
    &&& all_digits(s.subrange(5, 7))
    &&& s[7] == '-'
    &&& all_digits(s.subrange(8, 10))
    &&& 1 <= date_month(s) <= 12
    &&& 1 <= date_day(s) <= days_in_month(date_year(s), date_month(s))
}

/// A calendar date as plain year, month and day numbers.
#[derive(Clone, Copy, Debug, PartialEq, Eq, Structural)]
pub struct Date {
    pub year: u16,
    pub month: u8,
    pub day: u8,
}

impl Date {
    pub open spec fn wf(self) -> bool {
        &&& self.year <= 9999
        &&& 1 <= self.month <= 12
        &&& 1 <= self.day <= days_in_month(self.year as int, self.month as int)
    }
}

fn is_leap_year_exec(y: u64) -> (r: bool)
    ensures
        r == is_leap_year(y as int),
{
    (y % 4 == 0 && y % 100 != 0) || y % 400 == 0
}

fn days_in_month_exec(y: u64, m: u64) -> (r: u64)
    ensures
        r == days_in_month(y as int, m as int),
{
    if m == 2 {
        if is_leap_year_exec(y) {
            29
        } else {
            28
        }
    } else if m == 4 || m == 6 || m == 9 || m == 11 {
        30
    } else {
        31
    }
}

/// Reads the two decimal digits of `s` at `i`, or fails on a non-digit.
fn digits2_at(s: &str, i: usize) -> (r: Option<u64>)
    requires
        i + 2 <= s@.len(),
        s@.len() <= usize::MAX,
    ensures
        r.is_some() == all_digits(s@.subrange(i as int, i as int + 2)),
        r matches Some(v) ==> v == digits_val(s@.subrange(i as int, i as int + 2)) && v <= 99,
{
    let c0 = s.get_char(i);
    let c1 = s.get_char(i + 1);
    let ghost q = s@.subrange(i as int, i as int + 2);
    assert(c0 == q[0] && c1 == q[1]);
    if !is_digit_exec(c0) || !is_digit_exec(c1) {
        assert(!all_digits(q));
        return None;
    }
    assert(all_digits(q)) by {
        assert(forall|j: int| 0 <= j < q.len() ==> q[j] == c0 || q[j] == c1);
    }
    proof {
        lemma_digits_val2(q);
    }
    Some(digit_of(c0) * 10 + digit_of(c1))
}

/// Parses a strict ISO-8601 calendar date, with no trimming: the input must
/// be exactly `YYYY-MM-DD`.
pub fn parse_date_strict(t: &str) -> (r: Option<Date>)
    ensures
        r.is_some() == valid_date_str(t@),
        r matches Some(d) ==> d.wf() && d.year == date_year(t@) && d.month == date_month(t@)
            && d.day == date_day(t@),
{
    let ghost ts = t@;
    if t.unicode_len() != 10 {
        return None;
    }
    if t.get_char(4) != '-' || t.get_char(7) != '-' {
        return None;
    }
    let y_hi = match digits2_at(t, 0) {
        Some(v) => v,
        None => {
            assert(!all_digits(ts.take(4))) by {
                assert(forall|j: int| 0 <= j < 2 ==> ts.take(4)[j] == ts.subrange(0, 2)[j]);
            }
            return None;
        },
    };
    let y_lo = match digits2_at(t, 2) {
        Some(v) => v,
        None => {
            assert(!all_digits(ts.take(4))) by {
                assert(forall|j: int| 0 <= j < 2 ==> ts.take(4)[j + 2] == ts.subrange(2, 4)[j]);
            }
            return None;
        },
    };
    let y = y_hi * 100 + y_lo;
    assert(all_digits(ts.take(4)) && y == date_year(ts)) by {
        let q = ts.take(4);
        lemma_digits_val_split4(q);
        assert(q.subrange(0, 2) =~= ts.subrange(0, 2));
        assert(q.subrange(2, 4) =~= ts.subrange(2, 4));
        assert(forall|j: int| 0 <= j < 4 ==> q[j] == if j < 2 {
            ts.subrange(0, 2)[j]
        } else {
            ts.subrange(2, 4)[j - 2]
        });
    }
    let m = match digits2_at(t, 5) {
        Some(v) => v,
        None => {
            return None;
        },
    };
    let d = match digits2_at(t, 8) {
        Some(v) => v,
        None => {
            return None;
        },
    };
    if m < 1 || m > 12 {
        return None;
    }
    let dim = days_in_month_exec(y, m);
    if d < 1 || d > dim {
        return None;
    }
    assert(valid_date_str(ts));
    Some(Date { year: y as u16, month: m as u8, day: d as u8 })
}

/// Parses a strict ISO-8601 calendar date, after trimming whitespace; any
/// other textual form fails.
pub fn parse_date(line: &str) -> (r: Option<Date>)
    ensures
        r.is_some() == valid_date_str(trim_spec(line@)),
        r matches Some(d) ==> d.wf() && d.year == date_year(trim_spec(line@)) && d.month
            == date_month(trim_spec(line@)) && d.day == date_day(trim_spec(line@)),
{
    parse_date_strict(trim_str(line))
}

/// Relies on chrono's `Local::now`, formatted with `%F` (`YYYY-MM-DD`), for
/// the current calendar date; the result depends on the system clock.
#[verifier::external_body]
pub fn today() -> (r: String) {
    chrono::offset::Local::now().format("%F").to_string()
}

} // verus!
