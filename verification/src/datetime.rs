//! The date and time specification of RFC 5322 section 3.3.
//!
//! Day and month names are matched without regard to case, as ABNF quoted
//! strings are.
use vstd::prelude::*;
use crate::scan::{
    agrees, ascii_lower, starts_ci, class_has, class_run, group_skip, in_class, scan_class, to_lower, Class,
};
use crate::scan::{lemma_class_run, lemma_class_run_append, lemma_classes};
use crate::lexical::{
    fws, opt_cfws, opt_fws, scan_fws, scan_opt_cfws, scan_opt_fws, quiet_start, lemma_no_cfws,
    lemma_fws_space,
};

verus! {

broadcast use group_skip;

/// The three lower-case letters of a day name.
pub open spec fn is_day_name(a: u8, b: u8, c: u8) -> bool {
    ||| (a == 109 && b == 111 && c == 110)
    ||| (a == 116 && b == 117 && c == 101)
    ||| (a == 119 && b == 101 && c == 100)
    ||| (a == 116 && b == 104 && c == 117)
    ||| (a == 102 && b == 114 && c == 105)
    ||| (a == 115 && b == 97 && c == 116)
    ||| (a == 115 && b == 117 && c == 110)
}

/// The three lower-case letters of a month name.
pub open spec fn is_month_name(a: u8, b: u8, c: u8) -> bool {
    ||| (a == 106 && b == 97 && c == 110)
    ||| (a == 102 && b == 101 && c == 98)
    ||| (a == 109 && b == 97 && c == 114)
    ||| (a == 97 && b == 112 && c == 114)
    ||| (a == 109 && b == 97 && c == 121)
    ||| (a == 106 && b == 117 && c == 110)
    ||| (a == 106 && b == 117 && c == 108)
    ||| (a == 97 && b == 117 && c == 103)
    ||| (a == 115 && b == 101 && c == 112)
    ||| (a == 111 && b == 99 && c == 116)
    ||| (a == 110 && b == 111 && c == 118)
    ||| (a == 100 && b == 101 && c == 99)
}

/// day-name = "Mon" / "Tue" / "Wed" / "Thu" / "Fri" / "Sat" / "Sun"
pub open spec fn day_name(t: Seq<u8>) -> bool {
    t.len() >= 3 && is_day_name(ascii_lower(t[0]), ascii_lower(t[1]), ascii_lower(t[2]))
}

/// month = "Jan" / "Feb" / ... / "Dec"
pub open spec fn month(t: Seq<u8>) -> Option<nat> {
    if t.len() >= 3 && is_month_name(ascii_lower(t[0]), ascii_lower(t[1]), ascii_lower(t[2])) {
        Some(3)
    } else {
        None
    }
}

fn name3_at(s: &[u8], i: usize, days: bool) -> (r: bool)
    requires
        i <= s.len(),
    ensures
        days ==> r == day_name(s@.skip(i as int)),
        !days ==> r == (month(s@.skip(i as int)) is Some),
{
    if s.len() - i < 3 {
        return false;
    }
    let a = to_lower(s[i]);
    let b = to_lower(s[i + 1]);
    let c = to_lower(s[i + 2]);
    if days {
        (a == 109 && b == 111 && c == 110) || (a == 116 && b == 117 && c == 101) || (a == 119 && b
            == 101 && c == 100) || (a == 116 && b == 104 && c == 117) || (a == 102 && b == 114 && c
            == 105) || (a == 115 && b == 97 && c == 116) || (a == 115 && b == 117 && c == 110)
    } else {
        (a == 106 && b == 97 && c == 110) || (a == 102 && b == 101 && c == 98) || (a == 109 && b
            == 97 && c == 114) || (a == 97 && b == 112 && c == 114) || (a == 109 && b == 97 && c
            == 121) || (a == 106 && b == 117 && c == 110) || (a == 106 && b == 117 && c == 108) || (
        a == 97 && b == 117 && c == 103) || (a == 115 && b == 101 && c == 112) || (a == 111 && b
            == 99 && c == 116) || (a == 110 && b == 111 && c == 118) || (a == 100 && b == 101 && c
            == 99)
    }
}

/// day-of-week = [FWS] day-name
#[verifier::opaque]
pub open spec fn day_of_week(t: Seq<u8>) -> Option<nat> {
    let f = opt_fws(t);
    if day_name(t.skip(f as int)) {
        Some(f + 3)
    } else {
        None
    }
}

pub fn scan_day_of_week(s: &[u8], i: usize) -> (r: Option<usize>)
    requires
        i <= s.len(),
    ensures
        agrees(r, day_of_week(s@.skip(i as int))),
        r matches Some(n) ==> i + n <= s.len(),
{
    reveal(day_of_week);
    let f = scan_opt_fws(s, i);
    assert(s@.skip(i as int).skip(f as int) == s@.skip(i + f));
    if name3_at(s, i + f, true) {
        Some(f + 3)
    } else {
        None
    }
}

/// The number of digits, at most two, at the start of `t`.
pub open spec fn one_or_two_digits(t: Seq<u8>) -> nat {
    if t.len() >= 1 && in_class(Class::Digit, t[0]) {
        if t.len() >= 2 && in_class(Class::Digit, t[1]) {
            2
        } else {
            1
        }
    } else {
        0
    }
}

/// day = [FWS] 1*2DIGIT FWS
#[verifier::opaque]
pub open spec fn day(t: Seq<u8>) -> Option<nat> {
    let f = opt_fws(t);
    let d = one_or_two_digits(t.skip(f as int));
    if d > 0 {
        match fws(t.skip((f + d) as int)) {
            Some(g) => Some(f + d + g),
            None => None,
        }
    } else {
        None
    }
}

pub fn scan_day(s: &[u8], i: usize) -> (r: Option<usize>)
    requires
        i <= s.len(),
    ensures
        agrees(r, day(s@.skip(i as int))),
        r matches Some(n) ==> i + n <= s.len(),
{
    reveal(day);
    let f = scan_opt_fws(s, i);
    let j = i + f;
    assert(s@.skip(i as int).skip(f as int) == s@.skip(j as int));
    let d: usize = if j < s.len() && class_has(Class::Digit, s[j]) {
        if s.len() - j >= 2 && class_has(Class::Digit, s[j + 1]) {
            2
        } else {
            1
        }
    } else {
        0
    };
    if d == 0 {
        return None;
    }
    assert(s@.skip(i as int).skip(f + d) == s@.skip(j + d));
    match scan_fws(s, j + d) {
        Some(g) => Some(f + d + g),
        None => None,
    }
}

pub fn scan_month(s: &[u8], i: usize) -> (r: Option<usize>)
    requires
        i <= s.len(),
    ensures
        agrees(r, month(s@.skip(i as int))),
        r matches Some(n) ==> i + n <= s.len(),
{
    if name3_at(s, i, false) {
        Some(3)
    } else {
        None
    }
}

/// year = FWS 4*DIGIT FWS
#[verifier::opaque]
pub open spec fn year(t: Seq<u8>) -> Option<nat> {
    match fws(t) {
        Some(f) => {
            let n = class_run(Class::Digit, t.skip(f as int));
            if n >= 4 {
                match fws(t.skip((f + n) as int)) {
                    Some(g) => Some(f + n + g),
                    None => None,
                }
            } else {
                None
            }
        },
        None => None,
    }
}

pub fn scan_year(s: &[u8], i: usize) -> (r: Option<usize>)
    requires
        i <= s.len(),
    ensures
        agrees(r, year(s@.skip(i as int))),
        r matches Some(n) ==> i + n <= s.len(),
{
    reveal(year);
    let f = match scan_fws(s, i) {
        Some(f) => f,
        None => {
            return None;
        },
    };
    let n = scan_class(Class::Digit, s, i + f);
    assert(s@.skip(i as int).skip(f as int) == s@.skip(i + f));
    if n < 4 {
        return None;
    }
    assert(s@.skip(i as int).skip(f + n) == s@.skip(i + f + n));
    match scan_fws(s, i + f + n) {
        Some(g) => Some(f + n + g),
        None => None,
    }
}

/// date = day month year
#[verifier::opaque]
pub open spec fn date(t: Seq<u8>) -> Option<nat> {
    match day(t) {
        Some(a) => match month(t.skip(a as int)) {
            Some(b) => match year(t.skip((a + b) as int)) {
                Some(c) => Some(a + b + c),
                None => None,
            },
            None => None,
        },
        None => None,
    }
}

pub fn scan_date(s: &[u8], i: usize) -> (r: Option<usize>)
    requires
        i <= s.len(),
    ensures
        agrees(r, date(s@.skip(i as int))),
        r matches Some(n) ==> i + n <= s.len(),
{
    reveal(date);
    let a = match scan_day(s, i) {
        Some(a) => a,
        None => {
            return None;
        },
    };
    assert(s@.skip(i as int).skip(a as int) == s@.skip(i + a));
    let b = match scan_month(s, i + a) {
        Some(b) => b,
        None => {
            return None;
        },
    };
    assert(s@.skip(i as int).skip(a + b) == s@.skip(i + a + b));
    match scan_year(s, i + a + b) {
        Some(c) => Some(a + b + c),
        None => None,
    }
}

/// `t` holds a digit at position `k`.
pub open spec fn digit_at(t: Seq<u8>, k: int) -> bool {
    0 <= k < t.len() && in_class(Class::Digit, t[k])
}

/// time-of-day = hour ":" minute [ ":" second ], each part two digits.
pub open spec fn time_of_day(t: Seq<u8>) -> Option<nat> {
    if digit_at(t, 0) && digit_at(t, 1) && t.len() > 2 && t[2] == 58 && digit_at(t, 3) && digit_at(
        t,
        4,
    ) {
        if t.len() > 5 && t[5] == 58 && digit_at(t, 6) && digit_at(t, 7) {
            Some(8)
        } else {
            Some(5)
        }
    } else {
        None
    }
}

fn digit_at_exec(s: &[u8], i: usize, k: usize) -> (r: bool)
    requires
        i <= s.len(),
        k < 16,
    ensures
        r == digit_at(s@.skip(i as int), k as int),
{
    s.len() - i > k && class_has(Class::Digit, s[i + k])
}

pub fn scan_time_of_day(s: &[u8], i: usize) -> (r: Option<usize>)
    requires
        i <= s.len(),
    ensures
        agrees(r, time_of_day(s@.skip(i as int))),
        r matches Some(n) ==> i + n <= s.len(),
{
    if digit_at_exec(s, i, 0) && digit_at_exec(s, i, 1) && s.len() - i > 2 && s[i + 2] == 58
        && digit_at_exec(s, i, 3) && digit_at_exec(s, i, 4) {
        if s.len() - i > 5 && s[i + 5] == 58 && digit_at_exec(s, i, 6) && digit_at_exec(s, i, 7) {
            Some(8)
        } else {
            Some(5)
        }
    } else {
        None
    }
}

/// zone = FWS ( "+" / "-" ) 4DIGIT
#[verifier::opaque]
pub open spec fn zone(t: Seq<u8>) -> Option<nat> {
    match fws(t) {
        Some(f) => {
            let u = t.skip(f as int);
            if u.len() >= 5 && (u[0] == 43 || u[0] == 45) && digit_at(u, 1) && digit_at(u, 2)
                && digit_at(u, 3) && digit_at(u, 4) {
                Some(f + 5)
            } else {
                None
            }
        },
        None => None,
    }
}

pub fn scan_zone(s: &[u8], i: usize) -> (r: Option<usize>)
    requires
        i <= s.len(),
    ensures
        agrees(r, zone(s@.skip(i as int))),
        r matches Some(n) ==> i + n <= s.len(),
{
    reveal(zone);
    let f = match scan_fws(s, i) {
        Some(f) => f,
        None => {
            return None;
        },
    };
    let j = i + f;
    assert(s@.skip(i as int).skip(f as int) == s@.skip(j as int));
    if s.len() - j >= 5 && (s[j] == 43 || s[j] == 45) && digit_at_exec(s, j, 1) && digit_at_exec(
        s,
        j,
        2,
    ) && digit_at_exec(s, j, 3) && digit_at_exec(s, j, 4) {
        Some(f + 5)
    } else {
        None
    }
}

/// time = time-of-day zone
#[verifier::opaque]
pub open spec fn time(t: Seq<u8>) -> Option<nat> {
    match time_of_day(t) {
        Some(a) => match zone(t.skip(a as int)) {
            Some(b) => Some(a + b),
            None => None,
        },
        None => None,
    }
}

pub fn scan_time(s: &[u8], i: usize) -> (r: Option<usize>)
    requires
        i <= s.len(),
    ensures
        agrees(r, time(s@.skip(i as int))),
        r matches Some(n) ==> i + n <= s.len(),
{
    reveal(time);
    let a = match scan_time_of_day(s, i) {
        Some(a) => a,
        None => {
            return None;
        },
    };
    assert(s@.skip(i as int).skip(a as int) == s@.skip(i + a));
    match scan_zone(s, i + a) {
        Some(b) => Some(a + b),
        None => None,
    }
}

/// The optional `day-of-week ","` that opens a date-time.
pub open spec fn weekday_prefix(t: Seq<u8>) -> nat {
    match day_of_week(t) {
        Some(d) => if d < t.len() && t[d as int] == 44 {
            d + 1
        } else {
            0
        },
        None => 0,
    }
}

/// date-time = [ day-of-week "," ] date time [CFWS]
#[verifier::opaque]
pub open spec fn date_time(t: Seq<u8>) -> Option<nat> {
    let a = weekday_prefix(t);
    match date(t.skip(a as int)) {
        Some(b) => match time(t.skip((a + b) as int)) {
            Some(c) => Some(a + b + c + opt_cfws(t.skip((a + b + c) as int))),
            None => None,
        },
        None => None,
    }
}

pub fn scan_date_time(s: &[u8], i: usize) -> (r: Option<usize>)
    requires
        i <= s.len(),
    ensures
        agrees(r, date_time(s@.skip(i as int))),
        r matches Some(n) ==> i + n <= s.len(),
{
    reveal(date_time);
    let a: usize = match scan_day_of_week(s, i) {
        Some(d) => if i + d < s.len() && s[i + d] == 44 {
            d + 1
        } else {
            0
        },
        None => 0,
    };
    assert(s@.skip(i as int).skip(a as int) == s@.skip(i + a));
    let b = match scan_date(s, i + a) {
        Some(b) => b,
        None => {
            return None;
        },
    };
    assert(s@.skip(i as int).skip(a + b) == s@.skip(i + a + b));
    let c = match scan_time(s, i + a + b) {
        Some(c) => c,
        None => {
            return None;
        },
    };
    let d = scan_opt_cfws(s, i + a + b + c);
    assert(s@.skip(i as int).skip(a + b + c) == s@.skip(i + a + b + c));
    Some(a + b + c + d)
}


/// Every byte of `x` is a decimal digit.
pub open spec fn all_digits(x: Seq<u8>) -> bool {
    forall|i: int| 0 <= i < x.len() ==> in_class(Class::Digit, #[trigger] x[i])
}

proof fn lemma_digit_quiet(t: Seq<u8>)
    requires
        t.len() > 0,
        in_class(Class::Digit, t[0]),
    ensures
        quiet_start(t),
{
    lemma_classes(t[0]);
}

proof fn lemma_digits_run(x: Seq<u8>, rest: Seq<u8>)
    requires
        all_digits(x),
        !(rest.len() > 0 && in_class(Class::Digit, rest[0])),
    ensures
        class_run(Class::Digit, x + rest) == x.len(),
{
    lemma_class_run_append(Class::Digit, x, rest);
    lemma_class_run(Class::Digit, x);
}

proof fn lemma_day_takes(d: Seq<u8>, x: Seq<u8>)
    requires
        all_digits(d),
        1 <= d.len() <= 2,
        quiet_start(x),
    ensures
        day(seq![32u8] + d + seq![32u8] + x) == Some(d.len() + 2),
{
    reveal(day);
    let t = seq![32u8] + d + seq![32u8] + x;
    let v = d + seq![32u8] + x;
    assert(t =~= seq![32u8] + v);
    assert(v[0] == d[0]);
    lemma_digit_quiet(v);
    lemma_fws_space(v);
    assert(t.skip(1) =~= v);
    assert(v[d.len() as int] == 32);
    assert(one_or_two_digits(v) == d.len());
    assert(t.skip((1 + d.len()) as int) =~= seq![32u8] + x);
    lemma_fws_space(x);
}

proof fn lemma_month_takes(k: int, x: Seq<u8>)
    requires
        0 <= k < 12,
    ensures
        month(month_names()[k] + x) == Some(3nat),
{
    let m = month_names()[k];
    let t = m + x;
    assert(m.len() == 3);
    assert forall|j: int| 0 <= j < m.len() implies ascii_lower(#[trigger] t[j]) == ascii_lower(
        m[j],
    ) by {
        assert(t[j] == m[j]);
    }
    assert(starts_ci(t, month_names()[k]));
    lemma_month_names(t);
}

proof fn lemma_year_takes(y: Seq<u8>, x: Seq<u8>)
    requires
        all_digits(y),
        y.len() >= 4,
        quiet_start(x),
    ensures
        year(seq![32u8] + y + seq![32u8] + x) == Some(y.len() + 2),
{
    reveal(year);
    let t = seq![32u8] + y + seq![32u8] + x;
    let v = y + seq![32u8] + x;
    assert(t =~= seq![32u8] + v);
    assert(v[0] == y[0]);
    lemma_digit_quiet(v);
    lemma_fws_space(v);
    assert(t.skip(1) =~= v);
    assert(v =~= y + (seq![32u8] + x));
    lemma_classes(32);
    lemma_digits_run(y, seq![32u8] + x);
    assert(t.skip((1 + y.len()) as int) =~= seq![32u8] + x);
    lemma_fws_space(x);
}

/// A date as it is usually written, with a space before and after it: the
/// day `d`, the month `k` (counting from zero at January) and the year `y`.
pub open spec fn date_text(d: Seq<u8>, k: int, y: Seq<u8>) -> Seq<u8> {
    seq![32u8] + d + seq![32u8] + month_names()[k] + seq![32u8] + y + seq![32u8]
}

proof fn lemma_date_takes(d: Seq<u8>, k: int, y: Seq<u8>, x: Seq<u8>)
    requires
        all_digits(d),
        1 <= d.len() <= 2,
        0 <= k < 12,
        all_digits(y),
        y.len() >= 4,
        quiet_start(x),
    ensures
        date(date_text(d, k, y) + x) == Some(date_text(d, k, y).len()),
{
    reveal(date);
    let m = month_names()[k];
    assert(m.len() == 3);
    let t = date_text(d, k, y) + x;
    let x1 = m + seq![32u8] + y + seq![32u8] + x;
    assert(t =~= seq![32u8] + d + seq![32u8] + x1);
    assert(x1[0] == m[0]);
    lemma_classes(m[0]);
    lemma_day_takes(d, x1);
    assert(t.skip((d.len() + 2) as int) =~= x1);
    assert(x1 =~= m + (seq![32u8] + y + seq![32u8] + x));
    lemma_month_takes(k, seq![32u8] + y + seq![32u8] + x);
    assert(t.skip((d.len() + 5) as int) =~= seq![32u8] + y + seq![32u8] + x);
    lemma_year_takes(y, x);
}

/// The time of day as hours, minutes and, where `s` is not empty, seconds.
pub open spec fn time_of_day_text(h: Seq<u8>, mi: Seq<u8>, s: Seq<u8>) -> Seq<u8> {
    h + seq![58u8] + mi + (if s.len() == 0 {
        seq![]
    } else {
        seq![58u8] + s
    })
}

/// A time as it is usually written: the time of day, a space, and the zone
/// as its sign and four digits `z`.
pub open spec fn time_text(h: Seq<u8>, mi: Seq<u8>, s: Seq<u8>, sign: u8, z: Seq<u8>) -> Seq<u8> {
    time_of_day_text(h, mi, s) + seq![32u8, sign] + z
}

/// Two decimal digits.
pub open spec fn two_digits(x: Seq<u8>) -> bool {
    x.len() == 2 && all_digits(x)
}

proof fn lemma_time_takes(h: Seq<u8>, mi: Seq<u8>, s: Seq<u8>, sign: u8, z: Seq<u8>, x: Seq<u8>)
    requires
        two_digits(h),
        two_digits(mi),
        s.len() == 0 || two_digits(s),
        sign == 43 || sign == 45,
        z.len() == 4,
        all_digits(z),
        quiet_start(x),
    ensures
        time(time_text(h, mi, s, sign, z) + x) == Some(time_text(h, mi, s, sign, z).len()),
{
    reveal(time);
    reveal(zone);
    let a = time_of_day_text(h, mi, s);
    let t = time_text(h, mi, s, sign, z) + x;
    assert(t =~= a + seq![32u8, sign] + z + x);
    assert(t[0] == h[0] && t[1] == h[1] && t[2] == 58 && t[3] == mi[0] && t[4] == mi[1]);
    if s.len() == 0 {
        assert(a.len() == 5);
        assert(t[5] == 32);
        assert(time_of_day(t) == Some(5nat));
    } else {
        assert(a.len() == 8);
        assert(t[5] == 58 && t[6] == s[0] && t[7] == s[1]);
        assert(time_of_day(t) == Some(8nat));
    }
    let v = seq![sign] + z + x;
    assert(t.skip(a.len() as int) =~= seq![32u8] + v);
    lemma_classes(sign);
    lemma_fws_space(v);
    assert((seq![32u8] + v).skip(1) =~= v);
    assert(v[0] == sign && v[1] == z[0] && v[2] == z[1] && v[3] == z[2] && v[4] == z[3]);
}

/// The optional day name and comma that open a date-time.
pub open spec fn weekday_text(wk: Option<int>) -> Seq<u8> {
    match wk {
        Some(j) => day_names()[j] + seq![44u8],
        None => seq![],
    }
}

proof fn lemma_weekday_prefix_takes(wk: Option<int>, u: Seq<u8>)
    requires
        wk matches Some(j) ==> 0 <= j < 7,
        u.len() > 1,
        u[0] == 32,
        in_class(Class::Digit, u[1]),
    ensures
        weekday_prefix(weekday_text(wk) + u) == weekday_text(wk).len(),
{
    reveal(day_of_week);
    let w = weekday_text(wk);
    let t = w + u;
    let v = u.skip(1);
    assert(u =~= seq![32u8] + v);
    assert(v[0] == u[1]);
    lemma_digit_quiet(v);
    match wk {
        Some(j) => {
            let n = day_names()[j];
            assert(w.len() == 4);
            assert(t[0] == n[0] && t[1] == n[1] && t[2] == n[2] && t[3] == 44);
            lemma_classes(t[0]);
            lemma_no_cfws(t);
            assert(t.skip(0) =~= t);
            assert forall|i: int| 0 <= i < n.len() implies ascii_lower(#[trigger] t[i])
                == ascii_lower(n[i]) by {
                assert(t[i] == n[i]);
            }
            assert(starts_ci(t, day_names()[j]));
            lemma_day_names(t);
        },
        None => {
            assert(t =~= u);
            lemma_fws_space(v);
            lemma_classes(v[0]);
        },
    }
}

/// A date-time as it is usually written, e.g. `Tue, 1 Jul 2003 10:52:37 +0200`
/// with a space in front of the day: an optional day name, the date and the
/// time.
pub open spec fn date_time_text(
    wk: Option<int>,
    d: Seq<u8>,
    k: int,
    y: Seq<u8>,
    h: Seq<u8>,
    mi: Seq<u8>,
    s: Seq<u8>,
    sign: u8,
    z: Seq<u8>,
) -> Seq<u8> {
    weekday_text(wk) + date_text(d, k, y) + time_text(h, mi, s, sign, z)
}

/// Every date-time written in the usual form, with or without a day name
/// and seconds, in either sign of zone and any month, is read whole, up to
/// whatever follows it that cannot begin comments or white space.
pub proof fn lemma_date_time_takes(
    wk: Option<int>,
    d: Seq<u8>,
    k: int,
    y: Seq<u8>,
    h: Seq<u8>,
    mi: Seq<u8>,
    s: Seq<u8>,
    sign: u8,
    z: Seq<u8>,
    rest: Seq<u8>,
)
    requires
        wk matches Some(j) ==> 0 <= j < 7,
        all_digits(d),
        1 <= d.len() <= 2,
        0 <= k < 12,
        all_digits(y),
        y.len() >= 4,
        two_digits(h),
        two_digits(mi),
        s.len() == 0 || two_digits(s),
        sign == 43 || sign == 45,
        z.len() == 4,
        all_digits(z),
        quiet_start(rest),
    ensures
        date_time(date_time_text(wk, d, k, y, h, mi, s, sign, z) + rest) == Some(
            date_time_text(wk, d, k, y, h, mi, s, sign, z).len(),
        ),
{
    reveal(date_time);
    let w = weekday_text(wk);
    let dt = date_text(d, k, y);
    let tt = time_text(h, mi, s, sign, z);
    let x2 = tt + rest;
    let u = dt + x2;
    let t = date_time_text(wk, d, k, y, h, mi, s, sign, z) + rest;
    assert(t =~= w + u);
    assert(u[0] == 32 && u[1] == d[0]);
    lemma_weekday_prefix_takes(wk, u);
    assert(x2[0] == h[0]);
    lemma_digit_quiet(x2);
    lemma_date_takes(d, k, y, x2);
    lemma_time_takes(h, mi, s, sign, z, rest);
    lemma_no_cfws(rest);
    let p = w.len();
    assert(t.skip(p as int) =~= u);
    assert(t.skip((p + dt.len()) as int) =~= x2);
    assert(t.skip((p + dt.len() + tt.len()) as int) =~= rest);
}

/// The month names of RFC 5322 section 3.3, `Jan` to `Dec`, in order.
pub open spec fn month_names() -> Seq<Seq<u8>> {
    seq![
        seq![74u8, 97, 110],
        seq![70u8, 101, 98],
        seq![77u8, 97, 114],
        seq![65u8, 112, 114],
        seq![77u8, 97, 121],
        seq![74u8, 117, 110],
        seq![74u8, 117, 108],
        seq![65u8, 117, 103],
        seq![83u8, 101, 112],
        seq![79u8, 99, 116],
        seq![78u8, 111, 118],
        seq![68u8, 101, 99],
    ]
}

/// The day names of RFC 5322 section 3.3, `Mon` to `Sun`, in order.
pub open spec fn day_names() -> Seq<Seq<u8>> {
    seq![
        seq![77u8, 111, 110],
        seq![84u8, 117, 101],
        seq![87u8, 101, 100],
        seq![84u8, 104, 117],
        seq![70u8, 114, 105],
        seq![83u8, 97, 116],
        seq![83u8, 117, 110],
    ]
}

/// Whether `t` starts with one of the names, ignoring case.
pub open spec fn starts_with_one_of(t: Seq<u8>, names: Seq<Seq<u8>>) -> bool {
    exists|k: int| 0 <= k < names.len() && #[trigger] starts_ci(t, names[k])
}

proof fn lemma_starts_ci3(t: Seq<u8>, name: Seq<u8>)
    requires
        name.len() == 3,
    ensures
        starts_ci(t, name) <==> (t.len() >= 3 && ascii_lower(t[0]) == ascii_lower(name[0])
            && ascii_lower(t[1]) == ascii_lower(name[1]) && ascii_lower(t[2]) == ascii_lower(
            name[2],
        )),
{
    if t.len() >= 3 && ascii_lower(t[0]) == ascii_lower(name[0]) && ascii_lower(t[1])
        == ascii_lower(name[1]) && ascii_lower(t[2]) == ascii_lower(name[2]) {
        assert forall|k: int| 0 <= k < name.len() implies ascii_lower(#[trigger] t[k])
            == ascii_lower(name[k]) by {
            if k == 0 {
            } else if k == 1 {
            } else {
            }
        }
    }
}

/// A month is exactly one of the twelve month names, in any case, and takes
/// three bytes.
pub proof fn lemma_month_names(t: Seq<u8>)
    ensures
        month(t) is Some <==> starts_with_one_of(t, month_names()),
        month(t) is Some ==> month(t) == Some(3nat),
{
    let ns = month_names();
    assert forall|k: int| 0 <= k < 12 implies (#[trigger] starts_ci(t, ns[k]) <==> (t.len() >= 3
        && ascii_lower(t[0]) == ascii_lower(ns[k][0]) && ascii_lower(t[1]) == ascii_lower(
        ns[k][1],
    ) && ascii_lower(t[2]) == ascii_lower(ns[k][2]))) by {
        lemma_starts_ci3(t, ns[k]);
    }
    if month(t) is Some {
        let (a, b, c) = (ascii_lower(t[0]), ascii_lower(t[1]), ascii_lower(t[2]));
        if a == 106 && b == 97 && c == 110 { assert(starts_ci(t, ns[0])); }
        else if a == 102 && b == 101 && c == 98 { assert(starts_ci(t, ns[1])); }
        else if a == 109 && b == 97 && c == 114 { assert(starts_ci(t, ns[2])); }
        else if a == 97 && b == 112 && c == 114 { assert(starts_ci(t, ns[3])); }
        else if a == 109 && b == 97 && c == 121 { assert(starts_ci(t, ns[4])); }
        else if a == 106 && b == 117 && c == 110 { assert(starts_ci(t, ns[5])); }
        else if a == 106 && b == 117 && c == 108 { assert(starts_ci(t, ns[6])); }
        else if a == 97 && b == 117 && c == 103 { assert(starts_ci(t, ns[7])); }
        else if a == 115 && b == 101 && c == 112 { assert(starts_ci(t, ns[8])); }
        else if a == 111 && b == 99 && c == 116 { assert(starts_ci(t, ns[9])); }
        else if a == 110 && b == 111 && c == 118 { assert(starts_ci(t, ns[10])); }
        else { assert(starts_ci(t, ns[11])); }
    }
    if starts_with_one_of(t, ns) {
        let k = choose|k: int| 0 <= k < ns.len() && #[trigger] starts_ci(t, ns[k]);
        assert(0 <= k < 12);
    }
}

/// A day name is exactly one of the seven day names, in any case.
pub proof fn lemma_day_names(t: Seq<u8>)
    ensures
        day_name(t) <==> starts_with_one_of(t, day_names()),
{
    let ns = day_names();
    assert forall|k: int| 0 <= k < 7 implies (#[trigger] starts_ci(t, ns[k]) <==> (t.len() >= 3
        && ascii_lower(t[0]) == ascii_lower(ns[k][0]) && ascii_lower(t[1]) == ascii_lower(
        ns[k][1],
    ) && ascii_lower(t[2]) == ascii_lower(ns[k][2]))) by {
        lemma_starts_ci3(t, ns[k]);
    }
    if day_name(t) {
        let (a, b, c) = (ascii_lower(t[0]), ascii_lower(t[1]), ascii_lower(t[2]));
        if a == 109 && b == 111 && c == 110 { assert(starts_ci(t, ns[0])); }
        else if a == 116 && b == 117 && c == 101 { assert(starts_ci(t, ns[1])); }
        else if a == 119 && b == 101 && c == 100 { assert(starts_ci(t, ns[2])); }
        else if a == 116 && b == 104 && c == 117 { assert(starts_ci(t, ns[3])); }
        else if a == 102 && b == 114 && c == 105 { assert(starts_ci(t, ns[4])); }
        else if a == 115 && b == 97 && c == 116 { assert(starts_ci(t, ns[5])); }
        else { assert(starts_ci(t, ns[6])); }
    }
    if starts_with_one_of(t, ns) {
        let k = choose|k: int| 0 <= k < ns.len() && #[trigger] starts_ci(t, ns[k]);
        assert(0 <= k < 7);
    }
}

} // verus!
