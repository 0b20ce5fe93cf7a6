//! Calendar dates and times of day.
use crate::text::{
    chars_of, code, digits_value, lemma_digits_of_nat, lemma_digits_prefix, nat_text, show_u64,
    trim, trimmed,
};
use vstd::prelude::*;

verus! {

/// Days from the first of March to the first of the month that comes `k` months later.
pub open spec fn march_offset(k: int) -> int {
    if k == 0 {
        0
    } else if k == 1 {
        31
    } else if k == 2 {
        61
    } else if k == 3 {
        92
    } else if k == 4 {
        122
    } else if k == 5 {
        153
    } else if k == 6 {
        184
    } else if k == 7 {
        214
    } else if k == 8 {
        245
    } else if k == 9 {
        275
    } else if k == 10 {
        306
    } else {
        337
    }
}

/// The number of days from 1970-01-01 to a date of the Gregorian calendar.
pub open spec fn days_from_civil(y: int, m: int, d: int) -> int {
    // Years begin in March here, so that a leap day ends its year.
    let my = if m <= 2 {
        y - 1
    } else {
        y
    };
    let k = if m <= 2 {
        m + 9
    } else {
        m - 3
    };
    365 * my + my / 4 - my / 100 + my / 400 + march_offset(k) + (d - 1) - 719468
}

/// Whether a year has a leap day.
pub open spec fn leap(y: int) -> bool {
    y % 4 == 0 && (y % 100 != 0 || y % 400 == 0)
}

/// The number of days of a month.
pub open spec fn month_days(y: int, m: int) -> int {
    if m == 2 {
        if leap(y) {
            29
        } else {
            28
        }
    } else if m == 4 || m == 6 || m == 9 || m == 11 {
        30
    } else {
        31
    }
}

/// Whether year, month and day name a date of the calendar.
pub open spec fn is_date(y: int, m: int, d: int) -> bool {
    1 <= m <= 12 && 1 <= d <= month_days(y, m)
}

/// The date that lies `days` days after 1970-01-01.
pub open spec fn civil_date(days: int) -> (int, int, int) {
    choose|p: (int, int, int)|
        is_date(p.0, p.1, p.2) && #[trigger] days_from_civil(p.0, p.1, p.2) == days
}

proof fn lemma_year_of_era(doe: int) -> (yoe: int)
    requires
        0 <= doe <= 146096,
    ensures
        yoe == (doe - doe / 1460 + doe / 36524 - doe / 146096) / 365,
        0 <= yoe <= 399,
        0 <= doe - (365 * yoe + yoe / 4 - yoe / 100) <= 365,
        doe - (365 * yoe + yoe / 4 - yoe / 100) == 365 ==> leap(yoe + 1),
{
    let yoe = (doe - doe / 1460 + doe / 36524 - doe / 146096) / 365;
    let c = doe / 36524;
    assert(0 <= c <= 4);
    let r = doe - c * 36524;
    let n = doe - doe / 1460 + doe / 36524 - doe / 146096;
    let q = doe / 1460;
    assert(0 <= q <= 100);
    assert(0 <= yoe <= 399);
    let cy = yoe / 100;
    assert(0 <= cy <= 3);
    let fy = yoe / 4;
    assert(0 <= fy <= 99);
    yoe
}

proof fn lemma_month(doy: int)
    requires
        0 <= doy <= 365,
    ensures
        ({
            let mp = (5 * doy + 2) / 153;
            let d = doy - (153 * mp + 2) / 5 + 1;
            &&& 0 <= mp <= 11
            &&& march_offset(mp) == (153 * mp + 2) / 5
            &&& 1 <= d <= 31
            &&& (mp == 1 || mp == 3 || mp == 6 || mp == 8) ==> d <= 30
            &&& mp == 11 ==> d <= 29
            &&& mp == 11 && d == 29 ==> doy == 365
        }),
{
}

proof fn lemma_era(yoe: int, era: int)
    requires
        0 <= yoe <= 399,
    ensures
        (yoe + era * 400) / 4 == yoe / 4 + 100 * era,
        (yoe + era * 400) / 100 == yoe / 100 + 4 * era,
        (yoe + era * 400) / 400 == era,
        leap(yoe + 1) ==> leap(yoe + era * 400 + 1),
{
}

/// The date `doy` days into the year that begins in March of year `my`.
fn march_date(my: i64, doy: i64) -> (r: (i64, i64, i64))
    requires
        0 <= doy <= 365,
        doy == 365 ==> leap(my + 1),
        -0x1000_0000_0000_0000 < my < 0x1000_0000_0000_0000,
    ensures
        is_date(r.0 as int, r.1 as int, r.2 as int),
        days_from_civil(r.0 as int, r.1 as int, r.2 as int) == march_start(my as int) + doy - 719468,
{
    proof {
        lemma_month(doy as int);
    }
    let mp: i64 = (5 * doy + 2) / 153;
    let d: i64 = doy - (153 * mp + 2) / 5 + 1;
    let m: i64 = if mp < 10 {
        mp + 3
    } else {
        mp - 9
    };
    let y: i64 = if m <= 2 {
        my + 1
    } else {
        my
    };
    (y, m, d)
}

/// The date that lies `days` days after 1970-01-01, as year, month and day.
pub fn civil(days: i64) -> (r: (i64, i64, i64))
    requires
        -0x1000_0000_0000_0000 < days < 0x1000_0000_0000_0000,
    ensures
        is_date(r.0 as int, r.1 as int, r.2 as int),
        days_from_civil(r.0 as int, r.1 as int, r.2 as int) == days,
        (r.0 as int, r.1 as int, r.2 as int) == civil_date(days as int),
{
    let z: i64 = days + 719468;
    let era: i64 = if z >= 0 {
        z / 146097
    } else {
        -((-z + 146096) / 146097)
    };
    let doe: i64 = z - era * 146097;
    assert(0 <= doe <= 146096);
    proof {
        lemma_year_of_era(doe as int);
    }
    let yoe: i64 = (doe - doe / 1460 + doe / 36524 - doe / 146096) / 365;
    let doy: i64 = doe - (365 * yoe + yoe / 4 - yoe / 100);
    let my: i64 = yoe + era * 400;
    proof {
        lemma_month(doy as int);
        lemma_era(yoe as int, era as int);
    }
    assert(march_start(my as int) + doy == days + 719468);
    let r = march_date(my, doy);
    proof {
        lemma_civil_date(r.0 as int, r.1 as int, r.2 as int);
    }
    r
}

/// A date is the one that lies as many days after 1970-01-01 as it lies.
pub proof fn lemma_civil_date(y: int, m: int, d: int)
    requires
        is_date(y, m, d),
    ensures
        civil_date(days_from_civil(y, m, d)) == (y, m, d),
{
    let days = days_from_civil(y, m, d);
    let p = (y, m, d);
    assert(is_date(p.0, p.1, p.2) && days_from_civil(p.0, p.1, p.2) == days);
    let q = civil_date(days);
    lemma_civil_unique(q.0, q.1, q.2, y, m, d);
}

/// No two dates lie on the same day.
pub proof fn lemma_civil_unique(y1: int, m1: int, d1: int, y2: int, m2: int, d2: int)
    requires
        is_date(y1, m1, d1),
        is_date(y2, m2, d2),
        days_from_civil(y1, m1, d1) == days_from_civil(y2, m2, d2),
    ensures
        y1 == y2 && m1 == m2 && d1 == d2,
{
    let a1 = if m1 <= 2 {
        y1 - 1
    } else {
        y1
    };
    let a2 = if m2 <= 2 {
        y2 - 1
    } else {
        y2
    };
    if a1 < a2 {
        lemma_year_start(a1, a2);
    }
    if a2 < a1 {
        lemma_year_start(a2, a1);
    }
    lemma_day_of_year(y1, m1, d1);
    lemma_day_of_year(y2, m2, d2);
}

/// The first day of the year that begins in March of year `a`.
pub open spec fn march_start(a: int) -> int {
    365 * a + a / 4 - a / 100 + a / 400
}

proof fn lemma_next_year(a: int)
    ensures
        march_start(a + 1) >= march_start(a) + 365,
        leap(a + 1) ==> march_start(a + 1) >= march_start(a) + 366,
{
    assert((a + 1) / 4 - a / 4 == if (a + 1) % 4 == 0 {
        1int
    } else {
        0
    });
    assert((a + 1) / 100 - a / 100 == if (a + 1) % 100 == 0 {
        1int
    } else {
        0
    });
    assert((a + 1) / 400 - a / 400 == if (a + 1) % 400 == 0 {
        1int
    } else {
        0
    });
}

proof fn lemma_year_start(a: int, b: int)
    requires
        a < b,
    ensures
        march_start(b) >= march_start(a) + 365,
        leap(a + 1) ==> march_start(b) >= march_start(a) + 366,
    decreases b - a,
{
    lemma_next_year(b - 1);
    if a < b - 1 {
        lemma_year_start(a, b - 1);
    }
}

proof fn lemma_day_of_year(y: int, m: int, d: int)
    requires
        is_date(y, m, d),
    ensures
        ({
            let a = if m <= 2 {
                y - 1
            } else {
                y
            };
            let n = days_from_civil(y, m, d) + 719468 - march_start(a);
            0 <= n <= 365 && (n == 365 ==> leap(a + 1))
        }),
{
}

/// The date on which a moment lies, given in seconds since 1970-01-01: the second before that
/// day began lies on 1969-12-31.
pub fn epoch_to_ymd(epoch: i64) -> (r: (i64, i64, i64))
    ensures
        is_date(r.0 as int, r.1 as int, r.2 as int),
        (r.0 as int, r.1 as int, r.2 as int) == civil_date(epoch as int / 86400),
{
    civil(div_floor(epoch, 86400))
}

/// Division that rounds down.
pub fn div_floor(a: i64, b: i64) -> (r: i64)
    requires
        b > 0,
    ensures
        r == a as int / b as int,
        a >= 0 ==> 0 <= r <= a,
        a < 0 ==> a <= r < 0,
{
    if a >= 0 {
        let q: u64 = a as u64 / (b as u64);
        assert(q <= a) by (nonlinear_arith)
            requires
                q == a as u64 / (b as u64),
                a >= 0,
                b >= 1,
        ;
        q as i64
    } else {
        let m: u64 = (-(a + 1)) as u64;
        let q: u64 = m / (b as u64);
        assert(q <= m && a as int / b as int == -1 - q) by (nonlinear_arith)
            requires
                q == m / (b as u64),
                m == -(a + 1),
                a < 0,
                b >= 1,
        ;
        -1 - (q as i64)
    }
}

// ---------------------------------------------------------------------------
// Text
// ---------------------------------------------------------------------------

/// The number that the `n` characters from `i` on denote as decimal digits.
pub open spec fn number_at(s: Seq<char>, i: int, n: int) -> Option<int> {
    if 0 <= i && i + n <= s.len() {
        digits_value(s.subrange(i, i + n))
    } else {
        None
    }
}

/// The day that a text of the form `YYYY-MM-DD...` names.
pub open spec fn day_value(t: Seq<char>) -> Option<int> {
    if t.len() < 10 || t[4] != '-' || t[7] != '-' {
        None
    } else {
        match (number_at(t, 0, 4), number_at(t, 5, 2), number_at(t, 8, 2)) {
            (Some(y), Some(m), Some(d)) => if is_date(y, m, d) {
                Some(days_from_civil(y, m, d))
            } else {
                None
            },
            _ => None,
        }
    }
}

/// The second of the day that a text names behind its date: `HH:MM:SS` after a blank or a
/// `T`, or nothing at all for midnight.
pub open spec fn second_value(t: Seq<char>) -> Option<int> {
    if t.len() == 10 {
        Some(0)
    } else if t.len() < 19 || (t[10] != ' ' && t[10] != 'T') || t[13] != ':' || t[16] != ':' {
        None
    } else {
        match (number_at(t, 11, 2), number_at(t, 14, 2), number_at(t, 17, 2)) {
            (Some(h), Some(m), Some(s)) => if h < 24 && m < 60 && s < 60 {
                Some(h * 3600 + m * 60 + s)
            } else {
                None
            },
            _ => None,
        }
    }
}

/// The moment that a text names, in seconds since 1970-01-01; zero, if it names none.
pub open spec fn datetime_value(s: Seq<char>) -> int {
    let t = trimmed(s);
    match (day_value(t), second_value(t)) {
        (Some(d), Some(n)) => d * 86400 + n,
        _ => 0,
    }
}

fn number(c: &Vec<char>, i: usize, n: usize) -> (r: Option<i64>)
    requires
        i + n <= c.len(),
        0 < n <= 4,
    ensures
        r is Some == number_at(c@, i as int, n as int) is Some,
        r is Some ==> number_at(c@, i as int, n as int) == Some(r->0 as int),
        r is Some ==> 0 <= r->0 < 10000,
        r is Some && n == 2 ==> r->0 < 100,
{
    let ghost s = c@.subrange(i as int, i + n);
    let mut acc: i64 = 0;
    let mut k: usize = 0;
    while k < n
        invariant
            0 <= k <= n <= 4,
            i + n <= c.len(),
            s == c@.subrange(i as int, i + n),
            k > 0 ==> digits_value(s.take(k as int)) == Some(acc as int),
            k == 0 ==> acc == 0,
            0 <= acc,
            k <= 1 ==> acc < 10,
            k <= 2 ==> acc < 100,
            k <= 3 ==> acc < 1000,
            acc < 10000,
        decreases n - k,
    {
        let d: u32 = code(c[i + k]);
        let ghost t = s.take(k + 1);
        assert(t.last() == c@[i + k]);
        assert(t.drop_last() == s.take(k as int));
        if d < 48 || d > 57 {
            proof {
                lemma_digits_prefix(s, k + 1);
            }
            return None;
        }
        acc = acc * 10 + (d - 48) as i64;
        k += 1;
    }
    assert(s.take(n as int) == s);
    Some(acc)
}

fn march_days(k: i64) -> (r: i64)
    requires
        0 <= k <= 11,
    ensures
        r == march_offset(k as int),
{
    proof {
        lemma_month(0);
        assert(march_offset(k as int) == (153 * k + 2) / 5);
    }
    (153 * k + 2) / 5
}

fn last_day(y: i64, m: i64) -> (r: i64)
    requires
        0 <= y < 10000,
        1 <= m <= 12,
    ensures
        r == month_days(y as int, m as int),
{
    if m == 2 {
        if y % 4 == 0 && (y % 100 != 0 || y % 400 == 0) {
            29
        } else {
            28
        }
    } else if m == 4 || m == 6 || m == 9 || m == 11 {
        30
    } else {
        31
    }
}

fn day_of(y: i64, m: i64, d: i64) -> (r: i64)
    requires
        0 <= y < 10000,
        is_date(y as int, m as int, d as int),
    ensures
        r == days_from_civil(y as int, m as int, d as int),
        -1_000_000 < r < 10_000_000,
{
    let my: i64 = if m <= 2 {
        y - 1
    } else {
        y
    };
    let k: i64 = if m <= 2 {
        m + 9
    } else {
        m - 3
    };
    let off: i64 = march_days(k);
    if my < 0 {
        // The year before year zero lies at the end of the era before it.
        assert(my == -1);
        assert((-1int) / 4 == -1 && (-1int) / 100 == -1 && (-1int) / 400 == -1);
        -365 - 1 + off + (d - 1) - 719468
    } else {
        365 * my + my / 4 - my / 100 + my / 400 + off + (d - 1) - 719468
    }
}

/// The moment that a text names, in seconds since 1970-01-01; zero, if it names none.
pub fn parse_datetime_to_epoch(s: &str) -> (r: i64)
    ensures
        r == datetime_value(s@),
{
    let t = trim(s);
    let c = chars_of(t.as_str());
    let n = c.len();
    if n < 10 || c[4] != '-' || c[7] != '-' {
        return 0;
    }
    let days: i64 = match (number(&c, 0, 4), number(&c, 5, 2), number(&c, 8, 2)) {
        (Some(y), Some(m), Some(d)) => {
            if m < 1 || m > 12 || d < 1 || d > last_day(y, m) {
                return 0;
            }
            day_of(y, m, d)
        },
        _ => {
            return 0;
        },
    };
    if n == 10 {
        return days * 86400;
    }
    if n < 19 || (c[10] != ' ' && c[10] != 'T') || c[13] != ':' || c[16] != ':' {
        return 0;
    }
    match (number(&c, 11, 2), number(&c, 14, 2), number(&c, 17, 2)) {
        (Some(h), Some(m), Some(sec)) => if h < 24 && m < 60 && sec < 60 {
            days * 86400 + (h * 3600 + m * 60 + sec)
        } else {
            0
        },
        _ => 0,
    }
}

/// A text brought to at least `w` characters by zeros in front.
pub open spec fn zero_padded(s: Seq<char>, w: int) -> Seq<char>
    decreases w - s.len(),
{
    if s.len() >= w {
        s
    } else {
        zero_padded(seq!['0'] + s, w)
    }
}

/// The decimal text of a number, brought to at least `w` digits.
pub fn show_padded(n: u64, w: usize) -> (r: String)
    ensures
        r@ == zero_padded(nat_text(n as nat), w as int),
{
    let d = show_u64(n);
    let len = d.as_str().unicode_len();
    let mut out = String::new();
    if len >= w {
        return d;
    }
    let zeros: usize = w - len;
    let mut i: usize = 0;
    assert(out@ + d@ == d@);
    while i < zeros
        invariant
            0 <= i <= zeros,
            zeros == w - d@.len(),
            out@.len() == i,
            forall|k: int| 0 <= k < i ==> out@[k] == '0',
            zero_padded(out@ + d@, w as int) == zero_padded(d@, w as int),
        decreases zeros - i,
    {
        let ghost before = out@;
        out.push('0');
        assert(out@ =~= seq!['0'] + before);
        assert(out@ + d@ == seq!['0'] + (before + d@));
        i += 1;
    }
    out.append(d.as_str());
    out
}

/// The text of a date: year, month and day with hyphens between them.
pub open spec fn date_text(days: int) -> Seq<char> {
    let p = civil_date(days);
    let y = if p.0 < 0 {
        seq!['-'] + zero_padded(nat_text((-p.0) as nat), 4)
    } else {
        zero_padded(nat_text(p.0 as nat), 4)
    };
    y + seq!['-'] + zero_padded(nat_text(p.1 as nat), 2) + seq!['-'] + zero_padded(
        nat_text(p.2 as nat),
        2,
    )
}

/// The text of a time of day: hours, minutes and seconds with colons between them.
pub open spec fn time_text(secs: int) -> Seq<char> {
    zero_padded(nat_text((secs / 3600) as nat), 2) + seq![':'] + zero_padded(
        nat_text((secs / 60 % 60) as nat),
        2,
    ) + seq![':'] + zero_padded(nat_text((secs % 60) as nat), 2)
}

/// The text of a date.
pub fn show_date(days: i64) -> (r: String)
    requires
        -0x1000_0000_0000_0000 < days < 0x1000_0000_0000_0000,
    ensures
        r@ == date_text(days as int),
{
    let (y, m, d) = civil(days);
    let mut out = String::new();
    if y < 0 {
        out.push('-');
        assert(out@ == seq!['-']);
        if y == i64::MIN {
            let w = show_padded(0x8000_0000_0000_0000, 4);
            out.append(w.as_str());
        } else {
            let w = show_padded((-y) as u64, 4);
            out.append(w.as_str());
        }
    } else {
        let w = show_padded(y as u64, 4);
        out.append(w.as_str());
    }
    out.push('-');
    out.append(show_padded(m as u64, 2).as_str());
    out.push('-');
    out.append(show_padded(d as u64, 2).as_str());
    assert(out@ =~= date_text(days as int));
    out
}

/// The text of a time of day.
pub fn show_time(secs: u64) -> (r: String)
    ensures
        r@ == time_text(secs as int),
{
    let mut out = show_padded(secs / 3600, 2);
    out.push(':');
    out.append(show_padded(secs / 60 % 60, 2).as_str());
    out.push(':');
    out.append(show_padded(secs % 60, 2).as_str());
    assert(out@ =~= time_text(secs as int));
    out
}

proof fn lemma_zero_in_front(s: Seq<char>)
    requires
        digits_value(s) is Some,
    ensures
        digits_value(seq!['0'] + s) == digits_value(s),
    decreases s.len(),
{
    let t = seq!['0'] + s;
    assert(t.last() == s.last());
    if s.len() == 1 {
        assert(t.drop_last() =~= seq!['0']);
        assert(digits_value(seq!['0']) == Some(0int));
        assert(s.last() == s[0]);
    } else {
        lemma_zero_in_front(s.drop_last());
        assert(t.drop_last() =~= seq!['0'] + s.drop_last());
    }
}

proof fn lemma_zero_padded(s: Seq<char>, w: int)
    requires
        digits_value(s) is Some,
        s.len() <= w,
    ensures
        zero_padded(s, w).len() == w,
        digits_value(zero_padded(s, w)) == digits_value(s),
    decreases w - s.len(),
{
    if s.len() < w {
        lemma_zero_in_front(s);
        lemma_zero_padded(seq!['0'] + s, w);
    }
}

proof fn lemma_padded_number(n: nat, w: int)
    requires
        w == 2 && n < 100 || w == 4 && n < 10000,
    ensures
        zero_padded(nat_text(n), w).len() == w,
        digits_value(zero_padded(nat_text(n), w)) == Some(n as int),
{
    reveal_with_fuel(nat_text, 4);
    lemma_digits_of_nat(n);
    lemma_zero_padded(nat_text(n), w);
}

/// The text of a date with a year of four digits is read back as that date.
pub proof fn law_date_text_is_read_back(y: int, m: int, d: int)
    requires
        is_date(y, m, d),
        0 <= y <= 9999,
    ensures
        day_value(date_text(days_from_civil(y, m, d))) == Some(days_from_civil(y, m, d)),
{
    lemma_civil_date(y, m, d);
    lemma_padded_number(y as nat, 4);
    lemma_padded_number(m as nat, 2);
    lemma_padded_number(d as nat, 2);
    let a = zero_padded(nat_text(y as nat), 4);
    let b = zero_padded(nat_text(m as nat), 2);
    let c = zero_padded(nat_text(d as nat), 2);
    let t = date_text(days_from_civil(y, m, d));
    assert(t == a + seq!['-'] + b + seq!['-'] + c);
    assert(t.subrange(0, 4) =~= a);
    assert(t.subrange(5, 7) =~= b);
    assert(t.subrange(8, 10) =~= c);
}

} // verus!
