//! Times as dates, in UTC.
use crate::text;
use vstd::prelude::*;

verus! {

/// A day of the calendar.
#[verifier::ext_equal]
pub struct Civil {
    pub year: int,
    pub month: int,
    pub day: int,
}

/// The date so many days after the first of January 1970. Years are counted
/// from March in runs of four hundred, so that the leap day comes last.
pub open spec fn civil(days: int) -> Civil {
    let z = days + 719468;
    let era = z / 146097;
    let doe = z % 146097;
    let yoe = (doe - doe / 1460 + doe / 36524 - doe / 146096) / 365;
    let doy = doe - (365 * yoe + yoe / 4 - yoe / 100);
    let mp = (5 * doy + 2) / 153;
    let month = if mp < 10 {
        mp + 3
    } else {
        mp - 9
    };
    let y = yoe + era * 400;
    Civil {
        year: if month <= 2 {
            y + 1
        } else {
            y
        },
        month,
        day: doy - (153 * mp + 2) / 5 + 1,
    }
}

/// How many days after the first of January 1970 a date is.
pub open spec fn days_of(c: Civil) -> int {
    let y = if c.month <= 2 {
        c.year - 1
    } else {
        c.year
    };
    let era = y / 400;
    let yoe = y % 400;
    let mp = if c.month > 2 {
        c.month - 3
    } else {
        c.month + 9
    };
    let doy = (153 * mp + 2) / 5 + c.day - 1;
    era * 146097 + (yoe * 365 + yoe / 4 - yoe / 100 + doy) - 719468
}

/// Where a day stands in its run of four hundred years.
proof fn lemma_year_of_era(doe: int)
    requires
        0 <= doe < 146097,
    ensures
        ({
            let yoe = (doe - doe / 1460 + doe / 36524 - doe / 146096) / 365;
            let doy = doe - (365 * yoe + yoe / 4 - yoe / 100);
            0 <= yoe < 400 && 0 <= doy <= 365
        }),
{
    let a = doe / 1460;
    let c = doe / 36524;
    let e = doe / 146096;
    assert(0 <= c <= 4);
    assert(0 <= e <= 1);
    assert(0 <= a <= 100);
    let n = doe - a + c - e;
    let yoe = n / 365;
    assert(365 * yoe <= n < 365 * yoe + 365);
    assert(0 <= yoe < 400);
    let q = yoe / 4;
    let h = yoe / 100;
    assert(4 * q <= yoe < 4 * q + 4);
    assert(100 * h <= yoe < 100 * h + 100);
    assert(1460 * a <= doe < 1460 * a + 1460);
    assert(36524 * c <= doe < 36524 * c + 36524);
    assert(0 <= doe - (365 * yoe + q - h) <= 365);
}

/// Every day is the day its date says it is.
pub proof fn lemma_dates_round_trip(days: int)
    ensures
        days_of(civil(days)) == days,
        1 <= civil(days).month <= 12,
        1 <= civil(days).day <= 31,
{
    let z = days + 719468;
    let doe = z % 146097;
    lemma_year_of_era(doe);
    let yoe = (doe - doe / 1460 + doe / 36524 - doe / 146096) / 365;
    let doy = doe - (365 * yoe + yoe / 4 - yoe / 100);
    let mp = (5 * doy + 2) / 153;
    assert(0 <= mp <= 11);
    assert(z == (z / 146097) * 146097 + doe);
    let y = yoe + (z / 146097) * 400;
    assert(y / 400 == z / 146097);
    assert(y % 400 == yoe);
}

/// Has a year a day more?
pub open spec fn leap(year: int) -> bool {
    year % 4 == 0 && (year % 100 != 0 || year % 400 == 0)
}

/// How long a month is.
pub open spec fn days_in(year: int, month: int) -> int {
    if month == 2 {
        if leap(year) {
            29
        } else {
            28
        }
    } else if month == 4 || month == 6 || month == 9 || month == 11 {
        30
    } else {
        31
    }
}

/// The day of its run of four hundred years a year begins on, in March.
spec fn year_start(yoe: int) -> int {
    365 * yoe + yoe / 4 - yoe / 100
}

/// Only a year with a day more has a day 366, which is the last of February in
/// the year after.
proof fn lemma_last_of_february(doe: int)
    requires
        0 <= doe < 146097,
    ensures
        ({
            let yoe = (doe - doe / 1460 + doe / 36524 - doe / 146096) / 365;
            doe - year_start(yoe) == 365 ==> leap(yoe + 1)
        }),
{
    lemma_year_of_era(doe);
    let a = doe / 1460;
    let c = doe / 36524;
    let e = doe / 146096;
    let n = doe - a + c - e;
    let yoe = n / 365;
    assert(365 * yoe <= n < 365 * yoe + 365);
    assert(1460 * a <= doe < 1460 * a + 1460);
    assert(36524 * c <= doe < 36524 * c + 36524);
    assert(146096 * e <= doe < 146096 * e + 146096);
    let q = yoe / 4;
    let h = yoe / 100;
    assert(4 * q <= yoe < 4 * q + 4);
    assert(100 * h <= yoe < 100 * h + 100);
    if doe - year_start(yoe) == 365 {
        assert(doe == 365 * yoe + q - h + 365);
        if (yoe + 1) % 4 != 0 {
            assert(yoe <= 4 * q + 2);
            assert(a <= q);
            assert(false);
        }
        assert(yoe == 4 * q + 3);
        if (yoe + 1) % 100 == 0 && (yoe + 1) % 400 != 0 {
            assert(yoe == 100 * h + 99);
            assert(false);
        }
    }
}

/// The months from March on, and the last day of each.
proof fn lemma_month_of(doy: int)
    requires
        0 <= doy <= 365,
    ensures
        ({
            let mp = (5 * doy + 2) / 153;
            let day = doy - (153 * mp + 2) / 5 + 1;
            &&& 0 <= mp <= 11
            &&& 1 <= day <= 31
            &&& mp == 1 || mp == 3 || mp == 6 || mp == 8 ==> day <= 30
            &&& mp == 11 ==> day <= 29
            &&& mp == 11 && day == 29 ==> doy == 365
        }),
{
    let mp = (5 * doy + 2) / 153;
    assert(0 <= mp <= 11);
    assert(153 * mp <= 5 * doy + 2 < 153 * mp + 153);
    assert(mp == 0 || mp == 1 || mp == 2 || mp == 3 || mp == 4 || mp == 5 || mp == 6 || mp == 7
        || mp == 8 || mp == 9 || mp == 10 || mp == 11);
}

/// A run of four hundred years is like every other.
proof fn lemma_leap_again(yoe: int, era: int)
    ensures
        leap(yoe + era * 400 + 1) == leap(yoe + 1),
{
    let y = yoe + era * 400;
    assert((y + 1) % 4 == (yoe + 1) % 4);
    assert((y + 1) % 100 == (yoe + 1) % 100);
    assert((y + 1) % 400 == (yoe + 1) % 400);
}

/// No day is past the end of its month.
pub proof fn lemma_days_fit_their_month(days: int)
    ensures
        1 <= civil(days).day <= days_in(civil(days).year, civil(days).month),
{
    let z = days + 719468;
    let doe = z % 146097;
    lemma_year_of_era(doe);
    lemma_last_of_february(doe);
    let yoe = (doe - doe / 1460 + doe / 36524 - doe / 146096) / 365;
    let doy = doe - (365 * yoe + yoe / 4 - yoe / 100);
    lemma_month_of(doy);
    lemma_leap_again(yoe, z / 146097);
}

/// Does one date come before another?
pub open spec fn sooner(a: Civil, b: Civil) -> bool {
    a.year < b.year || (a.year == b.year && (a.month < b.month || (a.month == b.month && a.day
        < b.day)))
}

/// Where a year stands: the day its March begins on.
spec fn march(y: int) -> int {
    (y / 400) * 146097 + year_start(y % 400)
}

proof fn lemma_next_start(r: int)
    requires
        0 <= r < 399,
    ensures
        year_start(r + 1) - year_start(r) == if leap(r + 1) {
            366int
        } else {
            365int
        },
{
    let q = r / 4;
    let h = r / 100;
    assert(4 * q <= r < 4 * q + 4);
    assert(100 * h <= r < 100 * h + 100);
    assert((r + 1) / 4 == if r == 4 * q + 3 {
        q + 1
    } else {
        q
    });
    assert((r + 1) / 100 == if r == 100 * h + 99 {
        h + 1
    } else {
        h
    });
}

proof fn lemma_march_on(y: int)
    ensures
        march(y + 1) - march(y) == if leap(y + 1) {
            366int
        } else {
            365int
        },
{
    let r = y % 400;
    let era = y / 400;
    assert(y == era * 400 + r);
    lemma_leap_again(r, era);
    if r == 399 {
        assert((y + 1) % 400 == 0);
        assert((y + 1) / 400 == era + 1);
    } else {
        assert((y + 1) % 400 == r + 1);
        assert((y + 1) / 400 == era);
        lemma_next_start(r);
    }
}

proof fn lemma_marches(y: int, z: int)
    requires
        y <= z,
    ensures
        march(z) - march(y) >= 365 * (z - y),
    decreases z - y,
{
    if y < z {
        lemma_marches(y, z - 1);
        lemma_march_on(z - 1);
    }
}

/// A later day has a later date.
pub proof fn lemma_dates_in_order(a: int, b: int)
    requires
        a < b,
    ensures
        sooner(civil(a), civil(b)),
{
    let x = civil(a);
    let y = civil(b);
    lemma_dates_round_trip(a);
    lemma_dates_round_trip(b);
    lemma_days_fit_their_month(a);
    lemma_days_fit_their_month(b);
    if !sooner(x, y) {
        lemma_date_order(y, x);
    }
}

/// A date that is no later is no later a day.
proof fn lemma_date_order(a: Civil, b: Civil)
    requires
        !sooner(b, a),
        1 <= a.month <= 12,
        1 <= b.month <= 12,
        1 <= a.day <= days_in(a.year, a.month),
        1 <= b.day <= days_in(b.year, b.month),
    ensures
        days_of(a) <= days_of(b),
{
    let ya = if a.month <= 2 {
        a.year - 1
    } else {
        a.year
    };
    let yb = if b.month <= 2 {
        b.year - 1
    } else {
        b.year
    };
    assert(ya <= yb);
    let pa = if a.month > 2 {
        a.month - 3
    } else {
        a.month + 9
    };
    let pb = if b.month > 2 {
        b.month - 3
    } else {
        b.month + 9
    };
    let da = (153 * pa + 2) / 5 + a.day - 1;
    let db = (153 * pb + 2) / 5 + b.day - 1;
    assert(days_of(a) == march(ya) + da - 719468);
    assert(days_of(b) == march(yb) + db - 719468);
    if ya < yb {
        lemma_marches(ya + 1, yb);
        lemma_march_on(ya);
        assert(0 <= db);
        assert(da <= 364 || (da == 365 && leap(ya + 1)));
    } else {
        assert(da <= db);
    }
}

/// A number in decimal with zeros in front to make so many characters.
pub open spec fn zeros_before(s: Seq<char>, width: nat) -> Seq<char>
    decreases width,
{
    if s.len() >= width {
        s
    } else {
        seq!['0'] + zeros_before(s, (width - 1) as nat)
    }
}

pub open spec fn padded(n: int, width: nat) -> Seq<char> {
    if n < 0 {
        seq!['-'] + zeros_before(text::decimal((-n) as nat), (width - 1) as nat)
    } else {
        zeros_before(text::decimal(n as nat), width)
    }
}

/// `YYYY-MM-DD HH:MM:SS`.
pub open spec fn stamp(secs: int) -> Seq<char> {
    let c = civil(secs / 86400);
    let rem = secs % 86400;
    padded(c.year, 4) + seq!['-'] + padded(c.month, 2) + seq!['-'] + padded(c.day, 2) + seq![' ']
        + padded(rem / 3600, 2) + seq![':'] + padded((rem % 3600) / 60, 2) + seq![':'] + padded(
        rem % 60,
        2,
    )
}

/// Division that rounds down.
fn floor_div(a: i64, b: i64) -> (r: i64)
    requires
        b > 1,
    ensures
        r == a as int / b as int,
{
    if a >= 0 {
        (a as u64 / b as u64) as i64
    } else {
        let m: u64 = (-(a + 1)) as u64;
        let q: u64 = m / b as u64;
        proof {
            let x = a as int;
            let y = b as int;
            let k = m as int;
            assert(k == -x - 1);
            vstd::arithmetic::div_mod::lemma_fundamental_div_mod(k, y);
            let rem = k % y;
            assert(x == y * (-(k / y) - 1) + (y - 1 - rem)) by (nonlinear_arith)
                requires
                    k == -x - 1,
                    k == y * (k / y) + rem,
            ;
            vstd::arithmetic::div_mod::lemma_fundamental_div_mod_converse(
                x,
                y,
                -(k / y) - 1,
                y - 1 - rem,
            );
            assert(q <= m) by {
                assert(k / y <= k) by (nonlinear_arith)
                    requires
                        k >= 0,
                        y > 1,
                ;
            }
        }
        -(q as i64) - 1
    }
}

/// What is left over by a division that rounds down.
fn floor_rem(a: i64, b: i64) -> (r: i64)
    requires
        b > 1,
    ensures
        r == a as int % b as int,
{
    if a >= 0 {
        (a as u64 % b as u64) as i64
    } else {
        let m: u64 = (-(a + 1)) as u64;
        let k: u64 = m % b as u64;
        proof {
            let x = a as int;
            let y = b as int;
            let n = m as int;
            vstd::arithmetic::div_mod::lemma_fundamental_div_mod(n, y);
            let rem = n % y;
            assert(x == y * (-(n / y) - 1) + (y - 1 - rem)) by (nonlinear_arith)
                requires
                    n == -x - 1,
                    n == y * (n / y) + rem,
            ;
            vstd::arithmetic::div_mod::lemma_fundamental_div_mod_converse(
                x,
                y,
                -(n / y) - 1,
                y - 1 - rem,
            );
        }
        b - 1 - k as i64
    }
}

fn push_zeros_before(out: &mut String, s: &str, len: usize, width: usize)
    requires
        len == s@.len(),
    ensures
        final(out)@ == old(out)@ + zeros_before(s@, width as nat),
    decreases width,
{
    if len >= width {
        out.append(s);
        return;
    }
    out.push('0');
    push_zeros_before(out, s, len, width - 1);
    assert(out@ =~= old(out)@ + zeros_before(s@, width as nat));
}

fn push_padded(out: &mut String, n: i64, width: usize)
    requires
        n > i64::MIN,
        width > 0,
    ensures
        final(out)@ == old(out)@ + padded(n as int, width as nat),
{
    let mut digits = String::new();
    let m: u64 = if n < 0 {
        (-n) as u64
    } else {
        n as u64
    };
    text::push_decimal(&mut digits, m);
    assert(digits@ =~= text::decimal(m as nat));
    let cs = text::chars_of(digits.as_str());
    if n < 0 {
        out.push('-');
        push_zeros_before(out, digits.as_str(), cs.len(), width - 1);
    } else {
        push_zeros_before(out, digits.as_str(), cs.len(), width);
    }
    assert(out@ =~= old(out)@ + padded(n as int, width as nat));
}

/// The date of a day.
fn date(days: i64) -> (r: (i64, i64, i64))
    requires
        -107000000000000 < days < 107000000000000,
    ensures
        r.0 == civil(days as int).year,
        r.1 == civil(days as int).month,
        r.2 == civil(days as int).day,
        -0x4000_0000_0000_0000 < r.0 < 0x4000_0000_0000_0000,
        1 <= r.1 <= 12,
        1 <= r.2 <= 31,
{
    let z: i64 = days + 719468;
    let era: i64 = floor_div(z, 146097);
    proof {
        vstd::arithmetic::div_mod::lemma_fundamental_div_mod(z as int, 146097);
        lemma_year_of_era(z as int % 146097);
        lemma_dates_round_trip(days as int);
    }
    let doe: i64 = z - era * 146097;
    let d: u64 = doe as u64;
    let yoe: u64 = (d - d / 1460 + d / 36524 - d / 146096) / 365;
    let doy: u64 = d - (365 * yoe + yoe / 4 - yoe / 100);
    let mp: u64 = (5 * doy + 2) / 153;
    let day: u64 = doy + 1 - (153 * mp + 2) / 5;
    let month: u64 = if mp < 10 {
        mp + 3
    } else {
        mp - 9
    };
    let y: i64 = yoe as i64 + era * 400;
    let year: i64 = if month <= 2 {
        y + 1
    } else {
        y
    };
    (year, month as i64, day as i64)
}

/// A unix time as `YYYY-MM-DD HH:MM:SS`, in UTC.
pub fn utc_string(secs: i64) -> (r: String)
    ensures
        r@ == stamp(secs as int),
{
    let days: i64 = floor_div(secs, 86400);
    proof {
        vstd::arithmetic::div_mod::lemma_fundamental_div_mod(secs as int, 86400);
    }
    let rem: i64 = floor_rem(secs, 86400);
    let (year, month, day): (i64, i64, i64) = date(days);
    let s: u64 = rem as u64;
    let mut out = String::new();
    push_padded(&mut out, year, 4);
    out.push('-');
    push_padded(&mut out, month, 2);
    out.push('-');
    push_padded(&mut out, day, 2);
    out.push(' ');
    push_padded(&mut out, (s / 3600) as i64, 2);
    out.push(':');
    push_padded(&mut out, ((s % 3600) / 60) as i64, 2);
    out.push(':');
    push_padded(&mut out, (s % 60) as i64, 2);
    assert(out@ =~= stamp(secs as int));
    out
}

// ---- stamps in order ---------------------------------------------------------------------

/// A number in so many digits.
spec fn digits(n: nat, w: nat) -> Seq<char>
    decreases w,
{
    if w == 0 {
        Seq::empty()
    } else {
        digits(n / 10, (w - 1) as nat).push(text::digit(n % 10))
    }
}

spec fn tens(w: nat) -> nat
    decreases w,
{
    if w == 0 {
        1
    } else {
        10 * tens((w - 1) as nat)
    }
}

/// A text comes before another if it does in front, or is the same there and
/// comes before it behind.
proof fn lemma_before_parts(a: Seq<char>, b: Seq<char>, x: Seq<char>, y: Seq<char>, i: nat)
    requires
        a.len() == b.len(),
        i <= a.len(),
        a.take(i as int) == b.take(i as int),
        text::before(a, b, i) || (a == b && text::before(x, y, 0)),
    ensures
        text::before(a + x, b + y, i),
    decreases a.len() - i,
{
    if i < a.len() {
        if a[i as int] == b[i as int] {
            assert(a.take(i as int + 1) =~= a.take(i as int).push(a[i as int]));
            assert(b.take(i as int + 1) =~= b.take(i as int).push(b[i as int]));
            lemma_before_parts(a, b, x, y, i + 1);
        }
    } else {
        assert(a =~= b) by {
            assert(a.take(i as int) =~= a);
            assert(b.take(i as int) =~= b);
        }
        lemma_before_on(a, x, y, 0);
    }
}

proof fn lemma_before_on(a: Seq<char>, x: Seq<char>, y: Seq<char>, i: nat)
    requires
        text::before(x, y, i),
    ensures
        text::before(a + x, a + y, a.len() + i),
    decreases y.len() - i,
{
    if i < x.len() && x[i as int] == y[i as int] {
        lemma_before_on(a, x, y, i + 1);
    }
}

proof fn lemma_digits(n: nat, w: nat)
    ensures
        digits(n, w).len() == w,
    decreases w,
{
    if w > 0 {
        lemma_digits(n / 10, (w - 1) as nat);
    }
}

proof fn lemma_digits_in_order(a: nat, b: nat, w: nat)
    requires
        a < b < tens(w),
    ensures
        text::before(digits(a, w), digits(b, w), 0),
    decreases w,
{
    lemma_digits(a / 10, (w - 1) as nat);
    lemma_digits(b / 10, (w - 1) as nat);
    let p = digits(a / 10, (w - 1) as nat);
    let r = digits(b / 10, (w - 1) as nat);
    let x = seq![text::digit(a % 10)];
    let y = seq![text::digit(b % 10)];
    if a / 10 < b / 10 {
        lemma_digits_in_order(a / 10, b / 10, (w - 1) as nat);
    } else {
        assert(a / 10 == b / 10);
        assert(a % 10 < b % 10);
        assert(text::before(x, y, 0));
    }
    assert(p.take(0) =~= r.take(0));
    lemma_before_parts(p, r, x, y, 0);
    assert(p + x =~= digits(a, w));
    assert(r + y =~= digits(b, w));
}

/// What is padded is written in so many digits.
proof fn lemma_padded_2(n: int)
    requires
        0 <= n < 100,
    ensures
        padded(n, 2) == digits(n as nat, 2),
{
    reveal_with_fuel(text::decimal, 3);
    reveal_with_fuel(zeros_before, 3);
    reveal_with_fuel(digits, 3);
    assert(padded(n, 2) =~= digits(n as nat, 2));
}

proof fn lemma_padded_4(n: int)
    requires
        0 <= n < 10000,
    ensures
        padded(n, 4) == digits(n as nat, 4),
{
    reveal_with_fuel(text::decimal, 5);
    reveal_with_fuel(zeros_before, 5);
    reveal_with_fuel(digits, 5);
    assert(n / 10 / 10 == n / 100);
    assert(n / 100 / 10 == n / 1000);
    assert(padded(n, 4) =~= digits(n as nat, 4));
}

/// One field of a stamp, and what follows it.
proof fn lemma_field(a: nat, b: nat, w: nat, x: Seq<char>, y: Seq<char>)
    requires
        a < tens(w),
        b < tens(w),
        a < b || (a == b && text::before(x, y, 0)),
    ensures
        text::before(digits(a, w) + x, digits(b, w) + y, 0),
{
    lemma_digits(a, w);
    lemma_digits(b, w);
    if a < b {
        lemma_digits_in_order(a, b, w);
    }
    assert(digits(a, w).take(0) =~= digits(b, w).take(0));
    lemma_before_parts(digits(a, w), digits(b, w), x, y, 0);
}

proof fn lemma_mark(c: char, x: Seq<char>, y: Seq<char>)
    requires
        text::before(x, y, 0),
    ensures
        text::before(seq![c] + x, seq![c] + y, 0),
{
    lemma_before_on(seq![c], x, y, 0);
    assert((seq![c] + x)[0] == (seq![c] + y)[0]);
}

/// The time of day, as it is written.
spec fn clock(secs: int) -> Seq<char> {
    let rem = secs % 86400;
    digits((rem / 3600) as nat, 2) + (seq![':'] + (digits(((rem % 3600) / 60) as nat, 2) + (
    seq![':'] + digits((rem % 60) as nat, 2))))
}

proof fn lemma_clock_in_order(a: int, b: int)
    requires
        a % 86400 < b % 86400,
    ensures
        text::before(clock(a), clock(b), 0),
{
    let x = a % 86400;
    let y = b % 86400;
    reveal_with_fuel(tens, 3);
    let xs = digits((x % 60) as nat, 2);
    let ys = digits((y % 60) as nat, 2);
    let xm = digits(((x % 3600) / 60) as nat, 2) + (seq![':'] + xs);
    let ym = digits(((y % 3600) / 60) as nat, 2) + (seq![':'] + ys);
    assert(x == 3600 * (x / 3600) + x % 3600);
    assert(y == 3600 * (y / 3600) + y % 3600);
    assert(x % 3600 == 60 * ((x % 3600) / 60) + (x % 3600) % 60);
    assert(y % 3600 == 60 * ((y % 3600) / 60) + (y % 3600) % 60);
    assert((x % 3600) % 60 == x % 60);
    assert((y % 3600) % 60 == y % 60);
    if x / 3600 == y / 3600 {
        if (x % 3600) / 60 == (y % 3600) / 60 {
            lemma_digits_in_order((x % 60) as nat, (y % 60) as nat, 2);
            lemma_mark(':', xs, ys);
        }
        lemma_field(
            ((x % 3600) / 60) as nat,
            ((y % 3600) / 60) as nat,
            2,
            seq![':'] + xs,
            seq![':'] + ys,
        );
        lemma_mark(':', xm, ym);
    }
    lemma_field((x / 3600) as nat, (y / 3600) as nat, 2, seq![':'] + xm, seq![':'] + ym);
}

proof fn lemma_stamp_is(secs: int)
    requires
        0 <= civil(secs / 86400).year < 10000,
    ensures
        ({
            let c = civil(secs / 86400);
            stamp(secs) == digits(c.year as nat, 4) + (seq!['-'] + (digits(c.month as nat, 2) + (
            seq!['-'] + (digits(c.day as nat, 2) + (seq![' '] + clock(secs))))))
        }),
{
    let c = civil(secs / 86400);
    let rem = secs % 86400;
    lemma_dates_round_trip(secs / 86400);
    lemma_padded_4(c.year);
    lemma_padded_2(c.month);
    lemma_padded_2(c.day);
    lemma_padded_2(rem / 3600);
    lemma_padded_2((rem % 3600) / 60);
    lemma_padded_2(rem % 60);
    assert(stamp(secs) =~= digits(c.year as nat, 4) + (seq!['-'] + (digits(c.month as nat, 2) + (
    seq!['-'] + (digits(c.day as nat, 2) + (seq![' '] + clock(secs)))))));
}

/// A later time is written as a text that comes later, as long as its year has
/// four digits.
pub proof fn lemma_stamps_in_order(a: int, b: int)
    requires
        a < b,
        0 <= civil(a / 86400).year,
        civil(b / 86400).year < 10000,
        civil(a / 86400).year < 10000,
        0 <= civil(b / 86400).year,
    ensures
        text::before(stamp(a), stamp(b), 0),
{
    let x = civil(a / 86400);
    let y = civil(b / 86400);
    lemma_stamp_is(a);
    lemma_stamp_is(b);
    lemma_dates_round_trip(a / 86400);
    lemma_dates_round_trip(b / 86400);
    reveal_with_fuel(tens, 5);
    assert(a / 86400 <= b / 86400);
    if a / 86400 < b / 86400 {
        lemma_dates_in_order(a / 86400, b / 86400);
    } else {
        lemma_clock_in_order(a, b);
        lemma_mark(' ', clock(a), clock(b));
    }
    let xd = digits(x.day as nat, 2) + (seq![' '] + clock(a));
    let yd = digits(y.day as nat, 2) + (seq![' '] + clock(b));
    let xm = digits(x.month as nat, 2) + (seq!['-'] + xd);
    let ym = digits(y.month as nat, 2) + (seq!['-'] + yd);
    if x.year == y.year {
        if x.month == y.month {
            lemma_field(x.day as nat, y.day as nat, 2, seq![' '] + clock(a), seq![' '] + clock(b));
            lemma_mark('-', xd, yd);
        }
        lemma_field(x.month as nat, y.month as nat, 2, seq!['-'] + xd, seq!['-'] + yd);
        lemma_mark('-', xm, ym);
    }
    lemma_field(x.year as nat, y.year as nat, 4, seq!['-'] + xm, seq!['-'] + ym);
}

} // verus!
