//! Broken-down civil times: the bounds of a time range, the time that a
//! path spells out, and the `time` crate's parser for both.

use vstd::prelude::*;
use crate::text::{digit_char, push_decimal, push_signed_decimal, signed_decimal_text};

verus! {

/// A civil time broken down into its fields, each as written: the month
/// runs from 1 to 12 and the year is the calendar year.
#[derive(Clone, Copy, Debug, PartialEq, Eq, Structural)]
pub struct CivilTime {
    pub year: i64,
    pub month: i64,
    pub day: i64,
    pub hour: i64,
    pub minute: i64,
    pub second: i64,
}

/// The fields as they are compared: most significant first.
pub open spec fn civil_key(t: CivilTime) -> Seq<int> {
    seq![t.year as int, t.month as int, t.day as int, t.hour as int, t.minute as int, t.second as int]
}

/// Lexicographic order on integer sequences of equal length.
pub open spec fn seq_before(a: Seq<int>, b: Seq<int>) -> bool
    decreases a.len(),
{
    if a.len() == 0 || b.len() == 0 {
        false
    } else if a[0] != b[0] {
        a[0] < b[0]
    } else {
        seq_before(a.drop_first(), b.drop_first())
    }
}

/// `a` is strictly earlier than `b`.
pub open spec fn civil_before(a: CivilTime, b: CivilTime) -> bool {
    seq_before(civil_key(a), civil_key(b))
}

/// The value of the field that the conversion character `c` names.
pub open spec fn time_field(t: CivilTime, c: char) -> int {
    if c == 'Y' {
        t.year as int
    } else if c == 'm' {
        t.month as int
    } else if c == 'd' {
        t.day as int
    } else if c == 'H' {
        t.hour as int
    } else if c == 'M' {
        t.minute as int
    } else {
        t.second as int
    }
}

/// `t` with the field that `c` names set to `v`; other characters leave it
/// as it is.
pub open spec fn with_time_field(t: CivilTime, c: char, v: i64) -> CivilTime {
    if c == 'Y' {
        CivilTime { year: v, ..t }
    } else if c == 'm' {
        CivilTime { month: v, ..t }
    } else if c == 'd' {
        CivilTime { day: v, ..t }
    } else if c == 'H' {
        CivilTime { hour: v, ..t }
    } else if c == 'M' {
        CivilTime { minute: v, ..t }
    } else if c == 'S' {
        CivilTime { second: v, ..t }
    } else {
        t
    }
}

/// A field written with at least two digits, as strftime's `%m`, `%d`,
/// `%H`, `%M` and `%S` write it.
pub open spec fn two_digit_text(v: int) -> Seq<char> {
    if 0 <= v < 10 {
        seq!['0', digit_char(v as nat)]
    } else {
        signed_decimal_text(v)
    }
}

/// The text of the field that `c` names, as strftime writes `%c`: the year
/// in full, the other fields with two digits.
pub open spec fn time_field_text(t: CivilTime, c: char) -> Seq<char> {
    if c == 'Y' {
        signed_decimal_text(t.year as int)
    } else {
        two_digit_text(time_field(t, c))
    }
}

impl CivilTime {
    pub open spec fn spec_zero() -> CivilTime {
        CivilTime { year: 0, month: 0, day: 0, hour: 0, minute: 0, second: 0 }
    }

    /// The time at which every field is zero.
    pub fn zero() -> (r: CivilTime)
        ensures
            r == CivilTime::spec_zero(),
    {
        CivilTime { year: 0, month: 0, day: 0, hour: 0, minute: 0, second: 0 }
    }

    /// Whether `self` is strictly earlier than `other`.
    pub fn is_before(&self, other: &CivilTime) -> (r: bool)
        ensures
            r == civil_before(*self, *other),
    {
        let a = [self.year, self.month, self.day, self.hour, self.minute, self.second];
        let b = [other.year, other.month, other.day, other.hour, other.minute, other.second];
        let ghost ka = civil_key(*self);
        let ghost kb = civil_key(*other);
        assert(ka.subrange(0, 6) =~= ka);
        assert(kb.subrange(0, 6) =~= kb);
        let mut i: usize = 0;
        while i < 6
            invariant
                i <= 6,
                a@.len() == 6,
                b@.len() == 6,
                forall|k: int| 0 <= k < 6 ==> a@[k] as int == ka[k] && b@[k] as int == kb[k],
                ka == civil_key(*self),
                kb == civil_key(*other),
                forall|k: int| 0 <= k < i ==> ka[k] == kb[k],
                seq_before(ka, kb) == seq_before(ka.subrange(i as int, 6), kb.subrange(i as int, 6)),
            decreases 6 - i,
        {
            let ghost sa = ka.subrange(i as int, 6);
            let ghost sb = kb.subrange(i as int, 6);
            assert(sa.drop_first() =~= ka.subrange(i as int + 1, 6));
            assert(sb.drop_first() =~= kb.subrange(i as int + 1, 6));
            if a[i] != b[i] {
                return a[i] < b[i];
            }
            i = i + 1;
        }
        false
    }

    /// Sets the field that the conversion character `c` names; other
    /// characters change nothing.
    pub fn set_field(&mut self, c: char, v: i64)
        ensures
            *final(self) == with_time_field(*old(self), c, v),
    {
        if c == 'Y' {
            self.year = v;
        } else if c == 'm' {
            self.month = v;
        } else if c == 'd' {
            self.day = v;
        } else if c == 'H' {
            self.hour = v;
        } else if c == 'M' {
            self.minute = v;
        } else if c == 'S' {
            self.second = v;
        }
    }

    /// The text of the field that `c` names, as strftime's `%c` writes it.
    pub fn field_text(&self, c: char) -> (r: Vec<char>)
        ensures
            r@ == time_field_text(*self, c),
    {
        let mut out: Vec<char> = Vec::new();
        if c == 'Y' {
            push_signed_decimal(&mut out, self.year);
            assert(out@ =~= time_field_text(*self, c));
            return out;
        }
        let v: i64 = if c == 'm' {
            self.month
        } else if c == 'd' {
            self.day
        } else if c == 'H' {
            self.hour
        } else if c == 'M' {
            self.minute
        } else {
            self.second
        };
        if 0 <= v && v < 10 {
            out.push('0');
            push_decimal(&mut out, v as u64);
            assert(out@ =~= time_field_text(*self, c));
        } else {
            push_signed_decimal(&mut out, v);
            assert(out@ =~= time_field_text(*self, c));
        }
        out
    }
}

/// The fields of a `time::Tm`, as `time::strptime` fills them in.
#[derive(Clone, Copy, Debug, PartialEq, Eq, Structural)]
pub struct TmFields {
    pub tm_sec: i32,
    pub tm_min: i32,
    pub tm_hour: i32,
    pub tm_mday: i32,
    pub tm_mon: i32,
    pub tm_year: i32,
    pub tm_wday: i32,
    pub tm_yday: i32,
    pub tm_isdst: i32,
    pub tm_utcoff: i32,
    pub tm_nsec: i32,
}

/// The format of the timestamp of a log line.
pub const LOG_TIME_FORMAT: &'static str = "%d/%b/%Y:%H:%M:%S %z";

/// The format of each end of a period.
pub const PERIOD_TIME_FORMAT: &'static str = "%Y-%m-%d:%H:%M:%S";

/// What `time::strptime` makes of a text under one of the library's
/// formats.
pub uninterp spec fn strptime_result(s: Seq<char>, fmt: Seq<char>) -> Option<TmFields>;

/// Relies on `time::strptime`: the fields it parses from `s` under `fmt`,
/// or `None` where it reports an error. The formats admitted hold no `%s`,
/// whose conversion consults the C library.
#[verifier::external_body]
pub(crate) fn strptime(s: &str, fmt: &str) -> (r: Option<TmFields>)
    requires
        fmt@ == LOG_TIME_FORMAT@ || fmt@ == PERIOD_TIME_FORMAT@,
    ensures
        r == strptime_result(s@, fmt@),
{
    time::strptime(s, fmt).ok().map(|t| TmFields {
        tm_sec: t.tm_sec, tm_min: t.tm_min, tm_hour: t.tm_hour, tm_mday: t.tm_mday,
        tm_mon: t.tm_mon, tm_year: t.tm_year, tm_wday: t.tm_wday, tm_yday: t.tm_yday,
        tm_isdst: t.tm_isdst, tm_utcoff: t.tm_utcoff, tm_nsec: t.tm_nsec,
    })
}

/// Days from 1970-01-01 to the given day of the proleptic Gregorian
/// calendar (month 1 to 12); other months extend the same formula.
pub open spec fn days_from_civil(y: int, m: int, d: int) -> int {
    let y2 = if m <= 2 {
        y - 1
    } else {
        y
    };
    let era = y2 / 400;
    let yoe = y2 - era * 400;
    let mp = if m > 2 {
        m - 3
    } else {
        m + 9
    };
    let doy = (153 * mp + 2) / 5 + d - 1;
    let doe = yoe * 365 + yoe / 4 - yoe / 100 + doy;
    era * 146097 + doe - 719468
}

/// Seconds since the epoch, in UTC, of broken-down fields whose time is
/// `tm_utcoff` seconds ahead of UTC.
pub open spec fn utc_seconds(t: TmFields) -> int {
    days_from_civil(t.tm_year + 1900, t.tm_mon + 1, t.tm_mday as int) * 86400 + t.tm_hour * 3600 + t.tm_min * 60
        + t.tm_sec - t.tm_utcoff
}

fn div_floor(x: i128, d: i128) -> (r: i128)
    requires
        d > 0,
        -0x1_0000_0000_0000 <= x <= 0x1_0000_0000_0000,
    ensures
        r as int == x as int / d as int,
{
    proof {
        vstd::arithmetic::div_mod::lemma_fundamental_div_mod(x as int, d as int);
        vstd::arithmetic::div_mod::lemma_mod_bound(x as int, d as int);
        let q = x as int / d as int;
        let rm = x as int % d as int;
        let xi = x as int;
        let di = d as int;
        assert(-0x1_0000_0000_0000 <= q <= 0x1_0000_0000_0000) by (nonlinear_arith)
            requires
                xi == di * q + rm,
                0 <= rm,
                rm < di,
                di > 0,
                -0x1_0000_0000_0000 <= xi,
                xi <= 0x1_0000_0000_0000,
        ;
    }
    match x.checked_div_euclid(d) {
        Some(q) => q,
        None => 0,
    }
}

/// Seconds since the epoch, in UTC, of the fields.
pub fn utc_seconds_of(t: &TmFields) -> (r: i128)
    ensures
        r as int == utc_seconds(*t),
{
    let y: i128 = t.tm_year as i128 + 1900;
    let m: i128 = t.tm_mon as i128 + 1;
    let d: i128 = t.tm_mday as i128;
    let y2: i128 = if m <= 2 {
        y - 1
    } else {
        y
    };
    let era = div_floor(y2, 400);
    proof {
        vstd::arithmetic::div_mod::lemma_fundamental_div_mod(y2 as int, 400);
        vstd::arithmetic::div_mod::lemma_mod_bound(y2 as int, 400);
    }
    let yoe: i128 = y2 - era * 400;
    let mp: i128 = if m > 2 {
        m - 3
    } else {
        m + 9
    };
    let q5 = div_floor(153 * mp + 2, 5);
    proof {
        vstd::arithmetic::div_mod::lemma_fundamental_div_mod((153 * mp + 2) as int, 5);
        vstd::arithmetic::div_mod::lemma_mod_bound((153 * mp + 2) as int, 5);
    }
    let doy: i128 = q5 + d - 1;
    let q4 = div_floor(yoe, 4);
    let q100 = div_floor(yoe, 100);
    proof {
        vstd::arithmetic::div_mod::lemma_fundamental_div_mod(yoe as int, 4);
        vstd::arithmetic::div_mod::lemma_mod_bound(yoe as int, 4);
        vstd::arithmetic::div_mod::lemma_fundamental_div_mod(yoe as int, 100);
        vstd::arithmetic::div_mod::lemma_mod_bound(yoe as int, 100);
    }
    let doe: i128 = yoe * 365 + q4 - q100 + doy;
    let days: i128 = era * 146097 + doe - 719468;
    days * 86400 + (t.tm_hour as i128) * 3600 + (t.tm_min as i128) * 60 + (t.tm_sec as i128) - (t.tm_utcoff as i128)
}

/// The civil time that the fields of a `time::Tm` denote: `tm_year` counts
/// from 1900 and `tm_mon` from zero.
pub open spec fn civil_of_tm(t: TmFields) -> CivilTime {
    CivilTime {
        year: (t.tm_year + 1900) as i64,
        month: (t.tm_mon + 1) as i64,
        day: t.tm_mday as i64,
        hour: t.tm_hour as i64,
        minute: t.tm_min as i64,
        second: t.tm_sec as i64,
    }
}

/// The civil time that the fields of a `time::Tm` denote.
pub fn civil_from_tm(t: &TmFields) -> (r: CivilTime)
    ensures
        r == civil_of_tm(*t),
{
    CivilTime {
        year: t.tm_year as i64 + 1900,
        month: t.tm_mon as i64 + 1,
        day: t.tm_mday as i64,
        hour: t.tm_hour as i64,
        minute: t.tm_min as i64,
        second: t.tm_sec as i64,
    }
}

} // verus!
