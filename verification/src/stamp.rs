//! The UTC time stamp in default archive names: `YYYYMMDD-hhmmss`.
use time::OffsetDateTime;
use vstd::prelude::*;
use crate::text::push_char;

verus! {

#[verifier::external_type_specification]
#[verifier::external_body]
pub struct ExOffsetDateTime(OffsetDateTime);

/// The current date and time in UTC (`OffsetDateTime::now_utc`). Nothing is
/// claimed of the value: it is the clock's.
#[verifier::external_body]
fn utc_now() -> OffsetDateTime {
    OffsetDateTime::now_utc()
}

/// Year, month number and day of a date (`OffsetDateTime::to_calendar_date`,
/// with `Month` as its number). Without the crate's `large-dates` feature a
/// year lies in -9999..=9999; months run 1..=12 and days 1..=31.
#[verifier::external_body]
fn calendar_date(t: &OffsetDateTime) -> (r: (i32, u8, u8))
    ensures
        -9999 <= r.0 <= 9999,
        1 <= r.1 <= 12,
        1 <= r.2 <= 31,
{
    let (y, m, d) = t.to_calendar_date();
    (y, u8::from(m), d)
}

/// Hour, minute and second of a time (`OffsetDateTime::to_hms`).
#[verifier::external_body]
fn clock_time(t: &OffsetDateTime) -> (r: (u8, u8, u8))
    ensures
        r.0 < 24,
        r.1 < 60,
        r.2 < 60,
{
    t.to_hms()
}

/// The digit character of `d`.
pub open spec fn digit_char(d: nat) -> char {
    ((48 + d) as u8) as char
}

/// `n` in decimal, padded with zeros on the left to `w` digits (its last `w`
/// digits when it has more).
pub open spec fn padded(n: nat, w: nat) -> Seq<char>
    decreases w,
{
    if w == 0 {
        Seq::empty()
    } else {
        padded(n / 10, (w - 1) as nat).push(digit_char(n % 10))
    }
}

/// The stamp of a date and time: zero-padded year (with a `-` before a
/// negative one), month and day, a `-`, then hour, minute and second, two
/// digits each.
pub open spec fn stamp_spec(y: int, mo: nat, d: nat, h: nat, mi: nat, s: nat) -> Seq<char> {
    (if y < 0 { seq!['-'] } else { Seq::<char>::empty() }) + padded(
        (if y < 0 { -y } else { y }) as nat,
        4,
    ) + padded(mo, 2) + padded(d, 2) + seq!['-'] + padded(h, 2) + padded(mi, 2) + padded(s, 2)
}

fn push_padded(out: &mut String, n: u32, w: u32)
    requires
        w <= 4,
    ensures
        final(out)@ == old(out)@ + padded(n as nat, w as nat),
    decreases w,
{
    if w == 0 {
        assert(old(out)@ + padded(n as nat, 0) =~= old(out)@);
        return;
    }
    push_padded(out, n / 10, w - 1);
    let d = (n % 10) as u8;
    let c = (48 + d) as char;
    push_char(out, c);
    assert(padded(n as nat, w as nat) == padded((n / 10) as nat, (w - 1) as nat).push(digit_char((n % 10) as nat)));
    assert(final(out)@ =~= old(out)@ + padded(n as nat, w as nat)) by {
        assert(c == digit_char((n % 10) as nat));
    }
}

/// The stamp for the given date and time.
pub fn stamp_text(y: i32, mo: u8, d: u8, h: u8, mi: u8, s: u8) -> (r: String)
    requires
        -9999 <= y <= 9999,
    ensures
        r@ == stamp_spec(y as int, mo as nat, d as nat, h as nat, mi as nat, s as nat),
{
    let mut out = String::new();
    let ay: u32 = if y < 0 {
        push_char(&mut out, '-');
        (0 - y) as u32
    } else {
        y as u32
    };
    push_padded(&mut out, ay, 4);
    push_padded(&mut out, mo as u32, 2);
    push_padded(&mut out, d as u32, 2);
    push_char(&mut out, '-');
    push_padded(&mut out, h as u32, 2);
    push_padded(&mut out, mi as u32, 2);
    push_padded(&mut out, s as u32, 2);
    proof {
        let yy = y as int;
        let sign = if yy < 0 { seq!['-'] } else { Seq::<char>::empty() };
        assert(out@ =~= sign + padded((if yy < 0 { -yy } else { yy }) as nat, 4) + padded(mo as nat, 2)
            + padded(d as nat, 2) + seq!['-'] + padded(h as nat, 2) + padded(mi as nat, 2)
            + padded(s as nat, 2));
    }
    out
}

/// The stamp of the current UTC time.
pub fn utc_stamp() -> (r: String)
    ensures
        exists|y: int, mo: nat, d: nat, h: nat, mi: nat, s: nat|
            1 <= mo <= 12 && 1 <= d <= 31 && h < 24 && mi < 60 && s < 60 && r@ == stamp_spec(y, mo, d, h, mi, s),
{
    let now = utc_now();
    let (y, mo, d) = calendar_date(&now);
    let (h, mi, s) = clock_time(&now);
    let r = stamp_text(y, mo, d, h, mi, s);
    assert(r@ == stamp_spec(y as int, mo as nat, d as nat, h as nat, mi as nat, s as nat));
    r
}

} // verus!
