//! Durations and paths as the display and the summaries write them.
use std::time::Duration;
use vstd::prelude::*;
use crate::stamp::padded;
use crate::text::{dec_chars, decimal_string, push_char};

verus! {

/// A number of seconds, coarsely: `42s`, `3m07s`, `2h05m`.
pub open spec fn secs_text(s: u64) -> Seq<char> {
    if s < 60 {
        dec_chars(s as nat) + "s"@
    } else if s < 3600 {
        dec_chars((s / 60) as nat) + "m"@ + padded((s % 60) as nat, 2) + "s"@
    } else {
        dec_chars((s / 3600) as nat) + "h"@ + padded(((s % 3600) / 60) as nat, 2) + "m"@
    }
}

/// An elapsed time: tenths of a second below a minute (`4.2s`), then
/// minutes and seconds (`3m07s`), then hours, minutes and seconds
/// (`2h05m09s`).
pub open spec fn duration_text(s: u64, millis: u32) -> Seq<char> {
    if s < 60 {
        dec_chars(s as nat) + "."@ + dec_chars((millis / 100) as nat) + "s"@
    } else if s < 3600 {
        dec_chars((s / 60) as nat) + "m"@ + padded((s % 60) as nat, 2) + "s"@
    } else {
        dec_chars((s / 3600) as nat) + "h"@ + padded(((s % 3600) / 60) as nat, 2) + "m"@ + padded(
            (s % 60) as nat,
            2,
        ) + "s"@
    }
}

fn two_digits(n: u64) -> (r: String)
    requires
        n < 100,
    ensures
        r@ == padded(n as nat, 2),
{
    let mut out = String::new();
    let hi = (n / 10) as u8;
    let lo = (n % 10) as u8;
    push_char(&mut out, (48 + hi) as char);
    push_char(&mut out, (48 + lo) as char);
    proof {
        assert(padded(n as nat, 2) == padded((n / 10) as nat, 1).push(crate::stamp::digit_char((n % 10) as nat)));
        assert(padded((n / 10) as nat, 1) == padded((n / 100) as nat, 0).push(crate::stamp::digit_char(((n / 10) % 10) as nat)));
        assert((n / 10) % 10 == n / 10);
        assert(out@ =~= padded(n as nat, 2));
    }
    out
}

/// Seconds as the ETA shows them.
pub fn format_secs(s: u64) -> (r: String)
    ensures
        r@ == secs_text(s),
{
    if s < 60 {
        let mut out = decimal_string(s);
        out.append("s");
        out
    } else if s < 3600 {
        let mut out = decimal_string(s / 60);
        out.append("m");
        let t = two_digits(s % 60);
        out.append(t.as_str());
        out.append("s");
        out
    } else {
        let mut out = decimal_string(s / 3600);
        out.append("h");
        let t = two_digits((s % 3600) / 60);
        out.append(t.as_str());
        out.append("m");
        out
    }
}

/// An elapsed time given as whole seconds and the milliseconds past them.
pub fn format_duration(s: u64, millis: u32) -> (r: String)
    requires
        millis < 1000,
    ensures
        r@ == duration_text(s, millis),
{
    if s < 60 {
        let mut out = decimal_string(s);
        out.append(".");
        let tenth = decimal_string((millis / 100) as u64);
        out.append(tenth.as_str());
        out.append("s");
        out
    } else if s < 3600 {
        let mut out = decimal_string(s / 60);
        out.append("m");
        let t = two_digits(s % 60);
        out.append(t.as_str());
        out.append("s");
        out
    } else {
        let mut out = decimal_string(s / 3600);
        out.append("h");
        let t = two_digits((s % 3600) / 60);
        out.append(t.as_str());
        out.append("m");
        let u = two_digits(s % 60);
        out.append(u.as_str());
        out.append("s");
        out
    }
}

/// The whole seconds of a duration.
pub uninterp spec fn duration_secs(d: Duration) -> u64;

/// The milliseconds past the whole seconds of a duration.
pub uninterp spec fn duration_millis(d: Duration) -> u32;

/// The whole seconds of a duration (`Duration::as_secs`).
#[verifier::external_body]
pub(crate) fn whole_secs(d: &Duration) -> (r: u64)
    ensures
        r == duration_secs(*d),
{
    d.as_secs()
}

/// The milliseconds past the whole seconds (`Duration::subsec_millis`),
/// below 1000 by its documentation.
#[verifier::external_body]
fn subsec_millis(d: &Duration) -> (r: u32)
    ensures
        r == duration_millis(*d),
        r < 1000,
{
    d.subsec_millis()
}

/// An elapsed time as the summary writes it; see `duration_text`.
pub fn human_duration(d: Duration) -> (r: String)
    ensures
        r@ == duration_text(duration_secs(d), duration_millis(d)),
{
    let s = whole_secs(&d);
    let ms = subsec_millis(&d);
    format_duration(s, ms)
}

} // verus!

verus! {

/// The longest end of `s` that takes at most `budget` bytes in UTF-8.
pub open spec fn tail_within(s: Seq<char>, budget: nat) -> Seq<char>
    decreases s.len(),
{
    if s.len() == 0 || crate::text::utf8(s).len() <= budget {
        s
    } else {
        tail_within(s.drop_first(), budget)
    }
}

/// A path as the progress screen shows it in `max` bytes: when it is longer
/// and there is room for more than the ellipsis, `…` and the longest end of
/// the path that fits in the bytes left.
pub open spec fn shown_path(s: Seq<char>, max: nat) -> Seq<char> {
    if crate::text::utf8(s).len() > max && max > 1 {
        seq!['…'] + tail_within(s, (max - 1) as nat)
    } else {
        s
    }
}

/// The number of bytes of a character in UTF-8.
fn char_width(c: char) -> (r: usize)
    ensures
        r == vstd::utf8::encode_scalar(c as u32).len(),
{
    let v = c as u32;
    if v <= 0x7F {
        1
    } else if v <= 0x7FF {
        2
    } else if v <= 0xFFFF {
        3
    } else {
        4
    }
}

/// The current path shortened to `max` bytes; see `shown_path`.
pub fn shorten_path(path: &str, max: usize) -> (r: String)
    ensures
        r@ == shown_path(path@, max as nat),
{
    let total = path.as_bytes().len();
    if !(total > max && max > 1) {
        return path.to_owned();
    }
    let cs = crate::paths::chars_of(path);
    let n = cs.len();
    let budget = max - 1;
    let ghost s = cs@;
    let mut k: usize = 0;
    let mut acc = total;
    assert(s.skip(0) =~= s);
    while k < n && acc > budget
        invariant
            k <= n == s.len(),
            s == cs@,
            s == path@,
            acc == crate::text::utf8(s.skip(k as int)).len(),
            tail_within(s, budget as nat) == tail_within(s.skip(k as int), budget as nat),
        decreases n - k,
    {
        let w = char_width(cs[k]);
        proof {
            let t = s.skip(k as int);
            assert(t[0] == s[k as int]);
            assert(t.drop_first() =~= s.skip(k + 1));
            assert(crate::text::utf8(t) == vstd::utf8::encode_scalar(s[k as int] as u32) + crate::text::utf8(
                t.drop_first(),
            ));
        }
        acc = acc - w;
        k = k + 1;
    }
    proof {
        let t = s.skip(k as int);
        if k == n {
            assert(t.len() == 0);
        }
        assert(tail_within(t, budget as nat) == t);
        assert(t =~= s.subrange(k as int, n as int));
    }
    let mut out = String::new();
    crate::text::push_char(&mut out, '…');
    let rest = crate::text::string_of_range(cs.as_slice(), k, n);
    out.append(rest.as_str());
    out
}

/// A byte count as `humansize` writes it with its binary units (`1.50 KiB`).
pub uninterp spec fn binary_size_text(n: u64) -> Seq<char>;

/// `humansize::format_size` with the `BINARY` options.
#[verifier::external_body]
fn format_binary_size(n: u64) -> (r: String)
    ensures
        r@ == binary_size_text(n),
{
    humansize::format_size(n, humansize::BINARY)
}

/// A byte count as the display and the summaries write it.
pub fn human_bytes(n: u64) -> (r: String)
    ensures
        r@ == binary_size_text(n),
{
    format_binary_size(n)
}

} // verus!
