//! The strftime boundary: the one place where the library hands an
//! already-expanded template, an absolute instant and a timezone name
//! to chrono's formatting engine and chrono-tz's compiled timezone
//! database. Everything here is stated, not proved; the names below
//! stand for results that the outside crates compute from their
//! arguments alone.

use std::fmt::Write;
use vstd::prelude::*;

verus! {

/// Whether `name` is a timezone name that chrono-tz's compiled
/// database resolves (the result of `chrono_tz::Tz::from_str`, a
/// lookup in a static table).
pub uninterp spec fn tz_known(name: Seq<char>) -> bool;

/// Whether `ms` milliseconds since the UNIX epoch lies in the range
/// that `chrono::DateTime::from_timestamp_millis` accepts (about
/// 262,000 years either side of the common era).
pub uninterp spec fn millis_in_datetime_range(ms: int) -> bool;

/// Whether chrono's strftime engine renders `template` against the
/// instant `ms` shown in the zone `tz_name` without error; the engine
/// fails on templates holding a malformed format specifier.
pub uninterp spec fn strftime_ok(ms: int, template: Seq<char>, tz_name: Seq<char>) -> bool;

/// The text that chrono's strftime engine produces for `template`
/// against the instant `ms` shown in the zone `tz_name`. The timezone
/// database is compiled in, so the result is a function of these
/// arguments alone.
pub uninterp spec fn strftime_render(ms: int, template: Seq<char>, tz_name: Seq<char>) -> Seq<
    char,
>;

/// Relies on `chrono_tz::Tz::from_str` (a static-table lookup, `Err`
/// exactly for unknown names), `chrono::DateTime::from_timestamp_millis`
/// (`None` exactly for out-of-range milliseconds) and chrono's
/// strftime engine via `DateTime::format` written through `write!`
/// (`Err` exactly for templates it refuses, never a panic).
#[verifier::external_body]
pub(crate) fn render_strftime(ts_ms: i64, template: &str, tz_name: &str) -> (r: Option<String>)
    ensures
        (r is Some) == (tz_known(tz_name@) && millis_in_datetime_range(ts_ms as int)
            && strftime_ok(ts_ms as int, template@, tz_name@)),
        r matches Some(s) ==> s@ == strftime_render(ts_ms as int, template@, tz_name@),
{
    let tz: chrono_tz::Tz = match tz_name.parse() {
        Ok(tz) => tz,
        Err(_) => return None,
    };
    let utc = match chrono::DateTime::from_timestamp_millis(ts_ms) {
        Some(utc) => utc,
        None => return None,
    };
    let mut out = String::new();
    match write!(&mut out, "{}", utc.with_timezone(&tz).format(template)) {
        Ok(()) => Some(out),
        Err(_) => None,
    }
}

/// Relies on `String::push`: appends the character to the end of the
/// string.
#[verifier::external_body]
pub(crate) fn push_char(s: &mut String, c: char)
    ensures
        final(s)@ == old(s)@.push(c),
{
    s.push(c);
}

/// The characters of `v` as a `String`.
pub fn chars_to_string(v: &Vec<char>) -> (s: String)
    ensures
        s@ == v@,
{
    let mut s = String::new();
    let mut j: usize = 0;
    while j < v.len()
        invariant
            j <= v@.len(),
            s@ == v@.take(j as int),
        decreases v@.len() - j,
    {
        let c: char = v[j];
        push_char(&mut s, c);
        assert(v@.take(j as int + 1) =~= v@.take(j as int).push(c));
        j += 1;
    }
    assert(v@.take(j as int) =~= v@);
    s
}

/// The characters of `s` as a `Vec`.
pub fn str_to_chars(s: &str) -> (v: Vec<char>)
    ensures
        v@ == s@,
{
    let n: usize = s.unicode_len();
    let mut v: Vec<char> = Vec::new();
    let mut j: usize = 0;
    while j < n
        invariant
            j <= n,
            n == s@.len(),
            v@ == s@.take(j as int),
        decreases n - j,
    {
        let c: char = s.get_char(j);
        v.push(c);
        assert(s@.take(j as int + 1) =~= s@.take(j as int).push(c));
        j += 1;
    }
    assert(s@.take(j as int) =~= s@);
    v
}

} // verus!
