//! Epoch resolution: the two named epochs and the
//! `seconds[.fractional]` numeric grammar for arbitrary UNIX
//! timestamps, kept to millisecond precision.

use vstd::prelude::*;
use crate::render::str_to_chars;

verus! {

/// Rejection of epoch text that is neither a recognized name nor a
/// well-formed numeric timestamp in range.
#[derive(Clone, Copy, Debug, PartialEq, Eq, Structural)]
pub struct ParseError;

/// 2010-11-04T01:42:54.657Z, as milliseconds since the UNIX epoch.
pub const TWITTER_EPOCH_MS: i64 = 1288834974657;

/// 2015-01-01T00:00:00Z, as milliseconds since the UNIX epoch.
pub const DISCORD_EPOCH_MS: i64 = 1420070400000;

/// Whether `c` is a decimal digit.
pub open spec fn is_digit(c: char) -> bool {
    48 <= c as u32 <= 57
}

/// The value of the decimal digit `c`.
pub open spec fn digit_val(c: char) -> int {
    c as u32 - 48
}

/// Whether every character of `s` is a decimal digit.
pub open spec fn all_digits(s: Seq<char>) -> bool {
    forall|j: int| 0 <= j < s.len() ==> is_digit(s[j])
}

/// The value of `s` read as a base-10 numeral.
pub open spec fn digits_val(s: Seq<char>) -> int
    decreases s.len(),
{
    if s.len() == 0 {
        0
    } else {
        digits_val(s.drop_last()) * 10 + digit_val(s.last())
    }
}

/// Ten to the `k`.
pub open spec fn pow10(k: nat) -> int
    decreases k,
{
    if k == 0 {
        1
    } else {
        10 * pow10((k - 1) as nat)
    }
}

/// The index of the first occurrence of `c` in `s`, or `-1`.
pub open spec fn find_char(s: Seq<char>, c: char) -> int
    decreases s.len(),
{
    if s.len() == 0 {
        -1
    } else if s[0] == c {
        0
    } else if find_char(s.skip(1), c) < 0 {
        -1
    } else {
        1 + find_char(s.skip(1), c)
    }
}

/// The milliseconds named by the fractional-second digits `fr`: the
/// first three digits, zero-padded on the right; digits past the
/// third name less than a millisecond and are discarded.
pub open spec fn frac_millis(fr: Seq<char>) -> int {
    if fr.len() >= 3 {
        digits_val(fr.take(3))
    } else {
        digits_val(fr) * pow10((3 - fr.len()) as nat)
    }
}

/// Whether the numeral is negated.
pub open spec fn epoch_negative(s: Seq<char>) -> bool {
    s.len() > 0 && s[0] == '-'
}

/// The numeral with its sign stripped.
pub open spec fn epoch_body(s: Seq<char>) -> Seq<char> {
    if epoch_negative(s) {
        s.skip(1)
    } else {
        s
    }
}

/// The `seconds[.fractional]` grammar: an optional leading minus,
/// one or more digits, then optionally a dot followed by one or more
/// digits, and nothing else.
pub open spec fn numeric_wf(s: Seq<char>) -> bool {
    let body = epoch_body(s);
    let d = find_char(body, '.');
    if d < 0 {
        body.len() > 0 && all_digits(body)
    } else {
        d > 0 && d + 1 < body.len() && all_digits(body.take(d)) && all_digits(body.skip(d + 1))
    }
}

/// The milliseconds named by a well-formed numeral: the sign applies
/// to the whole timestamp, fractional part included.
pub open spec fn numeric_millis(s: Seq<char>) -> int {
    let body = epoch_body(s);
    let d = find_char(body, '.');
    let secs = if d < 0 {
        digits_val(body)
    } else {
        digits_val(body.take(d))
    };
    let fm = if d < 0 {
        0
    } else {
        frac_millis(body.skip(d + 1))
    };
    let mag = secs * 1000 + fm;
    if epoch_negative(s) {
        -mag
    } else {
        mag
    }
}

/// `find_char` names the first occurrence: the character is there,
/// and nowhere earlier.
pub proof fn lemma_find_char(s: Seq<char>, c: char)
    ensures
        find_char(s, c) >= 0 ==> {
            &&& find_char(s, c) < s.len()
            &&& s[find_char(s, c)] == c
            &&& forall|j: int| 0 <= j < find_char(s, c) ==> s[j] != c
        },
        find_char(s, c) < 0 ==> forall|j: int| 0 <= j < s.len() ==> s[j] != c,
    decreases s.len(),
{
    if s.len() == 0 {
    } else if s[0] == c {
    } else {
        lemma_find_char(s.skip(1), c);
        if find_char(s, c) >= 0 {
            let f = find_char(s.skip(1), c);
            assert(s[f + 1] == s.skip(1)[f]);
            assert forall|j: int| 0 <= j < f + 1 implies s[j] != c by {
                if j >= 1 {
                    assert(s.skip(1)[j - 1] == s[j]);
                }
            }
        } else {
            assert forall|j: int| 0 <= j < s.len() implies s[j] != c by {
                if j >= 1 {
                    assert(s.skip(1)[j - 1] == s[j]);
                }
            }
        }
    }
}

/// The first four powers of ten, spelled out.
pub proof fn lemma_pow10_small()
    ensures
        pow10(0) == 1,
        pow10(1) == 10,
        pow10(2) == 100,
        pow10(3) == 1000,
{
    assert(pow10(0) == 1);
    assert(pow10(1) == 10);
    assert(pow10(2) == 100);
    assert(pow10(3) == 1000);
}

/// Appending one digit multiplies the numeral by ten and adds it.
pub proof fn lemma_digits_val_snoc(s: Seq<char>, a: int, b: int)
    requires
        0 <= a <= b < s.len(),
    ensures
        digits_val(s.subrange(a, b + 1)) == digits_val(s.subrange(a, b)) * 10 + digit_val(s[b]),
{
    assert(s.subrange(a, b + 1).drop_last() =~= s.subrange(a, b));
    assert(s.subrange(a, b + 1).last() == s[b]);
}

/// A numeral of digits is not negative.
pub proof fn lemma_digits_val_nonneg(s: Seq<char>)
    requires
        all_digits(s),
    ensures
        digits_val(s) >= 0,
    decreases s.len(),
{
    if s.len() > 0 {
        assert(all_digits(s.drop_last()));
        lemma_digits_val_nonneg(s.drop_last());
    }
}

/// Whether `c` is a decimal digit.
fn is_dig(c: char) -> (b: bool)
    ensures
        b == is_digit(c),
{
    48 <= c as u32 && c as u32 <= 57
}

/// Reads the longest run of digits starting at `from`: its end, its
/// value, and whether the value outgrew a `u64`.
#[verifier::loop_isolation(false)]
fn scan_int(cs: &Vec<char>, from: usize) -> (r: (usize, u64, bool))
    requires
        from <= cs@.len(),
    ensures
        ({
            let (i, secs, big) = r;
            &&& from <= i <= cs@.len()
            &&& forall|k: int| from <= k < i ==> is_digit(cs@[k])
            &&& (i < cs@.len() ==> !is_digit(cs@[i as int]))
            &&& (!big ==> secs as int == digits_val(cs@.subrange(from as int, i as int)))
            &&& (big ==> digits_val(cs@.subrange(from as int, i as int)) > u64::MAX as int)
        }),
{
    let n: usize = cs.len();
    let mut i: usize = from;
    let mut secs: u64 = 0;
    let mut big: bool = false;
    while i < n && is_dig(cs[i])
        invariant
            from <= i <= n,
            forall|k: int| from <= k < i ==> is_digit(cs@[k]),
            !big ==> secs as int == digits_val(cs@.subrange(from as int, i as int)),
            big ==> digits_val(cs@.subrange(from as int, i as int)) > u64::MAX as int,
        decreases n - i,
    {
        let c: char = cs[i];
        let dv: u64 = (c as u32 - 48) as u64;
        proof {
            lemma_digits_val_snoc(cs@, from as int, i as int);
        }
        if big {
            proof {
                let prev = digits_val(cs@.subrange(from as int, i as int));
                assert(all_digits(cs@.subrange(from as int, i as int)));
                lemma_digits_val_nonneg(cs@.subrange(from as int, i as int));
                assert(prev * 10 == prev + 9 * prev);
            }
        } else {
            match secs.checked_mul(10) {
                Some(t) => {
                    match t.checked_add(dv) {
                        Some(t2) => {
                            secs = t2;
                        },
                        None => {
                            big = true;
                        },
                    }
                },
                None => {
                    big = true;
                },
            }
        }
        i += 1;
    }
    (i, secs, big)
}

/// Reads a fractional-second field that must cover all of `cs` from
/// `from` on: `None` when it is empty or holds a non-digit, else its
/// value in milliseconds.
#[verifier::loop_isolation(false)]
fn scan_frac(cs: &Vec<char>, from: usize) -> (r: Option<u64>)
    requires
        from <= cs@.len(),
    ensures
        ({
            let frac = cs@.skip(from as int);
            &&& (r is Some) == (frac.len() > 0 && all_digits(frac))
            &&& (r matches Some(fm) ==> fm as int == frac_millis(frac) && fm < 1000)
        }),
{
    let ghost frac = cs@.skip(from as int);
    proof {
        assert(forall|k: int| 0 <= k < frac.len() ==> frac[k] == cs@[from + k]);
    }
    let n: usize = cs.len();
    let mut j: usize = from;
    let mut fm: u64 = 0;
    let mut c3: usize = 0;
    while j < n && c3 < 3 && is_dig(cs[j])
        invariant
            from <= j <= n,
            c3 == j - from,
            c3 <= 3,
            forall|k: int| from <= k < j ==> is_digit(cs@[k]),
            fm as int == digits_val(cs@.subrange(from as int, j as int)),
            fm < pow10(c3 as nat),
        decreases n - j,
    {
        let c: char = cs[j];
        let dv: u64 = (c as u32 - 48) as u64;
        proof {
            lemma_digits_val_snoc(cs@, from as int, j as int);
            lemma_pow10_small();
            assert(pow10((c3 + 1) as nat) == 10 * pow10(c3 as nat));
        }
        fm = fm * 10 + dv;
        c3 += 1;
        j += 1;
    }
    let ghost j1 = j;
    proof {
        assert(j1 == n || c3 == 3 || !is_digit(cs@[j1 as int]));
    }
    if c3 == 0 {
        // Nothing there, or a non-digit right away.
        proof {
            if from < n {
                assert(frac[0] == cs@[from as int]);
                assert(!is_digit(frac[0]));
            }
        }
        return None;
    }
    // Validate the digits past the third; they are finer than a
    // millisecond and contribute nothing.
    while j < n
        invariant
            from <= j <= n,
            forall|k: int| from <= k < j ==> is_digit(cs@[k]),
        decreases n - j,
    {
        if !is_dig(cs[j]) {
            proof {
                assert(frac[j - from] == cs@[j as int]);
                assert(!all_digits(frac));
            }
            return None;
        }
        j += 1;
    }
    proof {
        assert(forall|k: int| 0 <= k < frac.len() ==> is_digit(frac[k]));
        // Which digits the first scan took: the first three, or all
        // of a shorter fraction.
        if frac.len() >= 3 {
            if c3 < 3 {
                if j1 < n {
                    assert(is_digit(cs@[j1 as int]));
                    assert(false);
                }
                assert(c3 == frac.len());
                assert(false);
            }
            assert(frac.take(3) =~= cs@.subrange(from as int, j1 as int));
        } else {
            if j1 < n {
                assert(is_digit(cs@[j1 as int]));
                assert(c3 == 3 && j1 == from + 3);
                assert(false);
            }
            assert(c3 == frac.len());
            assert(frac =~= cs@.subrange(from as int, j1 as int));
        }
    }
    // Pad short fractions to exactly three digits.
    let ghost fm0 = fm as int;
    let ghost c0 = c3 as int;
    proof {
        lemma_pow10_small();
        assert(((c3 as int) - c0) as nat == 0);
        assert(fm0 * 1 == fm0);
        assert(fm as int == fm0 * pow10(((c3 as int) - c0) as nat));
    }
    while c3 < 3
        invariant
            c0 <= c3 <= 3,
            fm as int == fm0 * pow10((c3 - c0) as nat),
            fm < pow10(c3 as nat),
        decreases 3 - c3,
    {
        proof {
            let p = pow10((c3 - c0) as nat);
            lemma_pow10_small();
            assert(pow10((c3 + 1) as nat) == 10 * pow10(c3 as nat));
            assert(pow10(((c3 + 1) - c0) as nat) == 10 * p);
            assert(10 * (fm0 * p) == fm0 * (10 * p)) by (nonlinear_arith);
        }
        fm = fm * 10;
        c3 += 1;
    }
    proof {
        lemma_pow10_small();
        assert(fm as int == fm0 * pow10((3 - c0) as nat));
        if frac.len() >= 3 {
            assert(c0 == 3);
            assert((3 - c0) as nat == 0);
            assert(fm as int == fm0 * 1);
            assert(fm0 == digits_val(frac.take(3)));
            assert(fm as int == digits_val(frac.take(3)));
        } else {
            assert(c0 == frac.len());
            assert(fm as int == digits_val(frac) * pow10((3 - frac.len()) as nat));
        }
        assert(fm as int == frac_millis(frac));
        assert(fm < 1000);
    }
    Some(fm)
}

/// Parses epoch text: the names `twitter` and `discord` yield their
/// fixed instants; anything else is read against the
/// `seconds[.fractional]` grammar, `Err` exactly when the text is
/// malformed or the value does not fit signed 64-bit milliseconds.
pub fn parse_epoch(s: &str) -> (r: Result<i64, ParseError>)
    ensures
        s@ == "twitter"@ ==> r == Ok::<i64, ParseError>(TWITTER_EPOCH_MS),
        s@ == "discord"@ ==> r == Ok::<i64, ParseError>(DISCORD_EPOCH_MS),
        s@ != "twitter"@ && s@ != "discord"@ ==> {
            &&& (r is Ok) == (numeric_wf(s@) && i64::MIN <= numeric_millis(s@) <= i64::MAX)
            &&& (r matches Ok(m) ==> m == numeric_millis(s@))
        },
{
    proof {
        reveal_strlit("twitter");
        reveal_strlit("discord");
        assert("twitter"@[0] == 't');
        assert("discord"@[0] == 'd');
    }
    let owned: String = s.to_owned();
    if owned == String::from_str("twitter") {
        return Ok(TWITTER_EPOCH_MS);
    }
    if owned == String::from_str("discord") {
        return Ok(DISCORD_EPOCH_MS);
    }
    parse_numeric_epoch(s)
}

/// Parses a `seconds[.fractional]` numeral as signed milliseconds.
#[verifier::rlimit(60)]
fn parse_numeric_epoch(s: &str) -> (r: Result<i64, ParseError>)
    ensures
        (r is Ok) == (numeric_wf(s@) && i64::MIN <= numeric_millis(s@) <= i64::MAX),
        r matches Ok(m) ==> m == numeric_millis(s@),
{
    let cs = str_to_chars(s);
    let n: usize = cs.len();
    let neg: bool = n > 0 && cs[0] == '-';
    let start: usize = if neg {
        1
    } else {
        0
    };
    let ghost body = s@.skip(start as int);
    proof {
        assert(s@.skip(0) =~= s@);
        assert(body == epoch_body(s@));
        assert(forall|k: int| 0 <= k < body.len() ==> body[k] == s@[start + k]);
    }
    let (i, secs, big) = scan_int(&cs, start);
    if i == start {
        // No seconds digits at all: empty body, or one that starts
        // with a non-digit (a lone dot included).
        proof {
            lemma_find_char(body, '.');
            if body.len() > 0 {
                assert(body[0] == s@[start as int]);
                assert(!is_digit(body[0]));
                let d = find_char(body, '.');
                if d > 0 {
                    assert(body.take(d)[0] == body[0]);
                    assert(!all_digits(body.take(d)));
                }
            }
            assert(!numeric_wf(s@));
        }
        return Err(ParseError);
    }
    let ghost intpart = s@.subrange(start as int, i as int);
    proof {
        assert(intpart =~= body.take(i - start));
        assert(all_digits(intpart));
    }
    let mut fm: u64 = 0;
    if i == n {
        // No fractional part: the body is digits throughout.
        proof {
            lemma_find_char(body, '.');
            assert(forall|k: int| 0 <= k < body.len() ==> is_digit(body[k]));
            if find_char(body, '.') >= 0 {
                assert(is_digit(body[find_char(body, '.')]));
                assert(false);
            }
            assert(body.take(i - start) =~= body);
            assert(numeric_wf(s@));
        }
    } else if cs[i] == '.' {
        proof {
            // The dot at `i` is the first: everything before it is a
            // digit.
            lemma_find_char(body, '.');
            let d = find_char(body, '.');
            assert(body[i - start] == '.');
            if d < 0 {
                assert(false);
            }
            if d < i - start {
                assert(is_digit(body[d]));
                assert(false);
            }
            if d > i - start {
                assert(body[i - start] != '.');
                assert(false);
            }
            assert(d == i - start);
        }
        let ghost frac = s@.skip(i as int + 1);
        proof {
            assert(frac =~= body.skip((i - start) + 1));
            assert(frac =~= cs@.skip(i as int + 1));
        }
        match scan_frac(&cs, i + 1) {
            Some(f) => {
                fm = f;
                proof {
                    assert(frac.len() > 0 && all_digits(frac));
                    assert(numeric_wf(s@));
                }
            },
            None => {
                proof {
                    assert(!(frac.len() > 0 && all_digits(frac)));
                    assert(!numeric_wf(s@));
                }
                return Err(ParseError);
            },
        }
    } else {
        // A character that is neither a digit nor the first dot.
        proof {
            lemma_find_char(body, '.');
            let d = find_char(body, '.');
            assert(body[i - start] == s@[i as int]);
            assert(!is_digit(body[i - start]) && body[i - start] != '.');
            if d < 0 {
                assert(!all_digits(body));
            } else {
                if d <= i - start {
                    assert(is_digit(body[d]) || body[d] != '.');
                    assert(false);
                }
                assert(body.take(d)[i - start] == body[i - start]);
                assert(!all_digits(body.take(d)));
            }
            assert(!numeric_wf(s@));
        }
        return Err(ParseError);
    }
    // The sign, magnitude and range of the final value.
    let ghost d = find_char(body, '.');
    let ghost secs_v = if d < 0 {
        digits_val(body)
    } else {
        digits_val(body.take(d))
    };
    let ghost fm_v = if d < 0 {
        0int
    } else {
        frac_millis(body.skip(d + 1))
    };
    proof {
        if i == n {
            assert(d < 0);
            assert(body.take(i - start) =~= body);
            assert(fm_v == 0);
        } else {
            assert(d == i - start);
            assert(body.take(d) =~= intpart);
            assert(body.skip(d + 1) =~= s@.skip(i as int + 1));
        }
        assert(secs_v == digits_val(intpart));
        assert(numeric_millis(s@) == (if neg {
            -(secs_v * 1000 + fm_v)
        } else {
            secs_v * 1000 + fm_v
        }));
        assert(fm_v == fm as int);
        assert(fm < 1000);
    }
    if big {
        proof {
            assert(secs_v > u64::MAX as int);
            lemma_digits_val_nonneg(intpart);
            assert(secs_v * 1000 == secs_v + 999 * secs_v);
            assert(secs_v * 1000 + fm_v > i64::MAX);
        }
        return Err(ParseError);
    }
    let wide: i128 = (secs as i128) * 1000 + (fm as i128);
    let value: i128 = if neg {
        -wide
    } else {
        wide
    };
    proof {
        assert(value == numeric_millis(s@));
    }
    if value < i64::MIN as i128 || value > i64::MAX as i128 {
        return Err(ParseError);
    }
    Ok(value as i64)
}

} // verus!
