//! The custom-directive pre-pass of the formatter: `%^d`, `%^w` and
//! `%^s` are replaced by the decimal renderings of the datacenter,
//! worker and sequence ids, while the literal-percent escape `%%` is
//! kept verbatim and is never read as the start of a directive.

use vstd::prelude::*;
use crate::epoch::all_digits;
use crate::epoch::is_digit;

verus! {

/// The decimal digit character of `d`, for `d < 10`.
pub open spec fn digit_char(d: nat) -> char {
    if d == 0 {
        '0'
    } else if d == 1 {
        '1'
    } else if d == 2 {
        '2'
    } else if d == 3 {
        '3'
    } else if d == 4 {
        '4'
    } else if d == 5 {
        '5'
    } else if d == 6 {
        '6'
    } else if d == 7 {
        '7'
    } else if d == 8 {
        '8'
    } else {
        '9'
    }
}

/// The base-10 rendering of `n`: no sign, no leading zeros (a lone
/// `'0'` for zero).
pub open spec fn dec_digits(n: nat) -> Seq<char>
    decreases n,
{
    if n < 10 {
        seq![digit_char(n)]
    } else {
        dec_digits(n / 10).push(digit_char(n % 10))
    }
}

/// One left-to-right pass over the template. At each position the
/// literal escape `%%` is matched first and copied verbatim, so that
/// neither a percent sign it escapes nor the text that follows it can
/// be taken for the start of a custom directive; otherwise `%^d`,
/// `%^w` and `%^s` are replaced by `d`, `w` and `q`, and any other
/// character is copied. Replaced text is emitted, never rescanned.
pub open spec fn expand_spec(s: Seq<char>, d: Seq<char>, w: Seq<char>, q: Seq<char>) -> Seq<char>
    decreases s.len(),
{
    if s.len() >= 2 && s[0] == '%' && s[1] == '%' {
        seq!['%', '%'] + expand_spec(s.skip(2), d, w, q)
    } else if s.len() >= 3 && s[0] == '%' && s[1] == '^' && s[2] == 'd' {
        d + expand_spec(s.skip(3), d, w, q)
    } else if s.len() >= 3 && s[0] == '%' && s[1] == '^' && s[2] == 'w' {
        w + expand_spec(s.skip(3), d, w, q)
    } else if s.len() >= 3 && s[0] == '%' && s[1] == '^' && s[2] == 's' {
        q + expand_spec(s.skip(3), d, w, q)
    } else if s.len() == 0 {
        Seq::empty()
    } else {
        seq![s[0]] + expand_spec(s.skip(1), d, w, q)
    }
}

/// Appends the base-10 rendering of `n` to `out`.
fn push_dec(n: u64, out: &mut Vec<char>)
    ensures
        final(out)@ == old(out)@ + dec_digits(n as nat),
    decreases n,
{
    if n >= 10 {
        push_dec(n / 10, out);
    }
    let m: u64 = n % 10;
    let c: char = if m == 0 {
        '0'
    } else if m == 1 {
        '1'
    } else if m == 2 {
        '2'
    } else if m == 3 {
        '3'
    } else if m == 4 {
        '4'
    } else if m == 5 {
        '5'
    } else if m == 6 {
        '6'
    } else if m == 7 {
        '7'
    } else if m == 8 {
        '8'
    } else {
        '9'
    };
    assert(c == digit_char(n as nat % 10));
    out.push(c);
    if n < 10 {
        assert(out@ =~= old(out)@ + dec_digits(n as nat));
    } else {
        assert(out@ =~= old(out)@ + dec_digits(n as nat / 10).push(digit_char(n as nat % 10)));
    }
}

/// The base-10 rendering of `n` as characters.
pub fn u64_to_dec(n: u64) -> (v: Vec<char>)
    ensures
        v@ == dec_digits(n as nat),
{
    let mut v: Vec<char> = Vec::new();
    push_dec(n, &mut v);
    assert(v@ =~= dec_digits(n as nat));
    v
}

/// Appends all of `piece` to `out`.
fn push_all(out: &mut Vec<char>, piece: &Vec<char>)
    ensures
        final(out)@ == old(out)@ + piece@,
{
    let mut j: usize = 0;
    while j < piece.len()
        invariant
            j <= piece@.len(),
            out@ == old(out)@ + piece@.take(j as int),
        decreases piece@.len() - j,
    {
        let c: char = piece[j];
        out.push(c);
        assert(piece@.take(j as int + 1) =~= piece@.take(j as int).push(c));
        assert(out@ =~= old(out)@ + piece@.take(j as int + 1));
        j += 1;
    }
    assert(piece@.take(j as int) =~= piece@);
}

/// Expands the three custom directives of `template` against the given
/// field values, leaving everything else — the `%%` escape included —
/// verbatim for the strftime engine.
pub fn expand_template(template: &Vec<char>, data_center: u8, worker: u8, sequence: u16) -> (out:
    Vec<char>)
    ensures
        out@ == expand_spec(
            template@,
            dec_digits(data_center as nat),
            dec_digits(worker as nat),
            dec_digits(sequence as nat),
        ),
{
    let d = u64_to_dec(data_center as u64);
    let w = u64_to_dec(worker as u64);
    let q = u64_to_dec(sequence as u64);
    let mut out: Vec<char> = Vec::new();
    let mut i: usize = 0;
    let n: usize = template.len();
    assert(template@.skip(0) =~= template@);
    assert(Seq::<char>::empty() + expand_spec(template@, d@, w@, q@) =~= expand_spec(
        template@,
        d@,
        w@,
        q@,
    ));
    while i < n
        invariant
            i <= n,
            n == template@.len(),
            d@ == dec_digits(data_center as nat),
            w@ == dec_digits(worker as nat),
            q@ == dec_digits(sequence as nat),
            expand_spec(template@, d@, w@, q@) == out@ + expand_spec(
                template@.skip(i as int),
                d@,
                w@,
                q@,
            ),
        decreases n - i,
    {
        let ghost rest = template@.skip(i as int);
        assert(rest.len() == n - i);
        assert(forall|k: int| 0 <= k < rest.len() ==> rest[k] == template@[i + k]);
        let ghost out_prev = out@;
        if n - i >= 2 && template[i] == '%' && template[i + 1] == '%' {
            out.push('%');
            out.push('%');
            proof {
                assert(rest.skip(2) =~= template@.skip(i as int + 2));
                assert(expand_spec(rest, d@, w@, q@) == seq!['%', '%'] + expand_spec(
                    rest.skip(2),
                    d@,
                    w@,
                    q@,
                ));
                assert(out@ =~= out_prev + seq!['%', '%']);
                assert(out_prev + (seq!['%', '%'] + expand_spec(rest.skip(2), d@, w@, q@)) =~= out@
                    + expand_spec(rest.skip(2), d@, w@, q@));
            }
            i += 2;
        } else if n - i >= 3 && template[i] == '%' && template[i + 1] == '^' && (template[i + 2]
            == 'd' || template[i + 2] == 'w' || template[i + 2] == 's') {
            let tag: char = template[i + 2];
            if tag == 'd' {
                push_all(&mut out, &d);
            } else if tag == 'w' {
                push_all(&mut out, &w);
            } else {
                push_all(&mut out, &q);
            }
            proof {
                assert(rest.skip(3) =~= template@.skip(i as int + 3));
                let piece = if template@[i + 2] == 'd' {
                    d@
                } else if template@[i + 2] == 'w' {
                    w@
                } else {
                    q@
                };
                assert(out@ =~= out_prev + piece);
                assert(expand_spec(rest, d@, w@, q@) == piece + expand_spec(
                    rest.skip(3),
                    d@,
                    w@,
                    q@,
                ));
                assert(out_prev + (piece + expand_spec(rest.skip(3), d@, w@, q@)) =~= out@
                    + expand_spec(rest.skip(3), d@, w@, q@));
            }
            i += 3;
        } else {
            let c: char = template[i];
            out.push(c);
            proof {
                assert(rest.skip(1) =~= template@.skip(i as int + 1));
                assert(expand_spec(rest, d@, w@, q@) == seq![c] + expand_spec(
                    rest.skip(1),
                    d@,
                    w@,
                    q@,
                ));
                assert(out@ =~= out_prev + seq![c]);
                assert(out_prev + (seq![c] + expand_spec(rest.skip(1), d@, w@, q@)) =~= out@
                    + expand_spec(rest.skip(1), d@, w@, q@));
            }
            i += 1;
        }
        assert(expand_spec(template@, d@, w@, q@) == out@ + expand_spec(
            template@.skip(i as int),
            d@,
            w@,
            q@,
        ));
    }
    assert(template@.skip(n as int) =~= Seq::<char>::empty());
    out
}

/// A decimal rendering is at least one character, all of them digits.
pub proof fn lemma_dec_digits_decimal(n: nat)
    ensures
        dec_digits(n).len() >= 1,
        all_digits(dec_digits(n)),
    decreases n,
{
    if n < 10 {
        assert(is_digit(digit_char(n)));
    } else {
        lemma_dec_digits_decimal(n / 10);
        let p = dec_digits(n / 10);
        assert(is_digit(digit_char(n % 10)));
        assert(forall|i: int|
            0 <= i < p.push(digit_char(n % 10)).len() ==> is_digit(
                #[trigger] p.push(digit_char(n % 10))[i],
            ));
    }
}

/// The first character of an expansion: the template's own first
/// character, or the first digit of an inserted field value.
pub proof fn lemma_expand_head(s: Seq<char>, d: Seq<char>, w: Seq<char>, q: Seq<char>)
    requires
        d.len() >= 1 && all_digits(d),
        w.len() >= 1 && all_digits(w),
        q.len() >= 1 && all_digits(q),
    ensures
        s.len() == 0 ==> expand_spec(s, d, w, q).len() == 0,
        s.len() > 0 ==> expand_spec(s, d, w, q).len() > 0,
        s.len() > 0 ==> (expand_spec(s, d, w, q)[0] == s[0] || is_digit(
            expand_spec(s, d, w, q)[0],
        )),
{
    if s.len() >= 2 && s[0] == '%' && s[1] == '%' {
        assert(expand_spec(s, d, w, q)[0] == '%');
    } else if s.len() >= 3 && s[0] == '%' && s[1] == '^' && s[2] == 'd' {
        assert(expand_spec(s, d, w, q)[0] == d[0]);
    } else if s.len() >= 3 && s[0] == '%' && s[1] == '^' && s[2] == 'w' {
        assert(expand_spec(s, d, w, q)[0] == w[0]);
    } else if s.len() >= 3 && s[0] == '%' && s[1] == '^' && s[2] == 's' {
        assert(expand_spec(s, d, w, q)[0] == q[0]);
    } else if s.len() > 0 {
        assert(expand_spec(s, d, w, q)[0] == s[0]);
    }
}

/// Text without a percent sign passes through an expansion untouched,
/// and seals itself off from what follows: nothing of it can start a
/// directive.
pub proof fn lemma_expand_no_percent_prefix(
    p: Seq<char>,
    x: Seq<char>,
    d: Seq<char>,
    w: Seq<char>,
    q: Seq<char>,
)
    requires
        forall|i: int| 0 <= i < p.len() ==> p[i] != '%',
    ensures
        expand_spec(p + x, d, w, q) == p + expand_spec(x, d, w, q),
    decreases p.len(),
{
    if p.len() == 0 {
        assert(p + x =~= x);
        assert(p + expand_spec(x, d, w, q) =~= expand_spec(x, d, w, q));
    } else {
        let t = p + x;
        assert(t[0] == p[0]);
        assert(t[0] != '%');
        assert(expand_spec(t, d, w, q) == seq![t[0]] + expand_spec(t.skip(1), d, w, q));
        assert(t.skip(1) =~= p.skip(1) + x);
        lemma_expand_no_percent_prefix(p.skip(1), x, d, w, q);
        assert(seq![p[0]] + (p.skip(1) + expand_spec(x, d, w, q)) =~= p + expand_spec(x, d, w, q));
    }
}

/// Literal-percent safety: in any template `u ++ "%%^X" ++ v` (with
/// `X` any of the directive letters `d`, `w`, `s`) whose prefix `u`
/// does not itself end just before the escape with a stray `'%'`, the
/// `"%%"` stays verbatim, the `"^X"` after it is never taken for a
/// directive, and the text on either side expands independently.
#[verifier::rlimit(100)]
pub proof fn lemma_literal_percent_safety(
    u: Seq<char>,
    tag: char,
    v: Seq<char>,
    d: Seq<char>,
    w: Seq<char>,
    q: Seq<char>,
)
    requires
        tag == 'd' || tag == 'w' || tag == 's',
        u.len() == 0 || u.last() != '%',
    ensures
        expand_spec(u + seq!['%', '%', '^', tag] + v, d, w, q) == expand_spec(
            u + seq!['%', '%'],
            d,
            w,
            q,
        ) + seq!['^', tag] + expand_spec(v, d, w, q),
    decreases u.len(),
{
    let esc = seq!['%', '%', '^', tag];
    let dbl = seq!['%', '%'];
    let t = u + esc + v;
    let r = u + dbl;
    if u.len() == 0 {
        assert(t =~= esc + v);
        assert(r =~= dbl);
        assert(t[0] == '%' && t[1] == '%');
        assert(expand_spec(t, d, w, q) == dbl + expand_spec(t.skip(2), d, w, q));
        assert(t.skip(2) =~= seq!['^', tag] + v);
        let tail = seq!['^', tag] + v;
        assert(tail[0] == '^' && tail[0] != '%');
        assert(expand_spec(tail, d, w, q) == seq!['^'] + expand_spec(tail.skip(1), d, w, q));
        assert(tail.skip(1) =~= seq![tag] + v);
        let tail2 = seq![tag] + v;
        assert(tail2[0] == tag && tail2[0] != '%');
        assert(expand_spec(tail2, d, w, q) == seq![tag] + expand_spec(tail2.skip(1), d, w, q));
        assert(tail2.skip(1) =~= v);
        assert(r[0] == '%' && r[1] == '%');
        assert(expand_spec(r, d, w, q) == dbl + expand_spec(r.skip(2), d, w, q));
        assert(r.skip(2) =~= Seq::<char>::empty());
        assert(expand_spec(Seq::<char>::empty(), d, w, q) == Seq::<char>::empty());
        assert(expand_spec(t, d, w, q) =~= expand_spec(r, d, w, q) + seq!['^', tag] + expand_spec(
            v,
            d,
            w,
            q,
        ));
    } else {
        // Both `t` and `r` begin with `u` followed by "%%", so the
        // scanner sees the same three-character window on each until
        // `u` is consumed.
        assert(t[0] == u[0] && r[0] == u[0]);
        assert(t.len() >= u.len() + 4 && r.len() == u.len() + 2);
        assert(t[1] == (if u.len() >= 2 {
            u[1]
        } else {
            '%'
        }));
        assert(r[1] == (if u.len() >= 2 {
            u[1]
        } else {
            '%'
        }));
        assert(t[2] == (if u.len() >= 3 {
            u[2]
        } else {
            '%'
        }));
        assert(r[2] == (if u.len() >= 3 {
            u[2]
        } else {
            '%'
        }));
        if t[0] == '%' && t[1] == '%' {
            // The escape cannot begin at the very end of `u`.
            assert(u.len() >= 2) by {
                if u.len() == 1 {
                    assert(u.last() == u[0] && u[0] == '%');
                }
            }
            assert(expand_spec(t, d, w, q) == dbl + expand_spec(t.skip(2), d, w, q));
            assert(expand_spec(r, d, w, q) == dbl + expand_spec(r.skip(2), d, w, q));
            assert(t.skip(2) =~= u.skip(2) + esc + v);
            assert(r.skip(2) =~= u.skip(2) + dbl);
            lemma_literal_percent_safety(u.skip(2), tag, v, d, w, q);
            assert(dbl + (expand_spec(u.skip(2) + dbl, d, w, q) + seq!['^', tag] + expand_spec(
                v,
                d,
                w,
                q,
            )) =~= (dbl + expand_spec(u.skip(2) + dbl, d, w, q)) + seq!['^', tag] + expand_spec(
                v,
                d,
                w,
                q,
            ));
        } else if t.len() >= 3 && t[0] == '%' && t[1] == '^' && (t[2] == 'd' || t[2] == 'w' || t[2]
            == 's') {
            // A directive straddling the boundary would need `u` to
            // end in '%' or the escape to supply a letter; neither
            // can happen, so the directive lies wholly inside `u`.
            assert(u.len() >= 2) by {
                if u.len() == 1 {
                    assert(u.last() == u[0] && u[0] == '%');
                }
            }
            assert(u.len() >= 3) by {
                if u.len() == 2 {
                    assert(t[2] == '%');
                }
            }
            let rep = if t[2] == 'd' {
                d
            } else if t[2] == 'w' {
                w
            } else {
                q
            };
            assert(expand_spec(t, d, w, q) == rep + expand_spec(t.skip(3), d, w, q));
            assert(r.len() >= 3 && r[0] == '%' && r[1] == '^' && r[2] == t[2]);
            assert(expand_spec(r, d, w, q) == rep + expand_spec(r.skip(3), d, w, q));
            assert(t.skip(3) =~= u.skip(3) + esc + v);
            assert(r.skip(3) =~= u.skip(3) + dbl);
            lemma_literal_percent_safety(u.skip(3), tag, v, d, w, q);
            assert(rep + (expand_spec(u.skip(3) + dbl, d, w, q) + seq!['^', tag] + expand_spec(
                v,
                d,
                w,
                q,
            )) =~= (rep + expand_spec(u.skip(3) + dbl, d, w, q)) + seq!['^', tag] + expand_spec(
                v,
                d,
                w,
                q,
            ));
        } else {
            // Neither an escape nor a directive: one character is
            // copied, on both sides the same one.
            assert(!(r.len() >= 2 && r[0] == '%' && r[1] == '%'));
            assert(!(r.len() >= 3 && r[0] == '%' && r[1] == '^' && (r[2] == 'd' || r[2] == 'w'
                || r[2] == 's')));
            assert(expand_spec(t, d, w, q) == seq![t[0]] + expand_spec(t.skip(1), d, w, q));
            assert(expand_spec(r, d, w, q) == seq![r[0]] + expand_spec(r.skip(1), d, w, q));
            assert(t.skip(1) =~= u.skip(1) + esc + v);
            assert(r.skip(1) =~= u.skip(1) + dbl);
            lemma_literal_percent_safety(u.skip(1), tag, v, d, w, q);
            assert(seq![u[0]] + (expand_spec(u.skip(1) + dbl, d, w, q) + seq!['^', tag]
                + expand_spec(v, d, w, q)) =~= (seq![u[0]] + expand_spec(u.skip(1) + dbl, d, w, q))
                + seq!['^', tag] + expand_spec(v, d, w, q));
        }
    }
}

/// Idempotent custom substitution: once the three directives have
/// been replaced by nonempty digit strings, a second pass finds
/// nothing further to substitute — inserted text is never rescanned
/// into a directive, whatever surrounds it.
#[verifier::rlimit(100)]
pub proof fn lemma_expand_idempotent(t: Seq<char>, d: Seq<char>, w: Seq<char>, q: Seq<char>)
    requires
        d.len() >= 1 && all_digits(d),
        w.len() >= 1 && all_digits(w),
        q.len() >= 1 && all_digits(q),
    ensures
        expand_spec(expand_spec(t, d, w, q), d, w, q) == expand_spec(t, d, w, q),
    decreases t.len(),
{
    let dbl = seq!['%', '%'];
    if t.len() == 0 {
        assert(expand_spec(t, d, w, q) == Seq::<char>::empty());
    } else if t.len() >= 2 && t[0] == '%' && t[1] == '%' {
        let e = expand_spec(t.skip(2), d, w, q);
        assert(expand_spec(t, d, w, q) == dbl + e);
        let o = dbl + e;
        assert(o[0] == '%' && o[1] == '%');
        assert(expand_spec(o, d, w, q) == dbl + expand_spec(o.skip(2), d, w, q));
        assert(o.skip(2) =~= e);
        lemma_expand_idempotent(t.skip(2), d, w, q);
    } else if t.len() >= 3 && t[0] == '%' && t[1] == '^' && (t[2] == 'd' || t[2] == 'w' || t[2]
        == 's') {
        let rep = if t[2] == 'd' {
            d
        } else if t[2] == 'w' {
            w
        } else {
            q
        };
        let e = expand_spec(t.skip(3), d, w, q);
        assert(expand_spec(t, d, w, q) == rep + e);
        assert(forall|i: int| 0 <= i < rep.len() ==> is_digit(#[trigger] rep[i]));
        assert(forall|i: int| 0 <= i < rep.len() ==> rep[i] != '%');
        lemma_expand_no_percent_prefix(rep, e, d, w, q);
        lemma_expand_idempotent(t.skip(3), d, w, q);
        assert(expand_spec(rep + e, d, w, q) == rep + e);
    } else {
        let c = t[0];
        let e = expand_spec(t.skip(1), d, w, q);
        assert(expand_spec(t, d, w, q) == seq![c] + e);
        lemma_expand_idempotent(t.skip(1), d, w, q);
        let o = seq![c] + e;
        if c != '%' {
            assert(o[0] != '%');
            assert(expand_spec(o, d, w, q) == seq![c] + expand_spec(o.skip(1), d, w, q));
            assert(o.skip(1) =~= e);
        } else {
            // `t` starts with '%' yet matched nothing, so what comes
            // after cannot complete an escape or a directive — also
            // not after expansion, whose head is the old second
            // character or an inserted digit.
            if t.len() == 1 {
                assert(t.skip(1) =~= Seq::<char>::empty());
                assert(e == Seq::<char>::empty());
                assert(o.len() == 1);
                assert(expand_spec(o, d, w, q) == seq![c] + expand_spec(o.skip(1), d, w, q));
                assert(o.skip(1) =~= e);
            } else if t[1] != '^' {
                assert(t[1] != '%');
                lemma_expand_head(t.skip(1), d, w, q);
                assert(e[0] == t[1] || is_digit(e[0]));
                assert(e[0] != '%' && e[0] != '^');
                assert(o[1] == e[0]);
                assert(!(o.len() >= 2 && o[0] == '%' && o[1] == '%'));
                assert(!(o.len() >= 3 && o[0] == '%' && o[1] == '^'));
                assert(expand_spec(o, d, w, q) == seq![c] + expand_spec(o.skip(1), d, w, q));
                assert(o.skip(1) =~= e);
            } else {
                // The window was `%^X` with X no directive letter.
                assert(t.skip(1)[0] == '^');
                assert(expand_spec(t.skip(1), d, w, q) == seq!['^'] + expand_spec(
                    t.skip(1).skip(1),
                    d,
                    w,
                    q,
                ));
                assert(t.skip(1).skip(1) =~= t.skip(2));
                let e2 = expand_spec(t.skip(2), d, w, q);
                assert(e =~= seq!['^'] + e2);
                if t.len() == 2 {
                    assert(t.skip(2) =~= Seq::<char>::empty());
                    assert(e2 == Seq::<char>::empty());
                    assert(o =~= seq!['%', '^']);
                    assert(o.len() == 2 && o[1] == '^');
                    assert(expand_spec(o, d, w, q) == seq!['%'] + expand_spec(o.skip(1), d, w, q));
                    assert(o.skip(1) =~= seq!['^']);
                    assert(expand_spec(seq!['^'], d, w, q) == seq!['^'] + expand_spec(
                        seq!['^'].skip(1),
                        d,
                        w,
                        q,
                    ));
                    assert(seq!['^'].skip(1) =~= Seq::<char>::empty());
                    assert(expand_spec(o, d, w, q) =~= o);
                } else {
                    assert(!(t[2] == 'd' || t[2] == 'w' || t[2] == 's'));
                    lemma_expand_head(t.skip(2), d, w, q);
                    assert(o =~= seq!['%', '^'] + e2);
                    if e2.len() > 0 {
                        assert(e2[0] == t.skip(2)[0] || is_digit(e2[0]));
                        assert(t.skip(2)[0] == t[2]);
                        assert(!(e2[0] == 'd' || e2[0] == 'w' || e2[0] == 's'));
                        assert(o[2] == e2[0]);
                        assert(!(o.len() >= 3 && o[0] == '%' && o[1] == '^' && (o[2] == 'd' || o[2]
                            == 'w' || o[2] == 's')));
                    } else {
                        assert(o.len() == 2);
                    }
                    assert(o[1] == '^');
                    assert(!(o.len() >= 2 && o[0] == '%' && o[1] == '%'));
                    assert(expand_spec(o, d, w, q) == seq!['%'] + expand_spec(o.skip(1), d, w, q));
                    assert(o.skip(1) =~= seq!['^'] + e2);
                    let o1 = seq!['^'] + e2;
                    assert(o1[0] == '^' && o1[0] != '%');
                    assert(expand_spec(o1, d, w, q) == seq!['^'] + expand_spec(o1.skip(1), d, w, q));
                    assert(o1.skip(1) =~= e2);
                    lemma_expand_idempotent(t.skip(2), d, w, q);
                    assert(expand_spec(o, d, w, q) =~= seq!['%'] + (seq!['^'] + e2));
                    assert(o =~= seq!['%'] + (seq!['^'] + e2));
                }
            }
        }
    }
}

} // verus!
