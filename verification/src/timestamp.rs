//! SRT timestamps: reading `hours:minutes:seconds`-style text into a `Duration`,
//! and writing a `Duration` back out.

use vstd::prelude::*;
use crate::duration::Duration;
use crate::numbers::{decimal, decimal_string, parse_uint, parse_uint_chars, parse_digits, is_digit, lemma_decimal_digits, law_decimal_reads_back};
use crate::text::push_char;

verus! {

/// Whether `c` separates the fields of a timestamp.
pub open spec fn is_field_sep(c: char) -> bool {
    c == ':' || c == ','
}

/// The position of the last field separator in `s`, or -1 when there is none.
pub open spec fn last_sep(s: Seq<char>) -> int
    decreases s.len(),
{
    if s.len() == 0 {
        -1
    } else if is_field_sep(s.last()) {
        s.len() - 1
    } else {
        last_sep(s.drop_last())
    }
}

/// `last_sep` lies within the text, and the text after it holds no separator.
pub proof fn lemma_last_sep_bounds(s: Seq<char>)
    ensures
        -1 <= last_sep(s) < s.len(),
        last_sep(s) >= 0 ==> is_field_sep(s[last_sep(s)]),
        forall|j: int| last_sep(s) < j < s.len() ==> !is_field_sep(#[trigger] s[j]),
    decreases s.len(),
{
    if s.len() > 0 && !is_field_sep(s.last()) {
        lemma_last_sep_bounds(s.drop_last());
        assert forall|j: int| last_sep(s) < j < s.len() implies !is_field_sep(#[trigger] s[j]) by {
            if j < s.len() - 1 {
                assert(s.drop_last()[j] == s[j]);
            }
        }
    }
}

/// The field of `rest` after its last separator (all of `rest` when it has none).
pub open spec fn last_field(rest: Seq<char>) -> Seq<char> {
    rest.subrange(last_sep(rest) + 1, rest.len() as int)
}

/// What the seconds fields contribute: `rest` is the text still to read, from its
/// last field leftwards, `more` says whether any field is left at all, `place` is
/// the place of the next field (0 seconds, 1 minutes, 2 hours), `acc` the seconds
/// read so far. `None` where reading overflows or meets a fourth such field.
pub open spec fn timestamp_secs(rest: Seq<char>, more: bool, place: nat, acc: nat) -> Option<Result<nat, ()>>
    decreases rest.len() + if more { 1int } else { 0int },
{
    if !more {
        Some(Ok(acc))
    } else {
        let k = last_sep(rest);
        match parse_uint(last_field(rest), u64::MAX as nat) {
            Err(_) => Some(Err(())),
            Ok(v) => {
                if place >= 3 {
                    None
                } else {
                    let weight: nat = if place == 0 { 1 } else if place == 1 { 60 } else { 3600 };
                    if v * weight > u64::MAX || acc + v * weight > u64::MAX {
                        None
                    } else {
                        proof {
                            lemma_last_sep_bounds(rest);
                        }
                        timestamp_secs(
                            if k >= 0 { rest.take(k) } else { rest },
                            k >= 0,
                            place + 1,
                            acc + v * weight,
                        )
                    }
                }
            }
        }
    }
}

/// The span that the timestamp `s` (such as `01:02:03,400`) stands for, in
/// nanoseconds: its last field is read as milliseconds, the fields before it as
/// seconds, minutes and hours. `Some(Err(()))` where a field does not read as a
/// number; `None` where reading overflows or meets a fifth field.
pub open spec fn timestamp_value(s: Seq<char>) -> Option<Result<nat, ()>> {
    let k = last_sep(s);
    match parse_uint(last_field(s), u32::MAX as nat) {
        Err(_) => Some(Err(())),
        Ok(ms) => match timestamp_secs(if k >= 0 { s.take(k) } else { s }, k >= 0, 0, 0) {
            None => None,
            Some(Err(e)) => Some(Err(e)),
            Some(Ok(secs)) => {
                if secs + ms / 1000 > u64::MAX {
                    None
                } else {
                    Some(Ok(secs * 1_000_000_000 + ms * 1_000_000))
                }
            },
        },
    }
}

/// The position of the last field separator in `v[0..end]`.
fn find_last_sep(v: &Vec<char>, end: usize) -> (r: Option<usize>)
    requires
        end <= v@.len(),
    ensures
        match r {
            Some(k) => last_sep(v@.take(end as int)) == k as int,
            None => last_sep(v@.take(end as int)) == -1,
        },
{
    let mut i = end;
    while i > 0
        invariant
            i <= end <= v@.len(),
            last_sep(v@.take(end as int)) == last_sep(v@.take(i as int)),
        decreases i,
    {
        assert(v@.take(i as int).last() == v@[i - 1]);
        if v[i - 1] == ':' || v[i - 1] == ',' {
            return Some(i - 1);
        }
        assert(v@.take(i as int).drop_last() =~= v@.take(i - 1));
        i = i - 1;
    }
    None
}

/// Reads the timestamp `v`; `None` exactly where `timestamp_value` is `None`.
pub(crate) fn parse_timestamp(v: &Vec<char>) -> (r: Option<Result<Duration, ()>>)
    ensures
        match r {
            None => timestamp_value(v@) is None,
            Some(Err(_)) => timestamp_value(v@) == Some(Err::<nat, ()>(())),
            Some(Ok(d)) => timestamp_value(v@) == Some(Ok::<nat, ()>(d@)),
        },
{
    let len = v.len();
    assert(v@.take(len as int) =~= v@);
    let k0 = find_last_sep(v, len);
    proof {
        lemma_last_sep_bounds(v@);
    }
    let start: usize = match k0 { Some(k) => k + 1, None => 0 };
    assert(v@.subrange(start as int, len as int) =~= last_field(v@));
    let millis: u64 = match parse_uint_chars(v, start, len, 0xffff_ffffu64) {
        Err(_) => return Some(Err(())),
        Ok(n) => n,
    };
    let mut more: bool = k0.is_some();
    let mut end: usize = match k0 { Some(k) => k, None => len };
    let mut place: u64 = 0;
    let mut acc: u64 = 0;
    assert(v@.take(end as int) =~= (if more { v@.take(end as int) } else { v@ }));
    while more
        invariant
            end <= v@.len(),
            place <= 3,
            timestamp_value(v@) == (match timestamp_secs(v@.take(end as int), more, place as nat, acc as nat) {
                None => None,
                Some(Err(e)) => Some(Err(e)),
                Some(Ok(secs)) => {
                    if secs + millis / 1000 > u64::MAX {
                        None
                    } else {
                        Some(Ok::<nat, ()>(secs * 1_000_000_000 + millis as nat * 1_000_000))
                    }
                },
            }),
        decreases end + if more { 1int } else { 0int },
    {
        let ghost rest = v@.take(end as int);
        proof {
            lemma_last_sep_bounds(rest);
        }
        let k = find_last_sep(v, end);
        let from: usize = match k { Some(k) => k + 1, None => 0 };
        assert(v@.subrange(from as int, end as int) =~= last_field(rest));
        let value = match parse_uint_chars(v, from, end, u64::MAX) {
            Err(_) => return Some(Err(())),
            Ok(x) => x,
        };
        if place >= 3 {
            return None;
        }
        let weight: u64 = if place == 0 { 1 } else if place == 1 { 60 } else { 3600 };
        if value > u64::MAX / weight {
            assert(value * weight > u64::MAX) by (nonlinear_arith)
                requires value > u64::MAX / weight, weight > 0;
            return None;
        }
        assert(value * weight <= u64::MAX) by (nonlinear_arith)
            requires value <= u64::MAX / weight, weight > 0;
        let add: u64 = value * weight;
        if acc > u64::MAX - add {
            return None;
        }
        acc = acc + add;
        place = place + 1;
        match k {
            Some(kk) => {
                assert(rest.take(kk as int) =~= v@.take(kk as int));
                end = kk;
            },
            None => {
                more = false;
                assert(v@.take(end as int) == rest);
            },
        }
    }
    let extra: u64 = millis / 1000;
    let rest: u64 = millis % 1000;
    if acc > u64::MAX - extra {
        return None;
    }
    assert(rest * 1_000_000 < 1_000_000_000) by (nonlinear_arith)
        requires rest < 1000;
    assert((acc + extra) * 1_000_000_000 + rest * 1_000_000 == acc * 1_000_000_000 + millis * 1_000_000)
        by (nonlinear_arith)
        requires extra == millis / 1000, rest == millis % 1000;
    let d = Duration::new(acc + extra, (rest * 1_000_000) as u32);
    Some(Ok(d))
}

/// `s` with zeros put in front until it is `width` characters long.
pub open spec fn zero_pad(s: Seq<char>, width: nat) -> Seq<char> {
    if s.len() >= width {
        s
    } else {
        Seq::new((width - s.len()) as nat, |i: int| '0') + s
    }
}

/// A span of `total` nanoseconds as a clock reading `HH:MM:SS` then `frac_sep`
/// and `mmm`: hours (at least two digits), minutes and seconds within the minute
/// (two digits each), and milliseconds (three digits).
pub open spec fn clock_text(total: nat, frac_sep: char) -> Seq<char> {
    let secs = total / 1_000_000_000;
    zero_pad(decimal(secs / 3600), 2) + seq![':'] + zero_pad(decimal((secs % 3600) / 60), 2)
        + seq![':'] + zero_pad(decimal(secs % 60), 2) + seq![frac_sep]
        + zero_pad(decimal((total % 1_000_000_000) / 1_000_000), 3)
}

/// The text that `form_timestamp_from_timing` gives for a span of `total`
/// nanoseconds, the SRT form `HH:MM:SS,mmm`.
pub open spec fn timestamp_text(total: nat) -> Seq<char> {
    clock_text(total, ',')
}

/// Appends `t` to `s`, with zeros in front up to `width` characters.
fn push_padded(s: &mut String, t: &String, width: usize)
    ensures
        final(s)@ == old(s)@ + zero_pad(t@, width as nat),
{
    let n = t.as_str().unicode_len();
    let mut i = n;
    while i < width
        invariant
            n <= i,
            n == t@.len(),
            i <= width || i == n,
            s@ == old(s)@ + Seq::new((i - n) as nat, |j: int| '0'),
        decreases width - i,
    {
        push_char(s, '0');
        assert(Seq::new((i + 1 - n) as nat, |j: int| '0') =~= Seq::new((i - n) as nat, |j: int| '0').push('0'));
        i = i + 1;
    }
    let ghost zeros = s@;
    s.append(t.as_str());
    assert(s@ =~= old(s)@ + zero_pad(t@, width as nat));
}

/// Writes `timing` as an SRT timestamp `HH:MM:SS,mmm`.
pub fn form_timestamp_from_timing(timing: &Duration) -> (s: String)
    ensures
        s@ == timestamp_text(timing@),
{
    form_clock_text(timing, ',')
}

/// Writes `timing` as a clock reading `HH:MM:SS`, `frac_sep`, `mmm`.
pub fn form_clock_text(timing: &Duration, frac_sep: char) -> (s: String)
    ensures
        s@ == clock_text(timing@, frac_sep),
{
    let secs = timing.as_secs();
    let hours = decimal_string(secs / 3600);
    let minutes = decimal_string((secs % 3600) / 60);
    let seconds = decimal_string(secs % 60);
    let millis = decimal_string((timing.subsec_millis()) as u64);
    let mut s = String::new();
    push_padded(&mut s, &hours, 2);
    push_char(&mut s, ':');
    push_padded(&mut s, &minutes, 2);
    push_char(&mut s, ':');
    push_padded(&mut s, &seconds, 2);
    push_char(&mut s, frac_sep);
    push_padded(&mut s, &millis, 3);
    s
}

/// Whether every character of `s` is a decimal digit.
pub open spec fn all_digits(s: Seq<char>) -> bool {
    forall|i: int| 0 <= i < s.len() ==> is_digit(#[trigger] s[i])
}

/// A zero-padded decimal writing is made of digits only.
pub proof fn lemma_zero_pad_digits(n: nat, w: nat)
    ensures
        all_digits(zero_pad(decimal(n), w)),
        zero_pad(decimal(n), w).len() >= 1,
        zero_pad(decimal(n), w).len() >= w,
{
    lemma_decimal_digits(n);
    let d = decimal(n);
    if d.len() < w {
        let z = Seq::new((w - d.len()) as nat, |i: int| '0');
        assert forall|i: int| 0 <= i < (z + d).len() implies is_digit(#[trigger] (z + d)[i]) by {
            if i >= z.len() {
                assert((z + d)[i] == d[i - z.len()]);
            }
        }
    }
}

/// Leading zeros do not change what digits read as.
proof fn lemma_parse_leading_zeros(k: nat, d: Seq<char>, max: nat)
    ensures
        parse_digits(Seq::new(k, |i: int| '0') + d, 0, max) == parse_digits(d, 0, max),
    decreases k,
{
    if k > 0 {
        let s = Seq::new(k, |i: int| '0') + d;
        assert(s[0] == '0');
        assert(s.drop_first() =~= Seq::new((k - 1) as nat, |i: int| '0') + d);
        lemma_parse_leading_zeros((k - 1) as nat, d, max);
    } else {
        assert(Seq::new(k, |i: int| '0') + d =~= d);
    }
}

/// A zero-padded decimal writing reads back as its number.
pub proof fn lemma_zero_pad_reads(n: nat, w: nat, max: nat)
    requires
        n <= max,
    ensures
        parse_uint(zero_pad(decimal(n), w), max) == Ok::<nat, crate::numbers::IntErrorKind>(n),
{
    lemma_zero_pad_digits(n, w);
    lemma_decimal_digits(n);
    law_decimal_reads_back(n, max);
    let d = decimal(n);
    assert(is_digit(d[0]));
    assert(parse_uint(d, max) == parse_digits(d, 0, max));
    if d.len() < w {
        lemma_parse_leading_zeros((w - d.len()) as nat, d, max);
    }
    let z = zero_pad(d, w);
    assert(is_digit(z[0]));
}

/// Where `s` holds a separator at `k` and none after it, its last separator is at `k`.
proof fn lemma_last_sep_at(s: Seq<char>, k: int)
    requires
        0 <= k < s.len(),
        is_field_sep(s[k]),
        forall|j: int| k < j < s.len() ==> !is_field_sep(#[trigger] s[j]),
    ensures
        last_sep(s) == k,
    decreases s.len(),
{
    if s.len() - 1 > k {
        assert(s.drop_last()[k] == s[k]);
        assert forall|j: int| k < j < s.drop_last().len() implies !is_field_sep(#[trigger] s.drop_last()[j]) by {
            assert(s.drop_last()[j] == s[j]);
        }
        lemma_last_sep_at(s.drop_last(), k);
    }
}

/// Digits hold no separator.
proof fn lemma_digits_no_sep(s: Seq<char>)
    requires
        all_digits(s),
    ensures
        last_sep(s) == -1,
        forall|j: int| 0 <= j < s.len() ==> !is_field_sep(#[trigger] s[j]),
{
    lemma_last_sep_bounds(s);
    assert forall|j: int| 0 <= j < s.len() implies !is_field_sep(#[trigger] s[j]) by {
        assert(is_digit(s[j]));
    }
}

/// `total` nanoseconds cut down to whole milliseconds.
pub open spec fn whole_millis(total: nat) -> nat {
    total / 1_000_000 * 1_000_000
}

/// A timestamp as `form_timestamp_from_timing` writes it reads back as the span
/// it was written from, cut down to whole milliseconds.
pub proof fn law_timestamp_reads_back(total: nat)
    requires
        total / 1_000_000_000 <= u64::MAX,
    ensures
        timestamp_value(timestamp_text(total)) == Some(Ok::<nat, ()>(whole_millis(total))),
{
    let secs = total / 1_000_000_000;
    let h = secs / 3600;
    let m = (secs % 3600) / 60;
    let sc = secs % 60;
    let ms = (total % 1_000_000_000) / 1_000_000;
    assert(h * 3600 + m * 60 + sc == secs && ms < 1000 && m < 60 && sc < 60) by (nonlinear_arith)
        requires h == secs / 3600, m == (secs % 3600) / 60, sc == secs % 60,
            ms == (total % 1_000_000_000) / 1_000_000;
    assert(secs * 1_000_000_000 + ms * 1_000_000 == whole_millis(total)) by (nonlinear_arith)
        requires secs == total / 1_000_000_000, ms == (total % 1_000_000_000) / 1_000_000;
    let a = zero_pad(decimal(h), 2);
    let b = zero_pad(decimal(m), 2);
    let c = zero_pad(decimal(sc), 2);
    let d = zero_pad(decimal(ms), 3);
    lemma_zero_pad_digits(h, 2);
    lemma_zero_pad_digits(m, 2);
    lemma_zero_pad_digits(sc, 2);
    lemma_zero_pad_digits(ms, 3);
    lemma_digits_no_sep(a);
    lemma_digits_no_sep(b);
    lemma_digits_no_sep(c);
    lemma_digits_no_sep(d);
    lemma_zero_pad_reads(h, 2, u64::MAX as nat);
    lemma_zero_pad_reads(m, 2, u64::MAX as nat);
    lemma_zero_pad_reads(sc, 2, u64::MAX as nat);
    lemma_zero_pad_reads(ms, 3, u32::MAX as nat);
    let t = timestamp_text(total);
    let r2 = a + seq![':'] + b;
    let r1 = r2 + seq![':'] + c;
    assert(t =~= r1 + seq![','] + d);
    // the milliseconds
    let k = r1.len() as int;
    assert forall|j: int| k < j < t.len() implies !is_field_sep(#[trigger] t[j]) by {
        assert(t[j] == d[j - k - 1]);
    }
    lemma_last_sep_at(t, k);
    assert(last_field(t) =~= d);
    assert(t.take(k) =~= r1);
    // the seconds
    let k1 = r2.len() as int;
    assert forall|j: int| k1 < j < r1.len() implies !is_field_sep(#[trigger] r1[j]) by {
        assert(r1[j] == c[j - k1 - 1]);
    }
    lemma_last_sep_at(r1, k1);
    assert(last_field(r1) =~= c);
    assert(r1.take(k1) =~= r2);
    // the minutes
    let k2 = a.len() as int;
    assert forall|j: int| k2 < j < r2.len() implies !is_field_sep(#[trigger] r2[j]) by {
        assert(r2[j] == b[j - k2 - 1]);
    }
    lemma_last_sep_at(r2, k2);
    assert(last_field(r2) =~= b);
    assert(r2.take(k2) =~= a);
    // the hours
    assert(last_field(a) =~= a);
    assert(timestamp_secs(a, false, 3, sc + m * 60 + h * 3600) == Some(Ok::<nat, ()>(secs)));
    assert(timestamp_secs(a, true, 2, sc + m * 60) == Some(Ok::<nat, ()>(secs)));
    assert(timestamp_secs(r2, true, 1, sc) == Some(Ok::<nat, ()>(secs)));
    assert(timestamp_secs(r1, true, 0, 0) == Some(Ok::<nat, ()>(secs)));
}

/// A written timestamp is made of digits, `:` and `,`, and starts and ends with a digit.
pub proof fn lemma_timestamp_text_chars(total: nat)
    ensures
        timestamp_text(total).len() >= 1,
        is_digit(timestamp_text(total)[0]),
        is_digit(timestamp_text(total).last()),
        forall|i: int| 0 <= i < timestamp_text(total).len() ==> is_digit(#[trigger] timestamp_text(total)[i])
            || timestamp_text(total)[i] == ':' || timestamp_text(total)[i] == ',',
{
    let secs = total / 1_000_000_000;
    let a = zero_pad(decimal(secs / 3600), 2);
    let b = zero_pad(decimal((secs % 3600) / 60), 2);
    let c = zero_pad(decimal(secs % 60), 2);
    let d = zero_pad(decimal((total % 1_000_000_000) / 1_000_000), 3);
    lemma_zero_pad_digits(secs / 3600, 2);
    lemma_zero_pad_digits((secs % 3600) / 60, 2);
    lemma_zero_pad_digits(secs % 60, 2);
    lemma_zero_pad_digits((total % 1_000_000_000) / 1_000_000, 3);
    let t = timestamp_text(total);
    assert(t =~= a + seq![':'] + b + seq![':'] + c + seq![','] + d);
    assert(t[0] == a[0]);
    assert(t.last() == d.last());
    assert forall|i: int| 0 <= i < t.len() implies is_digit(#[trigger] t[i]) || t[i] == ':' || t[i] == ',' by {
        let la = a.len() as int;
        let lb = b.len() as int;
        let lc = c.len() as int;
        if i < la {
            assert(t[i] == a[i]);
        } else if i == la {
        } else if i < la + 1 + lb {
            assert(t[i] == b[i - la - 1]);
        } else if i == la + 1 + lb {
        } else if i < la + 2 + lb + lc {
            assert(t[i] == c[i - la - 2 - lb]);
        } else if i == la + 2 + lb + lc {
        } else {
            assert(t[i] == d[i - la - 3 - lb - lc]);
        }
    }
}

/// A number below 1000 has at most three decimal digits.
proof fn lemma_decimal_len_below_1000(n: nat)
    requires
        n < 1000,
    ensures
        decimal(n).len() <= 3,
{
    if n >= 10 {
        let m = n / 10;
        assert(m < 100);
        if m >= 10 {
            assert(m / 10 < 10);
            assert(decimal(m / 10).len() == 1);
            assert(decimal(m) == decimal(m / 10).push(crate::numbers::digit_char(m % 10)));
            assert(decimal(m).len() == 2);
        } else {
            assert(decimal(m).len() == 1);
        }
        assert(decimal(n) == decimal(m).push(crate::numbers::digit_char(n % 10)));
    }
}

/// The time handed to ffmpeg (`HH:MM:SS.mmm`) is the SRT timestamp of the same
/// span (`HH:MM:SS,mmm`) with `.` in place of the `,` before the milliseconds,
/// which is the fourth character from its end; nothing else differs. With
/// `law_timestamp_reads_back`, it stands for the span cut down to whole
/// milliseconds.
pub proof fn law_ffmpeg_time_is_timestamp_with_dot(total: nat)
    ensures
        timestamp_text(total).len() >= 4,
        timestamp_text(total)[timestamp_text(total).len() - 4] == ',',
        clock_text(total, '.') == timestamp_text(total).update(timestamp_text(total).len() - 4, '.'),
{
    let secs = total / 1_000_000_000;
    let ms = (total % 1_000_000_000) / 1_000_000;
    assert(ms < 1000) by (nonlinear_arith)
        requires ms == (total % 1_000_000_000) / 1_000_000;
    lemma_decimal_len_below_1000(ms);
    lemma_zero_pad_digits(ms, 3);
    let d = zero_pad(decimal(ms), 3);
    assert(d.len() == 3);
    let head = zero_pad(decimal(secs / 3600), 2) + seq![':'] + zero_pad(decimal((secs % 3600) / 60), 2)
        + seq![':'] + zero_pad(decimal(secs % 60), 2);
    assert(timestamp_text(total) =~= head + seq![','] + d);
    assert(clock_text(total, '.') =~= head + seq!['.'] + d);
    assert(clock_text(total, '.') =~= timestamp_text(total).update(timestamp_text(total).len() - 4, '.'));
}

} // verus!
