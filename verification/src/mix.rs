//! Mixing: how long subtitles and dubbed audio last.

use vstd::prelude::*;
use crate::duration::Duration;
use crate::numbers::{parse_uint, parse_uint_chars};
use crate::srt_ops::SRTFragment;
use crate::text::{trim, trim_bounds, chars_of};
use crate::numbers::{decimal, is_digit, lemma_decimal_digits, law_decimal_reads_back};
use crate::timestamp::{zero_pad, all_digits, lemma_zero_pad_digits, lemma_zero_pad_reads};

verus! {

/// Whether `c` separates the fields of a clock reading such as `0:01:02.500000`.
pub open spec fn is_clock_sep(c: char) -> bool {
    c == ':' || c == '.'
}

/// The position of the first clock separator in `s`, or -1.
pub open spec fn first_clock_sep(s: Seq<char>) -> int
    decreases s.len(),
{
    if s.len() == 0 {
        -1
    } else if is_clock_sep(s[0]) {
        0
    } else {
        let r = first_clock_sep(s.drop_first());
        if r < 0 {
            -1
        } else {
            r + 1
        }
    }
}

/// `first_clock_sep` lies within the text, and nothing before it is a separator.
pub proof fn lemma_first_clock_sep_bounds(s: Seq<char>)
    ensures
        -1 <= first_clock_sep(s) < s.len(),
        first_clock_sep(s) >= 0 ==> is_clock_sep(s[first_clock_sep(s)]),
        forall|j: int| 0 <= j < s.len() && (first_clock_sep(s) < 0 || j < first_clock_sep(s))
            ==> !is_clock_sep(#[trigger] s[j]),
    decreases s.len(),
{
    if s.len() > 0 && !is_clock_sep(s[0]) {
        lemma_first_clock_sep_bounds(s.drop_first());
        assert forall|j: int| 0 <= j < s.len() && (first_clock_sep(s) < 0 || j < first_clock_sep(s))
            implies !is_clock_sep(#[trigger] s[j]) by {
            if j > 0 {
                assert(s.drop_first()[j - 1] == s[j]);
            }
        }
    }
}

/// The fields of `s` between clock separators, from left to right.
pub open spec fn clock_fields(s: Seq<char>) -> Seq<Seq<char>>
    decreases s.len(),
{
    let k = first_clock_sep(s);
    if k < 0 {
        seq![s]
    } else {
        proof {
            lemma_first_clock_sep_bounds(s);
        }
        seq![s.take(k)] + clock_fields(s.skip(k + 1))
    }
}

/// The span, in nanoseconds, of a clock reading `hours:minutes:seconds.micros`
/// (as ffprobe writes durations), trimmed first; fields after the fourth are
/// ignored. `None` where there are fewer than four fields, a field does not read
/// as a number, or the value does not fit.
pub open spec fn clock_duration(s: Seq<char>) -> Option<nat> {
    let f = clock_fields(trim(s));
    if f.len() < 4 {
        None
    } else {
        match (parse_uint(f[0], usize::MAX as nat), parse_uint(f[1], usize::MAX as nat),
            parse_uint(f[2], usize::MAX as nat), parse_uint(f[3], usize::MAX as nat)) {
            (Ok(h), Ok(m), Ok(sec), Ok(micros)) => {
                if h * 60 > usize::MAX || h * 60 + m > usize::MAX || (h * 60 + m) * 60 > usize::MAX
                    || (h * 60 + m) * 60 + sec > usize::MAX || micros * 1000 > usize::MAX
                    || micros * 1000 > u32::MAX
                    || (h * 60 + m) * 60 + sec + micros * 1000 / 1_000_000_000 > u64::MAX {
                    None
                } else {
                    Some(((h * 60 + m) * 60 + sec) * 1_000_000_000 + micros * 1000)
                }
            },
            _ => None,
        }
    }
}

/// The position of the first clock separator in `v[from..to]`.
fn find_clock_sep(v: &Vec<char>, from: usize, to: usize) -> (r: Option<usize>)
    requires
        from <= to <= v@.len(),
    ensures
        match r {
            Some(k) => from <= k < to && first_clock_sep(v@.subrange(from as int, to as int)) == k - from,
            None => first_clock_sep(v@.subrange(from as int, to as int)) == -1,
        },
{
    let ghost s = v@.subrange(from as int, to as int);
    proof {
        lemma_first_clock_sep_bounds(s);
    }
    let mut i = from;
    while i < to
        invariant
            from <= i <= to <= v@.len(),
            s == v@.subrange(from as int, to as int),
            -1 <= first_clock_sep(s) < s.len(),
            forall|j: int| 0 <= j < s.len() && (first_clock_sep(s) < 0 || j < first_clock_sep(s))
                ==> !is_clock_sep(#[trigger] s[j]),
            first_clock_sep(s) >= 0 ==> is_clock_sep(s[first_clock_sep(s)]),
            forall|j: int| 0 <= j < i - from ==> !is_clock_sep(#[trigger] s[j]),
        decreases to - i,
    {
        if v[i] == ':' || v[i] == '.' {
            assert(is_clock_sep(s[i - from]));
            return Some(i);
        }
        assert(!is_clock_sep(s[i - from]));
        i = i + 1;
    }
    None
}

/// Reads a clock reading; `None` exactly where `clock_duration` is `None`.
pub fn clock_duration_outcome(duration: &str) -> (r: Option<Duration>)
    ensures
        match r {
            Some(d) => clock_duration(duration@) == Some(d@),
            None => clock_duration(duration@) is None,
        },
{
    let v = chars_of(duration);
    assert(v@.subrange(0, v@.len() as int) =~= v@);
    let (lo, hi) = trim_bounds(&v, 0, v.len());
    let ghost t = v@.subrange(lo as int, hi as int);
    let mut bounds: Vec<(usize, usize)> = Vec::new();
    let ghost mut done: Seq<Seq<char>> = Seq::empty();
    let mut pos = lo;
    assert(clock_fields(t) =~= done + clock_fields(v@.subrange(pos as int, hi as int)));
    while bounds.len() < 3
        invariant
            lo <= pos <= hi <= v@.len(),
            t == v@.subrange(lo as int, hi as int),
            t == trim(duration@),
            bounds@.len() <= 3,
            done.len() == bounds@.len(),
            forall|j: int| 0 <= j < bounds@.len() ==> bounds@[j].0 <= bounds@[j].1 <= v@.len()
                && #[trigger] done[j] == v@.subrange(bounds@[j].0 as int, bounds@[j].1 as int),
            clock_fields(t) == done + clock_fields(v@.subrange(pos as int, hi as int)),
        decreases 3 - bounds@.len(),
    {
        let ghost rest = v@.subrange(pos as int, hi as int);
        match find_clock_sep(&v, pos, hi) {
            None => {
                assert(clock_fields(rest) == seq![rest]);
                assert(clock_fields(t).len() < 4);
                return None;
            },
            Some(k) => {
                proof {
                    lemma_first_clock_sep_bounds(rest);
                    assert(rest.take(k - pos) =~= v@.subrange(pos as int, k as int));
                    assert(rest.skip(k - pos + 1) =~= v@.subrange(k + 1, hi as int));
                    assert(clock_fields(rest) == seq![rest.take(k - pos)] + clock_fields(rest.skip(k - pos + 1)));
                    done = done.push(v@.subrange(pos as int, k as int));
                    assert(clock_fields(t) =~= done + clock_fields(v@.subrange(k + 1, hi as int)));
                }
                let ghost old_bounds = bounds@;
                bounds.push((pos, k));
                assert forall|j: int| 0 <= j < bounds@.len() implies bounds@[j].0 <= bounds@[j].1 <= v@.len()
                    && #[trigger] done[j] == v@.subrange(bounds@[j].0 as int, bounds@[j].1 as int) by {
                    if j < old_bounds.len() {
                        assert(bounds@[j] == old_bounds[j]);
                    }
                }
                pos = k + 1;
            },
        }
    }
    let ghost rest = v@.subrange(pos as int, hi as int);
    let last_end = match find_clock_sep(&v, pos, hi) {
        None => hi,
        Some(k) => k,
    };
    proof {
        lemma_first_clock_sep_bounds(rest);
        assert(clock_fields(rest)[0] =~= v@.subrange(pos as int, last_end as int));
        assert(clock_fields(t)[3] == clock_fields(rest)[0]);
        assert(clock_fields(t)[0] == done[0]);
        assert(clock_fields(t)[1] == done[1]);
        assert(clock_fields(t)[2] == done[2]);
    }
    let max = usize::MAX as u64;
    let (b0, b1, b2) = (bounds[0], bounds[1], bounds[2]);
    let h = match parse_uint_chars(&v, b0.0, b0.1, max) { Ok(x) => x, Err(_) => return None };
    let m = match parse_uint_chars(&v, b1.0, b1.1, max) { Ok(x) => x, Err(_) => return None };
    let sec = match parse_uint_chars(&v, b2.0, b2.1, max) { Ok(x) => x, Err(_) => return None };
    let micros = match parse_uint_chars(&v, pos, last_end, max) { Ok(x) => x, Err(_) => return None };
    if h > max / 60 {
        assert(h * 60 > max) by (nonlinear_arith) requires h > max / 60;
        return None;
    }
    assert(h * 60 <= max) by (nonlinear_arith) requires h <= max / 60;
    let t1: u64 = h * 60;
    if m > max - t1 {
        return None;
    }
    let t2: u64 = t1 + m;
    if t2 > max / 60 {
        assert(t2 * 60 > max) by (nonlinear_arith) requires t2 > max / 60;
        return None;
    }
    assert(t2 * 60 <= max) by (nonlinear_arith) requires t2 <= max / 60;
    let t3: u64 = t2 * 60;
    if sec > max - t3 {
        return None;
    }
    let secs: u64 = t3 + sec;
    if micros > max / 1000 {
        assert(micros * 1000 > max) by (nonlinear_arith) requires micros > max / 1000;
        return None;
    }
    assert(micros * 1000 <= max) by (nonlinear_arith) requires micros <= max / 1000;
    let nanos64: u64 = micros * 1000;
    if nanos64 > 0xffff_ffff {
        return None;
    }
    let nanos: u32 = nanos64 as u32;
    if secs > u64::MAX - (nanos / 1_000_000_000) as u64 {
        return None;
    }
    Some(Duration::new(secs, nanos))
}

/// Reads a clock reading such as ffprobe writes, `hours:minutes:seconds.micros`,
/// into a span (see `clock_duration`).
pub fn convert_string_to_duration(duration: String) -> (d: Duration)
    requires
        clock_duration(duration@) is Some,
    ensures
        clock_duration(duration@) == Some(d@),
{
    match clock_duration_outcome(duration.as_str()) {
        Some(d) => d,
        None => Duration::zero(),
    }
}

/// How long a subtitle lasts: from `start` to `end`.
pub fn calculate_subtitle_duration(start: Duration, end: Duration) -> (d: Duration)
    requires
        start@ <= end@,
    ensures
        d@ == end@ - start@,
{
    end.sub(&start)
}

/// How long the subtitle of `srt_fragment` lasts, against which its dubbed audio
/// is to be measured.
pub fn calculate_duration_ratio(srt_fragment: &SRTFragment, dubbed_audio: &String) -> (d: Duration)
    requires
        srt_fragment.timing.start@ <= srt_fragment.timing.end@,
    ensures
        d@ == srt_fragment.timing.end@ - srt_fragment.timing.start@,
{
    calculate_subtitle_duration(srt_fragment.timing.start, srt_fragment.timing.end)
}

/// A clock reading as ffprobe writes a duration: hours, then minutes and
/// seconds (two digits each) and microseconds (six digits).
pub open spec fn clock_reading_text(h: nat, m: nat, s: nat, micros: nat) -> Seq<char> {
    decimal(h) + seq![':'] + zero_pad(decimal(m), 2) + seq![':'] + zero_pad(decimal(s), 2) + seq!['.']
        + zero_pad(decimal(micros), 6)
}

/// Where `s` holds a clock separator at `k` and none before it, its first one is at `k`.
proof fn lemma_first_clock_sep_at(s: Seq<char>, k: int)
    requires
        0 <= k < s.len(),
        is_clock_sep(s[k]),
        forall|j: int| 0 <= j < k ==> !is_clock_sep(#[trigger] s[j]),
    ensures
        first_clock_sep(s) == k,
    decreases k,
{
    if k > 0 {
        assert forall|j: int| 0 <= j < k - 1 implies !is_clock_sep(#[trigger] s.drop_first()[j]) by {
            assert(s.drop_first()[j] == s[j + 1]);
        }
        lemma_first_clock_sep_at(s.drop_first(), k - 1);
    }
}

/// Digits hold no clock separator.
proof fn lemma_digits_no_clock_sep(s: Seq<char>)
    requires
        all_digits(s),
    ensures
        clock_fields(s) == seq![s],
{
    lemma_first_clock_sep_bounds(s);
    if first_clock_sep(s) >= 0 {
        assert(is_digit(s[first_clock_sep(s)]));
    }
}

/// `x`, `sep`, `rest`: where `x` is digits, the first field is `x`.
proof fn lemma_clock_fields_cons(x: Seq<char>, sep: char, rest: Seq<char>)
    requires
        all_digits(x),
        is_clock_sep(sep),
    ensures
        clock_fields(x + seq![sep] + rest) == seq![x] + clock_fields(rest),
{
    let t = x + seq![sep] + rest;
    let k = x.len() as int;
    assert forall|j: int| 0 <= j < k implies !is_clock_sep(#[trigger] t[j]) by {
        assert(t[j] == x[j]);
        assert(is_digit(x[j]));
    }
    assert(t[k] == sep);
    lemma_first_clock_sep_at(t, k);
    assert(t.take(k) =~= x);
    assert(t.skip(k + 1) =~= rest);
}

/// A clock reading as ffprobe writes it reads as the span it writes:
/// `H:MM:SS.uuuuuu` (with or without a line ending) is
/// `((H * 60 + MM) * 60 + SS)` seconds and `uuuuuu` microseconds, wherever the
/// minutes and seconds are below 60 and the seconds fit a `usize`.
pub proof fn law_clock_reading_reads_back(h: nat, m: nat, s: nat, micros: nat)
    requires
        m < 60,
        s < 60,
        micros < 1_000_000,
        (h * 60 + m) * 60 + s <= usize::MAX,
    ensures
        clock_duration(clock_reading_text(h, m, s, micros))
            == Some((((h * 60 + m) * 60 + s) * 1_000_000_000 + micros * 1000) as nat),
        clock_duration(clock_reading_text(h, m, s, micros).push('\n'))
            == Some((((h * 60 + m) * 60 + s) * 1_000_000_000 + micros * 1000) as nat),
{
    let a = decimal(h);
    let b = zero_pad(decimal(m), 2);
    let c = zero_pad(decimal(s), 2);
    let d = zero_pad(decimal(micros), 6);
    lemma_decimal_digits(h);
    lemma_zero_pad_digits(m, 2);
    lemma_zero_pad_digits(s, 2);
    lemma_zero_pad_digits(micros, 6);
    assert(all_digits(a)) by {
        assert forall|i: int| 0 <= i < a.len() implies is_digit(#[trigger] a[i]) by {}
    }
    let t = clock_reading_text(h, m, s, micros);
    assert(t =~= a + seq![':'] + (b + seq![':'] + (c + seq!['.'] + d)));
    lemma_clock_fields_cons(a, ':', b + seq![':'] + (c + seq!['.'] + d));
    lemma_clock_fields_cons(b, ':', c + seq!['.'] + d);
    lemma_clock_fields_cons(c, '.', d);
    lemma_digits_no_clock_sep(d);
    assert(clock_fields(t) =~= seq![a, b, c, d]);
    assert(h <= usize::MAX) by (nonlinear_arith)
        requires (h * 60 + m) * 60 + s <= usize::MAX;
    law_decimal_reads_back(h, usize::MAX as nat);
    lemma_zero_pad_reads(m, 2, usize::MAX as nat);
    lemma_zero_pad_reads(s, 2, usize::MAX as nat);
    lemma_zero_pad_reads(micros, 6, usize::MAX as nat);
    assert(h * 60 <= (h * 60 + m) * 60 + s) by (nonlinear_arith);
    assert((h * 60 + m) * 60 <= (h * 60 + m) * 60 + s);
    assert(h * 60 + m <= (h * 60 + m) * 60) by (nonlinear_arith);
    assert(micros * 1000 < 1_000_000_000) by (nonlinear_arith)
        requires micros < 1_000_000;
    assert(micros * 1000 / 1_000_000_000 == 0) by (nonlinear_arith)
        requires micros * 1000 < 1_000_000_000;
    assert(a[0] == t[0]);
    assert(t.last() == d.last());
    crate::srt_ops::lemma_trim_digits(t);
    crate::srt_ops::lemma_trim_newline(t);
}

} // verus!
