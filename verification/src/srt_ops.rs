//! SRT subtitles: timings, fragments, reading them from lines of text and
//! writing them back out.

use vstd::prelude::*;
use crate::duration::Duration;
use crate::numbers::{IntErrorKind, int_error_message, decimal, decimal_string, parse_uint, parse_uint_chars};
use crate::text::{trim, trim_bounds, chars_of, push_char};
use crate::timestamp::{timestamp_value, parse_timestamp, timestamp_text, whole_millis, law_timestamp_reads_back, lemma_timestamp_text_chars};
use crate::numbers::{is_digit, lemma_decimal_digits, law_decimal_reads_back};
use crate::text::{is_whitespace, trim_start, trim_end};
pub use crate::timestamp::form_timestamp_from_timing;

verus! {

/// When a subtitle shows and when it goes.
#[derive(Clone, Copy, Debug, PartialEq, Eq, Structural)]
pub struct SRTTiming {
    pub start: Duration,
    pub end: Duration,
}

impl View for SRTTiming {
    type V = (nat, nat);

    open spec fn view(&self) -> (nat, nat) {
        (self.start@, self.end@)
    }
}

/// The text `start --> end` that stands for a timing in an SRT file.
pub open spec fn timing_text(t: (nat, nat)) -> Seq<char> {
    timestamp_text(t.0) + " --> "@ + timestamp_text(t.1)
}

impl SRTTiming {
    /// The timing that starts and ends at zero.
    pub fn default() -> (t: SRTTiming)
        ensures
            t@ == (0nat, 0nat),
    {
        SRTTiming { start: Duration::zero(), end: Duration::zero() }
    }

    /// Whether this is the timing that starts and ends at zero.
    pub fn empty(&self) -> (b: bool)
        ensures
            b == (self@ == (0nat, 0nat)),
    {
        self.start.is_zero() && self.end.is_zero()
    }

    /// The timing as an SRT file writes it: `start --> end`.
    pub fn to_string(&self) -> (s: String)
        ensures
            s@ == timing_text(self@),
    {
        let mut s = form_timestamp_from_timing(&self.start);
        let arrow = String::from_str(" --> ");
        proof {
            reveal_strlit(" --> ");
        }
        s.append(arrow.as_str());
        let end = form_timestamp_from_timing(&self.end);
        s.append(end.as_str());
        s
    }
}

/// What a fragment holds: its index, its timing and its lines of text.
pub ghost struct FragmentView {
    pub index: usize,
    pub timing: (nat, nat),
    pub lines: Seq<Seq<char>>,
}

/// One numbered subtitle of an SRT file.
#[derive(Debug)]
pub struct SRTFragment {
    pub index: usize,
    pub timing: SRTTiming,
    pub subtitle_lines: Vec<String>,
}

/// The text of each string in `v`.
pub open spec fn texts(v: Seq<String>) -> Seq<Seq<char>> {
    v.map_values(|l: String| l@)
}

impl View for SRTFragment {
    type V = FragmentView;

    open spec fn view(&self) -> FragmentView {
        FragmentView { index: self.index, timing: self.timing@, lines: texts(self.subtitle_lines@) }
    }
}

/// The lines joined into one, with `sep` between each two.
pub open spec fn join(lines: Seq<Seq<char>>, sep: Seq<char>) -> Seq<char>
    decreases lines.len(),
{
    if lines.len() == 0 {
        Seq::empty()
    } else if lines.len() == 1 {
        lines[0]
    } else {
        join(lines.drop_last(), sep) + sep + lines.last()
    }
}

/// A fragment's lines as a single line (see `SRTFragment::get_flattened_lines`).
pub open spec fn flattened(f: FragmentView) -> Seq<char> {
    join(without_line_endings(f.lines), seq![' '])
}

/// `line` without its line ending: a final `\n`, and a `\r` just before it.
pub open spec fn line_body(line: Seq<char>) -> Seq<char> {
    if line.len() > 0 && line.last() == '\n' {
        let rest = line.drop_last();
        if rest.len() > 0 && rest.last() == '\r' {
            rest.drop_last()
        } else {
            rest
        }
    } else {
        line
    }
}

/// Each line without its line ending.
pub open spec fn without_line_endings(lines: Seq<Seq<char>>) -> Seq<Seq<char>> {
    lines.map_values(|l: Seq<char>| line_body(l))
}

/// `line` without its line ending (see `line_body`).
pub fn strip_line_ending(line: &str) -> (s: String)
    ensures
        s@ == line_body(line@),
{
    let v = chars_of(line);
    let mut end = v.len();
    if end > 0 && v[end - 1] == '\n' {
        end = end - 1;
        if end > 0 && v[end - 1] == '\r' {
            end = end - 1;
        }
    }
    let s = crate::text::string_of(&v, 0, end);
    assert(v@.subrange(0, end as int) =~= line_body(line@));
    s
}

impl Clone for SRTFragment {
    fn clone(&self) -> (c: SRTFragment)
        ensures
            c@ == self@,
    {
        let mut lines: Vec<String> = Vec::new();
        let mut i: usize = 0;
        while i < self.subtitle_lines.len()
            invariant
                i <= self.subtitle_lines@.len(),
                texts(lines@) =~= texts(self.subtitle_lines@.take(i as int)),
            decreases self.subtitle_lines@.len() - i,
        {
            let ghost before = lines@;
            let line = self.subtitle_lines[i].clone();
            lines.push(line);
            assert(self.subtitle_lines@.take(i + 1) =~= self.subtitle_lines@.take(i as int).push(self.subtitle_lines@[i as int]));
            assert(texts(lines@) =~= texts(before).push(line@));
            i = i + 1;
        }
        assert(self.subtitle_lines@.take(i as int) =~= self.subtitle_lines@);
        SRTFragment { index: self.index, timing: self.timing, subtitle_lines: lines }
    }
}

impl SRTFragment {
    /// The subtitle lines as a single line: each without its line ending, joined
    /// by single spaces.
    pub fn get_flattened_lines(&self) -> (s: String)
        ensures
            s@ == flattened(self@),
    {
        let mut s = String::new();
        let n = self.subtitle_lines.len();
        let ghost ls = without_line_endings(texts(self.subtitle_lines@));
        let mut i: usize = 0;
        while i < n
            invariant
                i <= n == self.subtitle_lines@.len(),
                ls == without_line_endings(texts(self.subtitle_lines@)),
                s@ == join(ls.take(i as int), seq![' ']),
            decreases n - i,
        {
            assert(ls.take(i + 1).drop_last() =~= ls.take(i as int));
            if i > 0 {
                push_char(&mut s, ' ');
            } else {
                assert(s@ =~= Seq::<char>::empty());
            }
            let line = strip_line_ending(self.subtitle_lines[i].as_str());
            s.append(line.as_str());
            assert(s@ =~= join(ls.take(i + 1), seq![' ']));
            i = i + 1;
        }
        assert(ls.take(n as int) =~= ls);
        s
    }
}


/// Why subtitles could not be read.
#[derive(Debug)]
pub enum SRTError {
    /// The timing line of the fragment with this index did not read as a timing.
    TimingsParseError { index: usize },
    /// A timestamp did not read.
    TimestampParseError,
    /// An index line did not read as a number.
    IndexParseError(IntErrorKind),
    /// A fragment was not laid out as expected.
    MalformedBlockError,
    /// Reading or writing the file failed, with this message.
    IoError(String),
}

/// The message for each error.
pub open spec fn srt_error_text(e: SRTError) -> Seq<char> {
    match e {
        SRTError::TimingsParseError { index } => "Failed to parse index at: "@ + decimal(index as nat) + " "@,
        SRTError::IndexParseError(k) => "Failed to parse the index, value: "@ + int_error_message(k),
        SRTError::TimestampParseError => "Failed to parse timestamp"@,
        SRTError::MalformedBlockError => "Malformed block"@,
        SRTError::IoError(m) => "SRT IO Error: "@ + m@,
    }
}

impl SRTError {
    /// The error as a message for people.
    pub fn to_string(&self) -> (s: String)
        ensures
            s@ == srt_error_text(*self),
    {
        match self {
            SRTError::TimingsParseError { index } => {
                let mut s = String::from_str("Failed to parse index at: ");
                let n = decimal_string(*index as u64);
                s.append(n.as_str());
                s.append(" ");
                proof {
                    reveal_strlit("Failed to parse index at: ");
                    reveal_strlit(" ");
                }
                s
            },
            SRTError::IndexParseError(k) => {
                let mut s = String::from_str("Failed to parse the index, value: ");
                let m = k.message();
                s.append(m.as_str());
                s
            },
            SRTError::TimestampParseError => String::from_str("Failed to parse timestamp"),
            SRTError::MalformedBlockError => String::from_str("Malformed block"),
            SRTError::IoError(m) => {
                let mut s = String::from_str("SRT IO Error: ");
                s.append(m.as_str());
                s
            },
        }
    }
}

/// Whether `s` holds `-->` at position `i`.
pub open spec fn arrow_at(s: Seq<char>, i: int) -> bool {
    0 <= i && i + 3 <= s.len() && s[i] == '-' && s[i + 1] == '-' && s[i + 2] == '>'
}

/// The first position at or after `i` where `s` holds `-->`, or -1.
pub open spec fn first_arrow_from(s: Seq<char>, i: int) -> int
    decreases s.len() - i,
{
    if i < 0 || i + 3 > s.len() {
        -1
    } else if arrow_at(s, i) {
        i
    } else {
        first_arrow_from(s, i + 1)
    }
}

/// What the timing line `s` reads as: the text before the first `-->` and the text
/// after it, each trimmed and read as a timestamp (`HH:MM:SS,mmm`).
/// `Some(Err(()))` where there is no arrow or a timestamp does not read; `None`
/// where reading a timestamp overflows or meets too many fields.
pub open spec fn srt_timing_value(s: Seq<char>) -> Option<Result<(nat, nat), ()>> {
    let k = first_arrow_from(s, 0);
    if k < 0 {
        Some(Err(()))
    } else {
        match timestamp_value(trim(s.take(k))) {
            None => None,
            Some(Err(_)) => Some(Err(())),
            Some(Ok(start)) => match timestamp_value(trim(s.skip(k + 3))) {
                None => None,
                Some(Err(_)) => Some(Err(())),
                Some(Ok(end)) => Some(Ok((start, end))),
            },
        }
    }
}

/// The position of the first `-->` in `v[from..to]`.
fn find_arrow(v: &Vec<char>, from: usize, to: usize) -> (r: Option<usize>)
    requires
        from <= to <= v@.len(),
    ensures
        match r {
            Some(k) => from <= k && k + 3 <= to && first_arrow_from(v@.subrange(from as int, to as int), 0) == k - from,
            None => first_arrow_from(v@.subrange(from as int, to as int), 0) == -1,
        },
{
    let ghost s = v@.subrange(from as int, to as int);
    let mut i = from;
    while i < to && to - i >= 3
        invariant
            from <= i <= to <= v@.len(),
            s == v@.subrange(from as int, to as int),
            first_arrow_from(s, 0) == first_arrow_from(s, i - from),
        decreases to - i,
    {
        if v[i] == '-' && v[i + 1] == '-' && v[i + 2] == '>' {
            assert(arrow_at(s, i - from));
            return Some(i);
        }
        assert(!arrow_at(s, i - from));
        i = i + 1;
    }
    None
}

/// The characters `v[from..to]`.
fn chars_range(v: &Vec<char>, from: usize, to: usize) -> (r: Vec<char>)
    requires
        from <= to <= v@.len(),
    ensures
        r@ == v@.subrange(from as int, to as int),
{
    let mut r: Vec<char> = Vec::new();
    let mut i = from;
    while i < to
        invariant
            from <= i <= to <= v@.len(),
            r@ =~= v@.subrange(from as int, i as int),
        decreases to - i,
    {
        r.push(v[i]);
        i = i + 1;
    }
    r
}

/// Reads the timing line `v[from..to]`; `None` exactly where `srt_timing_value` is `None`.
fn timing_outcome(v: &Vec<char>, from: usize, to: usize) -> (r: Option<Result<SRTTiming, ()>>)
    requires
        from <= to <= v@.len(),
    ensures
        match r {
            None => srt_timing_value(v@.subrange(from as int, to as int)) is None,
            Some(Err(_)) => srt_timing_value(v@.subrange(from as int, to as int)) == Some(Err::<(nat, nat), ()>(())),
            Some(Ok(t)) => srt_timing_value(v@.subrange(from as int, to as int)) == Some(Ok::<(nat, nat), ()>(t@)),
        },
{
    let ghost s = v@.subrange(from as int, to as int);
    let k = match find_arrow(v, from, to) {
        None => return Some(Err(())),
        Some(k) => k,
    };
    assert(s.take(k - from) =~= v@.subrange(from as int, k as int));
    assert(s.skip(k - from + 3) =~= v@.subrange(k + 3, to as int));
    let (alo, ahi) = trim_bounds(v, from, k);
    let a = chars_range(v, alo, ahi);
    let start = match parse_timestamp(&a) {
        None => return None,
        Some(Err(_)) => return Some(Err(())),
        Some(Ok(d)) => d,
    };
    let (blo, bhi) = trim_bounds(v, k + 3, to);
    let b = chars_range(v, blo, bhi);
    let end = match parse_timestamp(&b) {
        None => return None,
        Some(Err(_)) => return Some(Err(())),
        Some(Ok(d)) => d,
    };
    Some(Ok(SRTTiming { start, end }))
}

/// Reads an SRT timing line, `start --> end`. Each side is trimmed and read as a
/// timestamp; where either does not read, or there is no arrow, the error names
/// the fragment `index`.
pub fn parse_srt_timing(srt_timing: &str, index: &usize) -> (r: Result<SRTTiming, SRTError>)
    requires
        srt_timing_value(srt_timing@) is Some,
    ensures
        match r {
            Ok(t) => srt_timing_value(srt_timing@) == Some(Ok::<(nat, nat), ()>(t@)),
            Err(e) => srt_timing_value(srt_timing@) == Some(Err::<(nat, nat), ()>(()))
                && e == SRTError::TimingsParseError { index: *index },
        },
{
    let v = chars_of(srt_timing);
    assert(v@.subrange(0, v@.len() as int) =~= v@);
    match timing_outcome(&v, 0, v.len()) {
        Some(Ok(t)) => Ok(t),
        _ => Err(SRTError::TimingsParseError { index: *index }),
    }
}


/// Reads an SRT timing line where that can be done at all (see
/// `srt_timing_value`); `None` where a timestamp overflows or has too many fields.
pub fn parse_srt_timing_checked(srt_timing: &str, index: &usize) -> (r: Option<Result<SRTTiming, SRTError>>)
    ensures
        (r is None) <==> (srt_timing_value(srt_timing@) is None),
        r matches Some(Ok(t)) ==> srt_timing_value(srt_timing@) == Some(Ok::<(nat, nat), ()>(t@)),
        r matches Some(Err(e)) ==> srt_timing_value(srt_timing@) == Some(Err::<(nat, nat), ()>(()))
            && e == (SRTError::TimingsParseError { index: *index }),
{
    let v = chars_of(srt_timing);
    assert(v@.subrange(0, v@.len() as int) =~= v@);
    match timing_outcome(&v, 0, v.len()) {
        None => None,
        Some(Ok(t)) => Some(Ok(t)),
        Some(Err(_)) => Some(Err(SRTError::TimingsParseError { index: *index })),
    }
}

/// Where reading an SRT file stands: the fragments completed, and the index,
/// timing and lines of the fragment under way.
pub ghost struct ParseState {
    pub fragments: Seq<FragmentView>,
    pub index: Option<usize>,
    pub timing: Option<(nat, nat)>,
    pub lines: Option<Seq<Seq<char>>>,
}

/// Before the first line.
pub open spec fn initial_state() -> ParseState {
    ParseState { fragments: Seq::empty(), index: None, timing: None, lines: None }
}

/// Reading one more line, as read from the file with its line ending. A fragment
/// is an index line, a timing line, lines of text, and a line that is exactly
/// `\n`, which completes it; a fragment that ends before it has any text is a
/// `MalformedBlockError`. `None` where the reading cannot go on at all: a
/// timestamp overflows or has too many fields.
pub open spec fn parse_step(st: ParseState, line: Seq<char>) -> Option<Result<ParseState, SRTError>> {
    if st.index is None {
        match parse_uint(trim(line), usize::MAX as nat) {
            Ok(n) => Some(Ok(ParseState { index: Some(n as usize), ..st })),
            Err(k) => Some(Err(SRTError::IndexParseError(k))),
        }
    } else if st.timing is None {
        match srt_timing_value(trim(line)) {
            None => None,
            Some(Err(_)) => Some(Err(SRTError::TimingsParseError { index: st.index->0 })),
            Some(Ok(t)) => Some(Ok(ParseState { timing: Some(t), ..st })),
        }
    } else if line != seq!['\n'] {
        Some(Ok(ParseState {
            lines: Some(match st.lines {
                Some(ls) => ls.push(line),
                None => seq![line],
            }),
            ..st
        }))
    } else {
        match st.lines {
            None => Some(Err(SRTError::MalformedBlockError)),
            Some(ls) => Some(Ok(ParseState {
                fragments: st.fragments.push(FragmentView { index: st.index->0, timing: st.timing->0, lines: ls }),
                index: None,
                timing: None,
                lines: None,
            })),
        }
    }
}

/// Reading `lines` one after another from the start; the first error ends it.
pub open spec fn parse_lines(lines: Seq<Seq<char>>) -> Option<Result<ParseState, SRTError>>
    decreases lines.len(),
{
    if lines.len() == 0 {
        Some(Ok(initial_state()))
    } else {
        match parse_lines(lines.drop_last()) {
            Some(Ok(st)) => parse_step(st, lines.last()),
            other => other,
        }
    }
}

/// The fragments that reading `lines` to the end gives: the completed ones; a
/// fragment still under way at the end is dropped.
pub open spec fn srt_fragments_of(lines: Seq<Seq<char>>) -> Option<Result<Seq<FragmentView>, SRTError>> {
    match parse_lines(lines) {
        None => None,
        Some(Err(e)) => Some(Err(e)),
        Some(Ok(st)) => Some(Ok(st.fragments)),
    }
}

/// The views of a vector of fragments.
pub open spec fn fragment_views(v: Seq<SRTFragment>) -> Seq<FragmentView> {
    v.map_values(|f: SRTFragment| f@)
}

/// Reads an SRT file a line at a time.
pub struct SrtParser {
    pub fragments: Vec<SRTFragment>,
    pub index: Option<usize>,
    pub timing: Option<SRTTiming>,
    pub lines: Option<Vec<String>>,
}

impl View for SrtParser {
    type V = ParseState;

    open spec fn view(&self) -> ParseState {
        ParseState {
            fragments: fragment_views(self.fragments@),
            index: self.index,
            timing: match self.timing {
                Some(t) => Some(t@),
                None => None,
            },
            lines: match self.lines {
                Some(ls) => Some(texts(ls@)),
                None => None,
            },
        }
    }
}

impl SrtParser {
    /// A parser before the first line.
    pub fn new() -> (p: SrtParser)
        ensures
            p@ == initial_state(),
    {
        let p = SrtParser { fragments: Vec::new(), index: None, timing: None, lines: None };
        assert(fragment_views(p.fragments@) =~= Seq::<FragmentView>::empty());
        p
    }

    /// Whether the next line can be read at all (see `parse_step`).
    pub fn can_feed(&self, line: &str) -> (b: bool)
        ensures
            b == (parse_step(self@, line@) is Some),
    {
        if self.index.is_none() {
            true
        } else if self.timing.is_none() {
            let v = chars_of(line);
            let (lo, hi) = trim_bounds(&v, 0, v.len());
            assert(v@.subrange(0, v@.len() as int) =~= v@);
            timing_outcome(&v, lo, hi).is_some()
        } else {
            let v = chars_of(line);
            if v.len() == 1 && v[0] == '\n' {
                assert(line@ =~= seq!['\n']);
                true
            } else {
                true
            }
        }
    }

    /// Reads the next line, as read from the file with its line ending. On an
    /// error the parser is left as it was.
    pub fn feed_line(&mut self, line: &str) -> (r: Result<(), SRTError>)
        requires
            parse_step(old(self)@, line@) is Some,
        ensures
            match r {
                Ok(()) => parse_step(old(self)@, line@) == Some(Ok::<ParseState, SRTError>(final(self)@)),
                Err(e) => parse_step(old(self)@, line@) == Some(Err::<ParseState, SRTError>(e))
                    && final(self)@ == old(self)@,
            },
    {
        let v = chars_of(line);
        assert(v@.subrange(0, v@.len() as int) =~= v@);
        if self.index.is_none() {
            let (lo, hi) = trim_bounds(&v, 0, v.len());
            match parse_uint_chars(&v, lo, hi, usize::MAX as u64) {
                Ok(n) => {
                    self.index = Some(n as usize);
                    Ok(())
                },
                Err(k) => Err(SRTError::IndexParseError(k)),
            }
        } else if self.timing.is_none() {
            let (lo, hi) = trim_bounds(&v, 0, v.len());
            let index = match self.index {
                Some(i) => i,
                None => 0,
            };
            match timing_outcome(&v, lo, hi) {
                Some(Ok(t)) => {
                    self.timing = Some(t);
                    Ok(())
                },
                _ => Err(SRTError::TimingsParseError { index }),
            }
        } else if !(v.len() == 1 && v[0] == '\n') {
            assert(line@ != seq!['\n']);
            let text = String::from_str(line);
            let ghost old_lines = self@.lines;
            let mut ls = match self.lines.take() {
                Some(ls) => ls,
                None => Vec::new(),
            };
            let ghost before = ls@;
            ls.push(text);
            assert(texts(ls@) =~= texts(before).push(line@));
            assert(texts(ls@) =~= match old_lines {
                Some(l) => l.push(line@),
                None => seq![line@],
            });
            self.lines = Some(ls);
            Ok(())
        } else {
            assert(line@ =~= seq!['\n']);
            if self.lines.is_none() {
                return Err(SRTError::MalformedBlockError);
            }
            let ls = match self.lines.take() {
                Some(ls) => ls,
                None => Vec::new(),
            };
            let index = match self.index {
                Some(i) => i,
                None => 0,
            };
            let timing = match self.timing {
                Some(t) => t,
                None => SRTTiming::default(),
            };
            let ghost before = self.fragments@;
            self.fragments.push(SRTFragment { index, timing, subtitle_lines: ls });
            assert(fragment_views(self.fragments@) =~= fragment_views(before).push(
                FragmentView { index, timing: timing@, lines: texts(ls@) },
            ));
            self.index = None;
            self.timing = None;
            Ok(())
        }
    }

    /// Reads the next line where that can be done at all; `None`, with the parser
    /// left as it was, where it cannot (see `parse_step`).
    pub fn feed_line_checked(&mut self, line: &str) -> (r: Option<Result<(), SRTError>>)
        ensures
            r is None <==> parse_step(old(self)@, line@) is None,
            r is None ==> final(self)@ == old(self)@,
            r == Some(Ok::<(), SRTError>(())) ==> parse_step(old(self)@, line@) == Some(Ok::<ParseState, SRTError>(final(self)@)),
            r matches Some(Err(e)) ==> parse_step(old(self)@, line@) == Some(Err::<ParseState, SRTError>(e))
                && final(self)@ == old(self)@,
    {
        if self.can_feed(line) {
            Some(self.feed_line(line))
        } else {
            None
        }
    }

    /// The fragments completed so far; a fragment still under way is dropped.
    pub fn finish(self) -> (v: Vec<SRTFragment>)
        ensures
            fragment_views(v@) == self@.fragments,
    {
        self.fragments
    }
}


/// Where reading all of `lines` can go on, so can reading any first part of them.
proof fn lemma_parse_lines_prefix(lines: Seq<Seq<char>>, k: int)
    requires
        0 <= k <= lines.len(),
        parse_lines(lines) is Some,
    ensures
        parse_lines(lines.take(k)) is Some,
    decreases lines.len() - k,
{
    if k < lines.len() {
        lemma_parse_lines_prefix(lines, k + 1);
        assert(lines.take(k + 1).drop_last() =~= lines.take(k));
    } else {
        assert(lines.take(k) =~= lines);
    }
}

/// Reading ends at the first error: once reading the first `k` lines gives an
/// error, reading all of them gives that same error, whatever follows.
pub proof fn law_first_error_ends_reading(lines: Seq<Seq<char>>, k: int)
    requires
        0 <= k <= lines.len(),
        parse_lines(lines.take(k)) matches Some(Err(_)),
    ensures
        parse_lines(lines) == parse_lines(lines.take(k)),
    decreases lines.len() - k,
{
    if k < lines.len() {
        assert(lines.take(k + 1).drop_last() =~= lines.take(k));
        law_first_error_ends_reading(lines, k + 1);
    } else {
        assert(lines.take(k) =~= lines);
    }
}

/// A fragment as an SRT file writes it: index, timing, its lines joined into one,
/// and an empty line.
pub open spec fn fragment_text(f: FragmentView) -> Seq<char> {
    decimal(f.index as nat) + seq!['\n'] + timing_text(f.timing) + seq!['\n'] + flattened(f)
        + seq!['\n', '\n']
}

/// The fragments as an SRT file writes them, one after another.
pub open spec fn srt_text(fs: Seq<FragmentView>) -> Seq<char>
    decreases fs.len(),
{
    if fs.len() == 0 {
        Seq::empty()
    } else {
        srt_text(fs.drop_last()) + fragment_text(fs.last())
    }
}

/// Appends `f` to `s` as an SRT file writes it.
fn push_fragment_text(s: &mut String, f: &SRTFragment)
    ensures
        final(s)@ == old(s)@ + fragment_text(f@),
{
    let index = decimal_string(f.index as u64);
    s.append(index.as_str());
    push_char(s, '\n');
    let timing = f.timing.to_string();
    s.append(timing.as_str());
    push_char(s, '\n');
    let text = f.get_flattened_lines();
    s.append(text.as_str());
    push_char(s, '\n');
    push_char(s, '\n');
    assert(s@ =~= old(s)@ + fragment_text(f@));
}

impl SRTFragment {
    /// The fragment as an SRT file writes it: index, timing, its lines joined into
    /// one, and an empty line.
    pub fn render(&self) -> (s: String)
        ensures
            s@ == fragment_text(self@),
    {
        let mut s = String::new();
        push_fragment_text(&mut s, self);
        s
    }
}

/// Subtitles together with the file they come from or go to.
pub struct SRTFile {
    pub filepath: std::path::PathBuf,
    pub fragments: Vec<SRTFragment>,
}

impl SRTFile {
    /// Subtitles that are to be stored at `filepath`.
    pub fn new(filepath: std::path::PathBuf, fragments: Vec<SRTFragment>) -> (f: SRTFile)
        ensures
            f.filepath == filepath,
            fragment_views(f.fragments@) == fragment_views(fragments@),
    {
        SRTFile { filepath, fragments }
    }

    /// Reads the fragments of an SRT file from its lines, each as read from the file
    /// with its line ending. The first error ends the reading; at the end, a fragment
    /// still under way is dropped.
    pub fn get_srt_fragments(lines: &Vec<String>) -> (r: Result<Vec<SRTFragment>, SRTError>)
        requires
            srt_fragments_of(texts(lines@)) is Some,
        ensures
            match r {
                Ok(v) => srt_fragments_of(texts(lines@)) == Some(Ok::<Seq<FragmentView>, SRTError>(fragment_views(v@))),
                Err(e) => srt_fragments_of(texts(lines@)) == Some(Err::<Seq<FragmentView>, SRTError>(e)),
            },
    {
        let mut parser = SrtParser::new();
        let n = lines.len();
        let mut i: usize = 0;
        while i < n
            invariant
                i <= n == lines@.len(),
                srt_fragments_of(texts(lines@)) is Some,
                parse_lines(texts(lines@).take(i as int)) == Some(Ok::<ParseState, SRTError>(parser@)),
            decreases n - i,
        {
            proof {
                lemma_parse_lines_prefix(texts(lines@), i as int + 1);
                assert(texts(lines@).take(i + 1).drop_last() =~= texts(lines@).take(i as int));
            }
            match parser.feed_line(lines[i].as_str()) {
                Ok(()) => {},
                Err(e) => {
                    proof {
                        law_first_error_ends_reading(texts(lines@), i as int + 1);
                    }
                    return Err(e);
                },
            }
            i = i + 1;
        }
        assert(texts(lines@).take(n as int) =~= texts(lines@));
        Ok(parser.finish())
    }

    /// The text that writing the file stores: each fragment as its index, its
    /// timing, its lines joined into one, and an empty line.
    pub fn render(&self) -> (s: String)
        ensures
            s@ == srt_text(fragment_views(self.fragments@)),
    {
        let mut s = String::new();
        let n = self.fragments.len();
        let mut i: usize = 0;
        while i < n
            invariant
                i <= n == self.fragments@.len(),
                s@ == srt_text(fragment_views(self.fragments@).take(i as int)),
            decreases n - i,
        {
            let f = &self.fragments[i];
            push_fragment_text(&mut s, f);
            proof {
                let fs = fragment_views(self.fragments@);
                assert(fs.take(i + 1).drop_last() =~= fs.take(i as int));
                assert(fs.take(i + 1).last() == f@);
            }
            i = i + 1;
        }
        assert(fragment_views(self.fragments@).take(n as int) =~= fragment_views(self.fragments@));
        s
    }
}


/// A state that reading can reach: every completed fragment has text, and the
/// fragment under way has text once it has lines at all.
pub open spec fn fragments_have_text(st: ParseState) -> bool {
    &&& forall|i: int| 0 <= i < st.fragments.len() ==> #[trigger] st.fragments[i].lines.len() >= 1
    &&& st.lines matches Some(ls) ==> ls.len() >= 1
}

/// Every fragment that reading SRT lines completes has at least one line of
/// text, and none of its lines is an empty line.
pub proof fn law_fragments_have_text(lines: Seq<Seq<char>>)
    requires
        parse_lines(lines) is Some,
    ensures
        parse_lines(lines) matches Some(Ok(st)) ==> {
            &&& fragments_have_text(st)
            &&& forall|i: int, j: int| 0 <= i < st.fragments.len() && 0 <= j < st.fragments[i].lines.len()
                ==> #[trigger] st.fragments[i].lines[j] != seq!['\n']
            &&& st.lines matches Some(ls) ==> forall|j: int| 0 <= j < ls.len() ==> #[trigger] ls[j] != seq!['\n']
        },
    decreases lines.len(),
{
    if lines.len() > 0 {
        lemma_parse_lines_prefix(lines, lines.len() - 1);
        assert(lines.take(lines.len() - 1) =~= lines.drop_last());
        law_fragments_have_text(lines.drop_last());
        if let Some(Ok(st)) = parse_lines(lines.drop_last()) {
            let line = lines.last();
            if let Some(Ok(next)) = parse_step(st, line) {
                if st.index is Some && st.timing is Some && line != seq!['\n'] {
                    if let Some(ls) = st.lines {
                        assert(next.lines == Some(ls.push(line)));
                        assert forall|j: int| 0 <= j < ls.push(line).len() implies #[trigger] ls.push(line)[j] != seq!['\n'] by {
                            if j < ls.len() {
                                assert(ls.push(line)[j] == ls[j]);
                            }
                        }
                    }
                } else if st.index is Some && st.timing is Some {
                    let ls = st.lines->0;
                    assert(next.fragments == st.fragments.push(FragmentView { index: st.index->0, timing: st.timing->0, lines: ls }));
                    assert forall|i: int| 0 <= i < next.fragments.len() implies #[trigger] next.fragments[i].lines.len() >= 1 by {
                        if i < st.fragments.len() {
                            assert(next.fragments[i] == st.fragments[i]);
                        }
                    }
                    assert forall|i: int, j: int| 0 <= i < next.fragments.len() && 0 <= j < next.fragments[i].lines.len()
                        implies #[trigger] next.fragments[i].lines[j] != seq!['\n'] by {
                        if i < st.fragments.len() {
                            assert(next.fragments[i] == st.fragments[i]);
                        }
                    }
                }
            }
        }
    }
}

/// With no arrow from `i` up to `j` and one at `j`, the first arrow from `i` is at `j`.
proof fn lemma_first_arrow_at(s: Seq<char>, i: int, j: int)
    requires
        0 <= i <= j,
        arrow_at(s, j),
        forall|m: int| i <= m < j ==> !arrow_at(s, m),
    ensures
        first_arrow_from(s, i) == j,
    decreases j - i,
{
    if i < j {
        lemma_first_arrow_at(s, i + 1, j);
    }
}

/// Text that starts and ends with a digit is its own trimming, also with spaces
/// around it.
pub(crate) proof fn lemma_trim_digits(x: Seq<char>)
    requires
        x.len() >= 1,
        is_digit(x[0]),
        is_digit(x.last()),
    ensures
        trim(x) == x,
        trim(x.push(' ')) == x,
        trim(seq![' '] + x) == x,
{
    assert(!is_whitespace(x[0]));
    assert(!is_whitespace(x.last()));
    assert(trim_start(x) == x);
    assert(trim_end(x) == x);
    assert(x.push(' ')[0] == x[0]);
    assert(trim_start(x.push(' ')) == x.push(' '));
    assert(x.push(' ').drop_last() =~= x);
    assert(trim_end(x.push(' ')) == trim_end(x));
    assert((seq![' '] + x).drop_first() =~= x);
    assert(trim_start(seq![' '] + x) == trim_start(x));
}

/// A timing as `SRTTiming::to_string` writes it reads back as the timing it was
/// written from, cut down to whole milliseconds.
pub proof fn law_timing_reads_back(t: (nat, nat))
    requires
        t.0 / 1_000_000_000 <= u64::MAX,
        t.1 / 1_000_000_000 <= u64::MAX,
    ensures
        srt_timing_value(timing_text(t)) == Some(Ok::<(nat, nat), ()>((whole_millis(t.0), whole_millis(t.1)))),
{
    reveal_strlit(" --> ");
    let a = timestamp_text(t.0);
    let b = timestamp_text(t.1);
    lemma_timestamp_text_chars(t.0);
    lemma_timestamp_text_chars(t.1);
    law_timestamp_reads_back(t.0);
    law_timestamp_reads_back(t.1);
    let s = timing_text(t);
    assert(s =~= a + seq![' ', '-', '-', '>', ' '] + b);
    let k = a.len() as int + 1;
    assert(arrow_at(s, k));
    assert forall|m: int| 0 <= m < k implies !arrow_at(s, m) by {
        if m < a.len() {
            assert(s[m] == a[m]);
        } else {
            assert(s[m] == ' ');
        }
    }
    lemma_first_arrow_at(s, 0, k);
    assert(s.take(k) =~= a.push(' '));
    assert(s.skip(k + 3) =~= seq![' '] + b);
    lemma_trim_digits(a);
    lemma_trim_digits(b);
}

/// The lines that writing a fragment stores, each with its line ending.
pub open spec fn fragment_lines(f: FragmentView) -> Seq<Seq<char>> {
    seq![
        decimal(f.index as nat) + seq!['\n'],
        timing_text(f.timing) + seq!['\n'],
        flattened(f) + seq!['\n'],
        seq!['\n'],
    ]
}

/// The lines that writing the fragments stores, one fragment after another.
pub open spec fn file_lines(fs: Seq<FragmentView>) -> Seq<Seq<char>>
    decreases fs.len(),
{
    if fs.len() == 0 {
        Seq::empty()
    } else {
        file_lines(fs.drop_last()) + fragment_lines(fs.last())
    }
}

/// The lines put one after another.
pub open spec fn concat_lines(ls: Seq<Seq<char>>) -> Seq<char>
    decreases ls.len(),
{
    if ls.len() == 0 {
        Seq::empty()
    } else {
        concat_lines(ls.drop_last()) + ls.last()
    }
}

/// The position of the first `\n` in `t`, or -1.
pub open spec fn first_newline(t: Seq<char>) -> int
    decreases t.len(),
{
    if t.len() == 0 {
        -1
    } else if t[0] == '\n' {
        0
    } else {
        let r = first_newline(t.drop_first());
        if r < 0 {
            -1
        } else {
            r + 1
        }
    }
}

/// `first_newline` lies within the text.
pub proof fn lemma_first_newline_bounds(t: Seq<char>)
    ensures
        -1 <= first_newline(t) < t.len(),
    decreases t.len(),
{
    if t.len() > 0 && t[0] != '\n' {
        lemma_first_newline_bounds(t.drop_first());
    }
}

/// Text cut into lines as reading it a line at a time gives them: each line runs
/// up to and with its `\n`; the last one may have none.
pub open spec fn split_lines(t: Seq<char>) -> Seq<Seq<char>>
    decreases t.len(),
{
    if t.len() == 0 {
        Seq::empty()
    } else {
        let k = first_newline(t);
        if k < 0 {
            seq![t]
        } else {
            proof {
                lemma_first_newline_bounds(t);
            }
            seq![t.take(k + 1)] + split_lines(t.skip(k + 1))
        }
    }
}

/// Whether `l` ends with `\n` and holds no other.
pub open spec fn is_full_line(l: Seq<char>) -> bool {
    &&& l.len() >= 1
    &&& l.last() == '\n'
    &&& forall|i: int| 0 <= i < l.len() - 1 ==> #[trigger] l[i] != '\n'
}

/// Where the first `\n` of `t` is at `k`.
proof fn lemma_first_newline_at(t: Seq<char>, k: int)
    requires
        0 <= k < t.len(),
        t[k] == '\n',
        forall|i: int| 0 <= i < k ==> #[trigger] t[i] != '\n',
    ensures
        first_newline(t) == k,
    decreases k,
{
    if k > 0 {
        assert forall|i: int| 0 <= i < k - 1 implies #[trigger] t.drop_first()[i] != '\n' by {
            assert(t.drop_first()[i] == t[i + 1]);
        }
        lemma_first_newline_at(t.drop_first(), k - 1);
    }
}

/// Putting lines one after another splits at the join.
proof fn lemma_concat_append(a: Seq<Seq<char>>, b: Seq<Seq<char>>)
    ensures
        concat_lines(a + b) == concat_lines(a) + concat_lines(b),
    decreases b.len(),
{
    if b.len() == 0 {
        assert(a + b =~= a);
        assert(concat_lines(a) + concat_lines(b) =~= concat_lines(a));
    } else {
        assert((a + b).drop_last() =~= a + b.drop_last());
        lemma_concat_append(a, b.drop_last());
        assert(concat_lines(a + b) =~= concat_lines(a) + concat_lines(b));
    }
}

/// Full lines put one after another are cut back into those lines.
proof fn lemma_split_concat(ls: Seq<Seq<char>>)
    requires
        forall|i: int| 0 <= i < ls.len() ==> is_full_line(#[trigger] ls[i]),
    ensures
        split_lines(concat_lines(ls)) == ls,
    decreases ls.len(),
{
    if ls.len() > 0 {
        let first = ls[0];
        let rest = ls.drop_first();
        assert(ls =~= seq![first] + rest);
        lemma_concat_append(seq![first], rest);
        assert(seq![first].drop_last() =~= Seq::<Seq<char>>::empty());
        assert(concat_lines(Seq::<Seq<char>>::empty()) == Seq::<char>::empty());
        assert(seq![first].last() == first);
        assert(concat_lines(seq![first]) =~= first);
        let t = concat_lines(ls);
        assert(t == first + concat_lines(rest));
        assert(is_full_line(first));
        let k = first.len() - 1;
        assert forall|i: int| 0 <= i < k implies #[trigger] t[i] != '\n' by {
            assert(t[i] == first[i]);
        }
        assert(t[k] == first[k]);
        lemma_first_newline_at(t, k);
        assert(t.take(k + 1) =~= first);
        assert(t.skip(k + 1) =~= concat_lines(rest));
        assert forall|i: int| 0 <= i < rest.len() implies is_full_line(#[trigger] rest[i]) by {
            assert(rest[i] == ls[i + 1]);
        }
        lemma_split_concat(rest);
        assert(split_lines(t) =~= seq![first] + rest);
    }
}

/// The fragments a written file is fit to give back: each one's text is one
/// non-empty line, and its times fit a `Duration`.
pub open spec fn writable(f: FragmentView) -> bool {
    &&& flattened(f).len() >= 1
    &&& forall|i: int| 0 <= i < flattened(f).len() ==> #[trigger] flattened(f)[i] != '\n'
    &&& f.timing.0 / 1_000_000_000 <= u64::MAX
    &&& f.timing.1 / 1_000_000_000 <= u64::MAX
}

/// What reading a written fragment gives back: its index, its timing cut down to
/// whole milliseconds, and its text as one line with its line ending.
pub open spec fn reread(f: FragmentView) -> FragmentView {
    FragmentView {
        index: f.index,
        timing: (whole_millis(f.timing.0), whole_millis(f.timing.1)),
        lines: seq![flattened(f) + seq!['\n']],
    }
}

/// The lines of written fragments are full lines.
proof fn lemma_file_lines_full(fs: Seq<FragmentView>)
    requires
        forall|i: int| 0 <= i < fs.len() ==> writable(#[trigger] fs[i]),
    ensures
        forall|i: int| 0 <= i < file_lines(fs).len() ==> is_full_line(#[trigger] file_lines(fs)[i]),
    decreases fs.len(),
{
    if fs.len() > 0 {
        let f = fs.last();
        assert(writable(fs[fs.len() - 1]));
        assert forall|i: int| 0 <= i < fs.drop_last().len() implies writable(#[trigger] fs.drop_last()[i]) by {
            assert(fs.drop_last()[i] == fs[i]);
        }
        lemma_file_lines_full(fs.drop_last());
        lemma_decimal_digits(f.index as nat);
        lemma_timestamp_text_chars(f.timing.0);
        lemma_timestamp_text_chars(f.timing.1);
        reveal_strlit(" --> ");
        let fl = fragment_lines(f);
        let d = decimal(f.index as nat);
        assert forall|i: int| 0 <= i < d.len() implies #[trigger] d[i] != '\n' by {
            assert(is_digit(d[i]));
        }
        assert(is_full_line(fl[0]));
        let tt = timing_text(f.timing);
        let a = timestamp_text(f.timing.0);
        let b = timestamp_text(f.timing.1);
        assert(tt =~= a + seq![' ', '-', '-', '>', ' '] + b);
        assert forall|i: int| 0 <= i < tt.len() implies #[trigger] tt[i] != '\n' by {
            if i < a.len() {
                assert(tt[i] == a[i]);
            } else if i >= a.len() + 5 {
                assert(tt[i] == b[i - a.len() - 5]);
            }
        }
        assert(is_full_line(fl[1]));
        assert(is_full_line(fl[2]));
        assert(is_full_line(fl[3]));
        let all = file_lines(fs);
        assert(all == file_lines(fs.drop_last()) + fl);
        assert forall|i: int| 0 <= i < all.len() implies is_full_line(#[trigger] all[i]) by {
            let n = file_lines(fs.drop_last()).len() as int;
            if i < n {
                assert(all[i] == file_lines(fs.drop_last())[i]);
            } else {
                assert(all[i] == fl[i - n]);
            }
        }
    }
}

/// The written text is the written lines one after another.
proof fn lemma_srt_text_lines(fs: Seq<FragmentView>)
    ensures
        concat_lines(file_lines(fs)) == srt_text(fs),
    decreases fs.len(),
{
    if fs.len() > 0 {
        lemma_srt_text_lines(fs.drop_last());
        lemma_concat_append(file_lines(fs.drop_last()), fragment_lines(fs.last()));
        let fl = fragment_lines(fs.last());
        let e = Seq::<Seq<char>>::empty();
        assert(concat_lines(e) == Seq::<char>::empty());
        assert(e.push(fl[0]).drop_last() =~= e);
        assert(concat_lines(e.push(fl[0])) =~= fl[0]);
        assert(e.push(fl[0]).push(fl[1]).drop_last() =~= e.push(fl[0]));
        assert(concat_lines(e.push(fl[0]).push(fl[1])) =~= fl[0] + fl[1]);
        assert(e.push(fl[0]).push(fl[1]).push(fl[2]).drop_last() =~= e.push(fl[0]).push(fl[1]));
        assert(concat_lines(e.push(fl[0]).push(fl[1]).push(fl[2])) =~= fl[0] + fl[1] + fl[2]);
        assert(fl =~= e.push(fl[0]).push(fl[1]).push(fl[2]).push(fl[3]));
        assert(fl.drop_last() =~= e.push(fl[0]).push(fl[1]).push(fl[2]));
        assert(concat_lines(fl) =~= fragment_text(fs.last()));
    }
}

/// Reading the lines of a written file gives back every fragment (see `reread`),
/// and nothing under way.
proof fn lemma_read_written_lines(fs: Seq<FragmentView>)
    requires
        forall|i: int| 0 <= i < fs.len() ==> writable(#[trigger] fs[i]),
    ensures
        parse_lines(file_lines(fs)) == Some(Ok::<ParseState, SRTError>(ParseState {
            fragments: fs.map_values(|f: FragmentView| reread(f)),
            index: None,
            timing: None,
            lines: None,
        })),
    decreases fs.len(),
{
    if fs.len() > 0 {
        let prev = fs.drop_last();
        let f = fs.last();
        assert(writable(fs[fs.len() - 1]));
        assert forall|i: int| 0 <= i < prev.len() implies writable(#[trigger] prev[i]) by {
            assert(prev[i] == fs[i]);
        }
        lemma_read_written_lines(prev);
        let st0 = ParseState { fragments: prev.map_values(|g: FragmentView| reread(g)), index: None, timing: None, lines: None };
        let fl = fragment_lines(f);
        let l0 = file_lines(prev);
        let l1 = l0.push(fl[0]);
        let l2 = l1.push(fl[1]);
        let l3 = l2.push(fl[2]);
        let l4 = l3.push(fl[3]);
        assert(file_lines(fs) =~= l4);
        assert(l1.drop_last() =~= l0);
        assert(l2.drop_last() =~= l1);
        assert(l3.drop_last() =~= l2);
        assert(l4.drop_last() =~= l3);
        step_index_line(st0, f);
        let st1 = ParseState { index: Some(f.index), ..st0 };
        assert(parse_lines(l1) == Some(Ok::<ParseState, SRTError>(st1)));
        step_timing_line(st1, f);
        let t = (whole_millis(f.timing.0), whole_millis(f.timing.1));
        let st2 = ParseState { timing: Some(t), ..st1 };
        assert(parse_lines(l2) == Some(Ok::<ParseState, SRTError>(st2)));
        let x = flattened(f) + seq!['\n'];
        step_text_line(st2, f);
        let st3 = ParseState { lines: Some(seq![x]), ..st2 };
        assert(parse_lines(l3) == Some(Ok::<ParseState, SRTError>(st3)));
        // the empty line
        assert(fs.map_values(|g: FragmentView| reread(g)) =~= st0.fragments.push(
            FragmentView { index: f.index, timing: t, lines: seq![x] },
        ));
        assert(parse_lines(l4) == Some(Ok::<ParseState, SRTError>(ParseState {
            fragments: fs.map_values(|g: FragmentView| reread(g)),
            index: None,
            timing: None,
            lines: None,
        })));
    } else {
        assert(fs.map_values(|g: FragmentView| reread(g)) =~= Seq::<FragmentView>::empty());
    }
}

/// Reading the index line of a written fragment.
proof fn step_index_line(st: ParseState, f: FragmentView)
    requires
        st.index is None,
    ensures
        parse_step(st, fragment_lines(f)[0]) == Some(Ok::<ParseState, SRTError>(ParseState { index: Some(f.index), ..st })),
{
    let d = decimal(f.index as nat);
    lemma_decimal_digits(f.index as nat);
    assert(is_digit(d[0]));
    assert(is_digit(d.last()));
    lemma_trim_newline(d);
    law_decimal_reads_back(f.index as nat, usize::MAX as nat);
    assert(fragment_lines(f)[0] =~= d.push('\n'));
    assert(trim(fragment_lines(f)[0]) == d);
}

/// Reading the timing line of a written fragment.
proof fn step_timing_line(st: ParseState, f: FragmentView)
    requires
        st.index is Some,
        st.timing is None,
        writable(f),
    ensures
        parse_step(st, fragment_lines(f)[1]) == Some(Ok::<ParseState, SRTError>(ParseState {
            timing: Some((whole_millis(f.timing.0), whole_millis(f.timing.1))),
            ..st
        })),
{
    let tt = timing_text(f.timing);
    let a = timestamp_text(f.timing.0);
    let b = timestamp_text(f.timing.1);
    lemma_timestamp_text_chars(f.timing.0);
    lemma_timestamp_text_chars(f.timing.1);
    reveal_strlit(" --> ");
    assert(tt =~= a + seq![' ', '-', '-', '>', ' '] + b);
    assert(tt[0] == a[0]);
    assert(tt.last() == b.last());
    lemma_trim_newline(tt);
    law_timing_reads_back(f.timing);
    assert(fragment_lines(f)[1] =~= tt.push('\n'));
    assert(trim(fragment_lines(f)[1]) == tt);
}

/// Reading the text line of a written fragment.
proof fn step_text_line(st: ParseState, f: FragmentView)
    requires
        st.index is Some,
        st.timing is Some,
        st.lines is None,
        writable(f),
    ensures
        parse_step(st, fragment_lines(f)[2]) == Some(Ok::<ParseState, SRTError>(ParseState {
            lines: Some(seq![flattened(f) + seq!['\n']]),
            ..st
        })),
{
    let x = flattened(f) + seq!['\n'];
    assert(x.len() >= 2);
    assert(x != seq!['\n']);
}

/// A line with its line ending trims as the line does.
pub(crate) proof fn lemma_trim_newline(x: Seq<char>)
    requires
        x.len() >= 1,
        is_digit(x[0]),
        is_digit(x.last()),
    ensures
        trim(x.push('\n')) == x,
{
    assert(x.push('\n')[0] == x[0]);
    assert(!is_whitespace(x[0]));
    assert(trim_start(x.push('\n')) == x.push('\n'));
    assert(x.push('\n').drop_last() =~= x);
    assert(!is_whitespace(x.last()));
    assert(trim_end(x) == x);
}

/// What a written SRT file reads back as: cutting the text that `SRTFile::render`
/// gives into lines as they are read, and reading those lines, gives back every
/// fragment with its index, its timing cut down to whole milliseconds, and its
/// text as a single line; where that text does not end in `\r`, that line
/// flattens back to the text written. This holds of fragments whose text is one
/// non-empty line and whose times fit a `Duration`.
pub proof fn law_written_file_reads_back(fs: Seq<FragmentView>)
    requires
        forall|i: int| 0 <= i < fs.len() ==> writable(#[trigger] fs[i]),
    ensures
        split_lines(srt_text(fs)) == file_lines(fs),
        srt_fragments_of(split_lines(srt_text(fs))) == Some(Ok::<Seq<FragmentView>, SRTError>(
            fs.map_values(|f: FragmentView| reread(f)),
        )),
        forall|i: int| 0 <= i < fs.len() && (#[trigger] fs[i]).timing.0 % 1_000_000 == 0
            && fs[i].timing.1 % 1_000_000 == 0 ==> reread(fs[i]).timing == fs[i].timing,
        forall|i: int| 0 <= i < fs.len() && flattened(#[trigger] fs[i]).last() != '\r'
            ==> flattened(reread(fs[i])) == flattened(fs[i]),
{
    lemma_srt_text_lines(fs);
    lemma_file_lines_full(fs);
    lemma_split_concat(file_lines(fs));
    lemma_read_written_lines(fs);
    assert forall|i: int| 0 <= i < fs.len() && (#[trigger] fs[i]).timing.0 % 1_000_000 == 0
        && fs[i].timing.1 % 1_000_000 == 0 implies reread(fs[i]).timing == fs[i].timing by {
        let x = fs[i].timing.0;
        let y = fs[i].timing.1;
        assert(x / 1_000_000 * 1_000_000 == x) by (nonlinear_arith) requires x % 1_000_000 == 0;
        assert(y / 1_000_000 * 1_000_000 == y) by (nonlinear_arith) requires y % 1_000_000 == 0;
    }
    assert forall|i: int| 0 <= i < fs.len() && flattened(#[trigger] fs[i]).last() != '\r'
        implies flattened(reread(fs[i])) == flattened(fs[i]) by {
        let x = flattened(fs[i]) + seq!['\n'];
        assert(x.drop_last() =~= flattened(fs[i]));
        assert(without_line_endings(seq![x]) =~= seq![flattened(fs[i])]);
    }
}

/// The text of a fragment that a written file can give back: one non-empty line.
pub open spec fn single_line_text(f: FragmentView) -> bool {
    &&& flattened(f).len() >= 1
    &&& forall|i: int| 0 <= i < flattened(f).len() ==> #[trigger] flattened(f)[i] != '\n'
}

/// What `SRTFile::render` writes of `fragments` reads back, line by line as it is
/// read, as those fragments (see `law_written_file_reads_back`), wherever each
/// fragment's text is one non-empty line: the same indices, the timings cut down
/// to whole milliseconds, and each text as one line.
pub proof fn law_rendered_fragments_read_back(fragments: Seq<SRTFragment>)
    requires
        forall|i: int| 0 <= i < fragments.len() ==> single_line_text(#[trigger] fragments[i]@),
    ensures
        srt_fragments_of(split_lines(srt_text(fragment_views(fragments)))) == Some(Ok::<Seq<FragmentView>, SRTError>(
            fragment_views(fragments).map_values(|f: FragmentView| reread(f)),
        )),
        forall|i: int| 0 <= i < fragments.len() && (#[trigger] fragments[i]).timing.start@ % 1_000_000 == 0
            && fragments[i].timing.end@ % 1_000_000 == 0 ==> reread(fragments[i]@).timing == fragments[i]@.timing,
        forall|i: int| 0 <= i < fragments.len() && flattened((#[trigger] fragments[i])@).last() != '\r'
            ==> flattened(reread(fragments[i]@)) == flattened(fragments[i]@),
{
    let fs = fragment_views(fragments);
    assert forall|i: int| 0 <= i < fs.len() implies writable(#[trigger] fs[i]) by {
        assert(fs[i] == fragments[i]@);
        assert(single_line_text(fragments[i]@));
        crate::duration::lemma_duration_secs_fit(fragments[i].timing.start);
        crate::duration::lemma_duration_secs_fit(fragments[i].timing.end);
    }
    law_written_file_reads_back(fs);
    assert forall|i: int| 0 <= i < fragments.len() && (#[trigger] fragments[i]).timing.start@ % 1_000_000 == 0
        && fragments[i].timing.end@ % 1_000_000 == 0 implies reread(fragments[i]@).timing == fragments[i]@.timing by {
        assert(fs[i] == fragments[i]@);
    }
    assert forall|i: int| 0 <= i < fragments.len() && flattened((#[trigger] fragments[i])@).last() != '\r'
        implies flattened(reread(fragments[i]@)) == flattened(fragments[i]@) by {
        assert(fs[i] == fragments[i]@);
    }
}

} // verus!
