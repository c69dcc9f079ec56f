//! Translation: the prompts sent to the translating LLM, what is kept of its
//! answer, and how far an earlier translation got.

use vstd::prelude::*;
use crate::numbers::{parse_uint, parse_uint_chars};
use crate::srt_ops::{SRTFragment, FragmentView, texts};
use crate::text::{trim, trim_start, trim_end, is_whitespace, trim_bounds, chars_of, string_of};
use crate::numbers::{decimal, is_digit, parse_digits, IntErrorKind, lemma_decimal_digits, law_decimal_reads_back};
use crate::srt_ops::{file_lines, fragment_lines, flattened, timing_text};
use crate::timestamp::{timestamp_text, lemma_timestamp_text_chars};

verus! {

/// The system prompt up to the input language.
pub const PROMPT_OPENING: &'static str = "\n        You are an AI translator, translating lines from a an SRT file in ";

/// The system prompt between the two languages.
pub const PROMPT_TO: &'static str = " to ";

/// The system prompt between the output language and the extra context.
pub const PROMPT_RULES: &'static str = ".\n        Your response will include only the translated text, only in the requested language. Nothing more.\n        Only quote stuff when characters (or something) explain a thing, use single quotes,\n        like this: \" Translated text 'example'\"\n        Only give 1 translation answer.\n        Follow this to the letter.\n        Follow this extra directives too: ";

/// The system prompt after the extra context.
pub const PROMPT_CLOSING: &'static str = ".\n        ";

/// The user prompt before the line to translate.
pub const LINE_PROMPT: &'static str = "This is the line that you have to translate: ";

/// The system prompt that asks for lines in `input_language` to be rendered in `output_language`,
/// with `extra_context` as further directives.
pub open spec fn system_prompt_text(input_language: Seq<char>, output_language: Seq<char>, extra_context: Seq<char>) -> Seq<char> {
    PROMPT_OPENING@ + input_language + PROMPT_TO@ + output_language + PROMPT_RULES@ + extra_context + PROMPT_CLOSING@
}

/// The system prompt of the translator.
pub fn system_prompt(input_language: &str, output_language: &str, extra_context: &str) -> (s: String)
    ensures
        s@ == system_prompt_text(input_language@, output_language@, extra_context@),
{
    let mut s = String::from_str(PROMPT_OPENING);
    s.append(input_language);
    s.append(PROMPT_TO);
    s.append(output_language);
    s.append(PROMPT_RULES);
    s.append(extra_context);
    s.append(PROMPT_CLOSING);
    s
}

/// The user prompt that asks for `line` to be translated.
pub fn user_prompt(line: &str) -> (s: String)
    ensures
        s@ == LINE_PROMPT@ + line@,
{
    let mut s = String::from_str(LINE_PROMPT);
    s.append(line);
    s
}

/// What is kept of the translator's answer: its text, trimmed.
pub fn translation_from_response(content: &str) -> (s: String)
    ensures
        s@ == trim(content@),
{
    let v = chars_of(content);
    let (lo, hi) = trim_bounds(&v, 0, v.len());
    assert(v@.subrange(0, v@.len() as int) =~= v@);
    string_of(&v, lo, hi)
}

/// `fragment` with `translation` added as its last line.
pub fn translated_fragment(fragment: &SRTFragment, translation: String) -> (f: SRTFragment)
    ensures
        f@ == (FragmentView { lines: fragment@.lines.push(translation@), ..fragment@ }),
{
    let mut f = fragment.clone();
    let ghost before = f.subtitle_lines@;
    f.subtitle_lines.push(translation);
    assert(texts(f.subtitle_lines@) =~= texts(before).push(translation@));
    f
}

/// How far a translated SRT file got: the last of its lines that, trimmed, reads
/// as a 16-bit number (the index of the last fragment); 0 where none does.
pub open spec fn translated_progress(lines: Seq<Seq<char>>) -> nat
    decreases lines.len(),
{
    if lines.len() == 0 {
        0
    } else {
        match parse_uint(trim(lines.last()), u16::MAX as nat) {
            Ok(n) => n,
            Err(_) => translated_progress(lines.drop_last()),
        }
    }
}

/// How far a translated SRT file got, from its lines as read (see
/// `translated_progress`).
pub fn get_translated_srt_progress(lines: &Vec<String>) -> (p: u16)
    ensures
        p as nat == translated_progress(texts(lines@)),
{
    let mut progress: u16 = 0;
    let n = lines.len();
    let mut i: usize = 0;
    while i < n
        invariant
            i <= n == lines@.len(),
            progress as nat == translated_progress(texts(lines@).take(i as int)),
        decreases n - i,
    {
        assert(texts(lines@).take(i + 1).drop_last() =~= texts(lines@).take(i as int));
        assert(texts(lines@).take(i + 1).last() == lines@[i as int]@);
        let v = chars_of(lines[i].as_str());
        let (lo, hi) = trim_bounds(&v, 0, v.len());
        assert(v@.subrange(0, v@.len() as int) =~= v@);
        match parse_uint_chars(&v, lo, hi, 0xffff) {
            Ok(number) => {
                progress = number as u16;
            },
            Err(_) => {},
        }
        i = i + 1;
    }
    assert(texts(lines@).take(n as int) =~= texts(lines@));
    progress
}


/// The translated subtitles: each fragment in order with its translation added
/// as its last line.
pub fn translated_fragments(srt_fragments: &Vec<SRTFragment>, translations: &Vec<String>) -> (out: Vec<SRTFragment>)
    requires
        translations@.len() == srt_fragments@.len(),
    ensures
        out@.len() == srt_fragments@.len(),
        forall|i: int| 0 <= i < out@.len() ==> #[trigger] out@[i]@ == (FragmentView {
            lines: srt_fragments@[i]@.lines.push(translations@[i]@),
            ..srt_fragments@[i]@
        }),
{
    let mut out: Vec<SRTFragment> = Vec::new();
    let n = srt_fragments.len();
    let mut i: usize = 0;
    while i < n
        invariant
            i <= n == srt_fragments@.len() == translations@.len(),
            out@.len() == i,
            forall|j: int| 0 <= j < i ==> #[trigger] out@[j]@ == (FragmentView {
                lines: srt_fragments@[j]@.lines.push(translations@[j]@),
                ..srt_fragments@[j]@
            }),
        decreases n - i,
    {
        let f = translated_fragment(&srt_fragments[i], translations[i].clone());
        out.push(f);
        i = i + 1;
    }
    out
}

/// The system prompt names the input language right after its opening and the
/// output language right after ` to `, then gives the rules, and ends with the
/// extra context and its closing, whatever the languages and the extra context
/// are (an empty extra context too): the prompts for two extra contexts agree up
/// to where the extra context starts.
pub proof fn law_prompt_names_languages_in_order(
    input_language: Seq<char>,
    output_language: Seq<char>,
    extra_context: Seq<char>,
    other_context: Seq<char>,
)
    ensures
        ({
            let p = system_prompt_text(input_language, output_language, extra_context);
            let a = PROMPT_OPENING@.len() as int;
            let b = a + input_language.len();
            let c = b + PROMPT_TO@.len();
            let d = c + output_language.len();
            let e = d + PROMPT_RULES@.len();
            &&& p.len() == e + extra_context.len() + PROMPT_CLOSING@.len()
            &&& p.subrange(0, a) == PROMPT_OPENING@
            &&& p.subrange(a, b) == input_language
            &&& p.subrange(b, c) == PROMPT_TO@
            &&& p.subrange(c, d) == output_language
            &&& p.subrange(d, e) == PROMPT_RULES@
            &&& p.subrange(e, e + extra_context.len()) == extra_context
            &&& p.subrange(e + extra_context.len(), p.len() as int) == PROMPT_CLOSING@
            &&& p.take(e) == system_prompt_text(input_language, output_language, other_context).take(e)
        }),
{
    let p = system_prompt_text(input_language, output_language, extra_context);
    let q = system_prompt_text(input_language, output_language, other_context);
    let a = PROMPT_OPENING@.len() as int;
    let b = a + input_language.len();
    let c = b + PROMPT_TO@.len();
    let d = c + output_language.len();
    let e = d + PROMPT_RULES@.len();
    let head = PROMPT_OPENING@ + input_language + PROMPT_TO@ + output_language + PROMPT_RULES@;
    assert(p =~= head + extra_context + PROMPT_CLOSING@);
    assert(q =~= head + other_context + PROMPT_CLOSING@);
    assert(p.subrange(0, a) =~= PROMPT_OPENING@);
    assert(p.subrange(a, b) =~= input_language);
    assert(p.subrange(b, c) =~= PROMPT_TO@);
    assert(p.subrange(c, d) =~= output_language);
    assert(p.subrange(d, e) =~= PROMPT_RULES@);
    assert(p.subrange(e, e + extra_context.len()) =~= extra_context);
    assert(p.subrange(e + extra_context.len(), p.len() as int) =~= PROMPT_CLOSING@);
    assert(p.take(e) =~= head);
    assert(q.take(e) =~= head);
}

/// Digits read as nothing once a character that is not a digit comes.
proof fn lemma_parse_digits_non_digit(d: Seq<char>, acc: nat, max: nat, j: int)
    requires
        0 <= j < d.len(),
        !is_digit(d[j]),
    ensures
        parse_digits(d, acc, max) is Err,
    decreases d.len(),
{
    if is_digit(d[0]) && acc * 10 + crate::numbers::digit_value(d[0]) <= max {
        assert(d.drop_first()[j - 1] == d[j]);
        lemma_parse_digits_non_digit(d.drop_first(), acc * 10 + crate::numbers::digit_value(d[0]), max, j - 1);
    }
}

/// Text that starts with neither a digit nor `+` reads as no number.
proof fn lemma_no_number(r: Seq<char>, max: nat)
    requires
        r.len() >= 1,
        !is_digit(r[0]),
        r[0] != '+',
    ensures
        parse_uint(r, max) is Err,
{
    if !(r.len() == 1 && (r[0] == '+' || r[0] == '-')) {
        lemma_parse_digits_non_digit(r, 0, max, 0);
    }
}

/// Trimming the end of text that starts with no whitespace keeps its first character.
proof fn lemma_trim_end_keeps_first(x: Seq<char>)
    requires
        x.len() >= 1,
        !is_whitespace(x[0]),
    ensures
        trim_end(x).len() >= 1,
        trim_end(x)[0] == x[0],
    decreases x.len(),
{
    if x.len() >= 2 && is_whitespace(x.last()) {
        assert(x.drop_last()[0] == x[0]);
        lemma_trim_end_keeps_first(x.drop_last());
    }
}

/// The progress of a written file is the index of its last fragment: reading
/// the lines of a translated SRT file as `file_lines` writes them, the index
/// line of the last fragment is the last line that reads as a 16-bit number,
/// for every index up to 65535, wherever that fragment's text does not itself
/// start like a number (with a digit, `+` or whitespace).
pub proof fn law_progress_is_last_index(fs: Seq<FragmentView>)
    requires
        fs.len() >= 1,
        fs.last().index <= u16::MAX,
        flattened(fs.last()).len() >= 1,
        !is_digit(flattened(fs.last())[0]),
        !is_whitespace(flattened(fs.last())[0]),
        flattened(fs.last())[0] != '+',
    ensures
        translated_progress(file_lines(fs)) == fs.last().index as nat,
{
    let f = fs.last();
    let fl = fragment_lines(f);
    let l0 = file_lines(fs.drop_last());
    let l1 = l0.push(fl[0]);
    let l2 = l1.push(fl[1]);
    let l3 = l2.push(fl[2]);
    let l4 = l3.push(fl[3]);
    assert(file_lines(fs) =~= l4);
    assert(l4.drop_last() =~= l3);
    assert(l3.drop_last() =~= l2);
    assert(l2.drop_last() =~= l1);
    assert(l1.drop_last() =~= l0);
    // the empty line
    let e = seq!['\n'];
    assert(e.drop_first() =~= Seq::<char>::empty());
    assert(('\n' as u32) == 10);
    assert(is_whitespace(e[0]));
    assert(trim_start(Seq::<char>::empty()) == Seq::<char>::empty());
    assert(trim_start(e) == Seq::<char>::empty());
    assert(trim(fl[3]) == Seq::<char>::empty());
    assert(parse_uint(trim(fl[3]), u16::MAX as nat) is Err);
    // the text line
    let x = flattened(f);
    assert(fl[2] =~= x.push('\n'));
    assert(x.push('\n')[0] == x[0]);
    assert(trim_start(x.push('\n')) == x.push('\n'));
    assert(x.push('\n').drop_last() =~= x);
    assert(trim_end(x.push('\n')) == trim_end(x));
    lemma_trim_end_keeps_first(x);
    lemma_no_number(trim(fl[2]), u16::MAX as nat);
    // the timing line
    let tt = timing_text(f.timing);
    let a = timestamp_text(f.timing.0);
    let b = timestamp_text(f.timing.1);
    lemma_timestamp_text_chars(f.timing.0);
    lemma_timestamp_text_chars(f.timing.1);
    reveal_strlit(" --> ");
    assert(tt =~= a + seq![' ', '-', '-', '>', ' '] + b);
    assert(tt[0] == a[0]);
    assert(tt.last() == b.last());
    crate::srt_ops::lemma_trim_newline(tt);
    assert(fl[1] =~= tt.push('\n'));
    assert(tt[a.len() as int] == ' ');
    lemma_parse_digits_non_digit(tt, 0, u16::MAX as nat, a.len() as int);
    assert(parse_uint(trim(fl[1]), u16::MAX as nat) is Err);
    // the index line
    let d = decimal(f.index as nat);
    lemma_decimal_digits(f.index as nat);
    assert(is_digit(d[0]));
    assert(is_digit(d.last()));
    crate::srt_ops::lemma_trim_newline(d);
    assert(fl[0] =~= d.push('\n'));
    law_decimal_reads_back(f.index as nat, u16::MAX as nat);
    assert(translated_progress(l1) == f.index as nat);
    assert(translated_progress(l2) == translated_progress(l1));
    assert(translated_progress(l3) == translated_progress(l2));
    assert(translated_progress(l4) == translated_progress(l3));
}

} // verus!
