use dubai::duration::Duration;
use dubai::numbers::IntErrorKind;
use dubai::srt_ops::{parse_srt_timing, parse_srt_timing_checked, SRTError, SRTFile, SRTFragment, SRTTiming, SrtParser};
use std::path::PathBuf;

fn lines(text: &[&str]) -> Vec<String> {
    text.iter().map(|s| s.to_string()).collect()
}

#[test]
fn timing_with_colon_fields() {
    let t = parse_srt_timing("1:2:3 --> 4:5:6", &7).unwrap();
    assert_eq!(t.start.as_secs(), 62);
    assert_eq!(t.start.subsec_nanos(), 3_000_000);
    assert_eq!(t.end.as_secs(), 245);
    assert_eq!(t.end.subsec_nanos(), 6_000_000);
}

#[test]
fn standard_timing_line() {
    let t = parse_srt_timing("00:00:01,000 --> 00:00:02,500", &1).unwrap();
    assert_eq!(t, SRTTiming { start: Duration::new(1, 0), end: Duration::new(2, 500_000_000) });
    let t = parse_srt_timing("01:02:03,400 --> 01:02:04,000", &1).unwrap();
    assert_eq!(t.start, Duration::new(3723, 400_000_000));
}

#[test]
fn timing_reads_back() {
    for (a, b) in [(0u64, 0u32), (1, 0), (3723, 400_000_000), (359999, 999_000_000), (360000, 7_000_000)] {
        let t = SRTTiming { start: Duration::new(a, b), end: Duration::new(a + 1, 0) };
        assert_eq!(parse_srt_timing(&t.to_string(), &1).unwrap(), t);
    }
    let t = SRTTiming { start: Duration::new(1, 1_999_999), end: Duration::new(2, 0) };
    assert_eq!(parse_srt_timing(&t.to_string(), &1).unwrap().start, Duration::new(1, 1_000_000));
}

#[test]
fn timing_without_arrow_does_not_read() {
    assert!(matches!(parse_srt_timing("1:2:3 - 4:5:6", &1), Err(SRTError::TimingsParseError { index: 1 })));
    assert!(matches!(parse_srt_timing("1:2:x --> 1", &2), Err(SRTError::TimingsParseError { index: 2 })));
}

#[test]
fn timing_takes_first_arrow() {
    let r = parse_srt_timing("5 --> 6 --> 7", &1);
    assert!(matches!(r, Err(SRTError::TimingsParseError { index: 1 })));
    let t = parse_srt_timing("  9  -->  2:8 ", &1).unwrap();
    assert_eq!(t.start.as_secs(), 0);
    assert_eq!(t.start.subsec_nanos(), 9_000_000);
    assert_eq!(t.end.as_secs(), 2);
    assert_eq!(t.end.subsec_nanos(), 8_000_000);
}

#[test]
fn timing_milliseconds_carry() {
    let t = parse_srt_timing("1:1500 --> 0", &1).unwrap();
    assert_eq!(t.start.as_secs(), 2);
    assert_eq!(t.start.subsec_nanos(), 500_000_000);
    let t = parse_srt_timing("0:4294967295 --> 0", &1).unwrap();
    assert_eq!(t.start.as_secs(), 4294967);
    assert_eq!(t.start.subsec_nanos(), 295_000_000);
    assert!(matches!(parse_srt_timing("0:4294967296 --> 0", &1), Err(SRTError::TimingsParseError { index: 1 })));
}

#[test]
fn default_timing_is_empty() {
    assert!(SRTTiming::default().empty());
    let t = SRTTiming { start: Duration::zero(), end: Duration::new(0, 1) };
    assert!(!t.empty());
}

#[test]
fn timing_to_string() {
    let t = SRTTiming { start: Duration::new(1, 0), end: Duration::new(2, 500_000_000) };
    assert_eq!(t.to_string(), "00:00:01,000 --> 00:00:02,500");
}

#[test]
fn parser_reads_fragments() {
    let input = lines(&["1\n", "0:1 --> 0:2\n", "Hello\n", "there\n", "\n", " 2 \n", "3 --> 4\n", "Bye\n", "\n", "3\n", "5 --> 6\n", "unfinished\n"]);
    let frags = SRTFile::get_srt_fragments(&input).unwrap();
    assert_eq!(frags.len(), 2);
    assert_eq!(frags[0].index, 1);
    assert_eq!(frags[0].timing.start.subsec_nanos(), 1_000_000);
    assert_eq!(frags[0].subtitle_lines, vec!["Hello\n".to_string(), "there\n".to_string()]);
    assert_eq!(frags[0].get_flattened_lines(), "Hello there");
    assert_eq!(frags[1].index, 2);
    assert_eq!(frags[1].subtitle_lines, vec!["Bye\n".to_string()]);
}

#[test]
fn parser_streams_the_same() {
    let input = lines(&["1\n", "0:1 --> 0:2\n", "Hello\n", "\n", "2\n", "3 --> 4\n", "Bye\n", "\n"]);
    let mut parser = SrtParser::new();
    for l in &input {
        assert!(parser.can_feed(l));
        parser.feed_line(l).unwrap();
    }
    let streamed = parser.finish();
    let batch = SRTFile::get_srt_fragments(&input).unwrap();
    assert_eq!(streamed.len(), batch.len());
    for (a, b) in streamed.iter().zip(batch.iter()) {
        assert_eq!(a.index, b.index);
        assert_eq!(a.subtitle_lines, b.subtitle_lines);
    }
}

#[test]
fn parser_index_errors() {
    let r = SRTFile::get_srt_fragments(&lines(&["x\n"]));
    assert!(matches!(r, Err(SRTError::IndexParseError(IntErrorKind::InvalidDigit))));
    let r = SRTFile::get_srt_fragments(&lines(&["1\n", "0:1 --> 0:2\n", "Hi\n", "\n", "\n"]));
    assert!(matches!(r, Err(SRTError::IndexParseError(IntErrorKind::Empty))));
    let r = SRTFile::get_srt_fragments(&lines(&["99999999999999999999999\n"]));
    assert!(matches!(r, Err(SRTError::IndexParseError(IntErrorKind::PosOverflow))));
}

#[test]
fn parser_timing_error_names_index() {
    let r = SRTFile::get_srt_fragments(&lines(&["4\n", "no arrow\n"]));
    assert!(matches!(r, Err(SRTError::TimingsParseError { index: 4 })));
}

#[test]
fn crlf_lines_never_complete_a_fragment() {
    let frags = SRTFile::get_srt_fragments(&lines(&["1\r\n", "0:1 --> 0:2\r\n", "Hi\r\n", "\r\n"])).unwrap();
    assert_eq!(frags.len(), 0);
}

#[test]
fn parser_refuses_what_cannot_be_read() {
    let mut p = SrtParser::new();
    p.feed_line("1\n").unwrap();
    p.feed_line("0:1 --> 0:2\n").unwrap();
    assert!(p.can_feed("\n"));
    assert!(matches!(p.feed_line("\n"), Err(SRTError::MalformedBlockError)));
    assert!(matches!(SRTFile::get_srt_fragments(&lines(&["1\n", "0:1 --> 0:2\n", "\n"])), Err(SRTError::MalformedBlockError)));
    let mut q = SrtParser::new();
    q.feed_line("1\n").unwrap();
    assert!(!q.can_feed("1:2:3:4:5 --> 1\n"));
    assert!(q.can_feed("1:2:3:4 --> 1\n"));
    assert!(!q.can_feed("9999999999999999999:0:0 --> 1\n"));
    assert!(q.can_feed("99999999999999999999:0:0 --> 1\n"));
    assert!(matches!(q.feed_line_checked("1:2:3:x --> 1\n"), Some(Err(SRTError::TimingsParseError { index: 1 }))));
}

#[test]
fn render_file() {
    let frag = SRTFragment {
        index: 7,
        timing: SRTTiming { start: Duration::new(1, 0), end: Duration::new(2, 0) },
        subtitle_lines: vec!["a".to_string(), "b".to_string()],
    };
    assert_eq!(frag.render(), "7\n00:00:01,000 --> 00:00:02,000\na b\n\n");
    let file = SRTFile::new(PathBuf::from("out.srt"), vec![frag.clone(), frag]);
    assert_eq!(file.filepath, PathBuf::from("out.srt"));
    assert_eq!(file.render(), "7\n00:00:01,000 --> 00:00:02,000\na b\n\n7\n00:00:01,000 --> 00:00:02,000\na b\n\n");
}

#[test]
fn error_messages() {
    assert_eq!(SRTError::TimingsParseError { index: 12 }.to_string(), "Failed to parse index at: 12 ");
    assert_eq!(SRTError::TimestampParseError.to_string(), "Failed to parse timestamp");
    assert_eq!(SRTError::MalformedBlockError.to_string(), "Malformed block");
    assert_eq!(SRTError::IoError("disk gone".to_string()).to_string(), "SRT IO Error: disk gone");
    let e = "x".parse::<usize>().unwrap_err();
    assert_eq!(SRTError::IndexParseError(IntErrorKind::InvalidDigit).to_string(), format!("Failed to parse the index, value: {e}"));
}

#[test]
fn flattened_lines_edge_cases() {
    let empty = SRTFragment { index: 1, timing: SRTTiming::default(), subtitle_lines: vec![] };
    assert_eq!(empty.get_flattened_lines(), "");
    let one = SRTFragment { index: 1, timing: SRTTiming::default(), subtitle_lines: vec!["only".to_string()] };
    assert_eq!(one.get_flattened_lines(), "only");
}

#[test]
fn first_error_ends_reading() {
    let r = SRTFile::get_srt_fragments(&lines(&["1\n", "bad timing\n", "2\n", "0:1 --> 0:2\n", "x\n", "\n"]));
    assert!(matches!(r, Err(SRTError::TimingsParseError { index: 1 })));
}

#[test]
fn standard_block() {
    let frags = SRTFile::get_srt_fragments(&lines(&["1\n", "00:00:01,000 --> 00:00:02,500\n", "Hello\n", "World\n", "\n"])).unwrap();
    assert_eq!(frags.len(), 1);
    assert_eq!(frags[0].index, 1);
    assert_eq!(frags[0].timing, SRTTiming { start: Duration::new(1, 0), end: Duration::new(2, 500_000_000) });
    assert_eq!(frags[0].subtitle_lines[0].trim_end(), "Hello");
    assert_eq!(frags[0].subtitle_lines[1].trim_end(), "World");
    assert_eq!(frags[0].get_flattened_lines(), "Hello World");
}

#[test]
fn written_file_reads_back() {
    let frags = vec![
        SRTFragment { index: 1, timing: SRTTiming { start: Duration::new(1, 0), end: Duration::new(2, 500_000_000) }, subtitle_lines: vec!["Hello".to_string(), "world".to_string()] },
        SRTFragment { index: 2, timing: SRTTiming { start: Duration::new(3723, 400_000_000), end: Duration::new(3724, 0) }, subtitle_lines: vec!["Bye\n".to_string()] },
    ];
    let text = SRTFile::new(PathBuf::from("x.srt"), frags.clone()).render();
    assert_eq!(text, "1\n00:00:01,000 --> 00:00:02,500\nHello world\n\n2\n01:02:03,400 --> 01:02:04,000\nBye\n\n");
    let read_lines: Vec<String> = text.split_inclusive('\n').map(|l| l.to_string()).collect();
    let back = SRTFile::get_srt_fragments(&read_lines).unwrap();
    assert_eq!(back.len(), 2);
    for (a, b) in frags.iter().zip(back.iter()) {
        assert_eq!(a.index, b.index);
        assert_eq!(a.timing, b.timing);
        assert_eq!(a.get_flattened_lines(), b.get_flattened_lines());
    }
}

#[test]
fn flattened_lines_drop_line_endings() {
    let f = SRTFragment { index: 1, timing: SRTTiming::default(), subtitle_lines: vec!["a\r\n".to_string(), "b\n".to_string(), "c".to_string()] };
    assert_eq!(f.get_flattened_lines(), "a b c");
}

#[test]
fn checked_timing_parse() {
    assert!(parse_srt_timing_checked("1:2:3:4:5 --> 0", &1).is_none());
    assert!(parse_srt_timing_checked("9999999999999999999:0:0 --> 0", &1).is_none());
    assert!(matches!(parse_srt_timing_checked("x --> 0", &4), Some(Err(SRTError::TimingsParseError { index: 4 }))));
    let t = parse_srt_timing_checked("00:00:01,000 --> 00:00:02,500", &1).unwrap().unwrap();
    assert_eq!(t, SRTTiming { start: Duration::new(1, 0), end: Duration::new(2, 500_000_000) });
}
