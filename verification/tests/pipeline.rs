use dubai::cli::{default_output_srt_path, parse_url_address, resolve_extra_context, resolve_llm_address, resolve_max_tokens, setup_dubber_cli, DubberCLI, ParseURLError};
use dubai::config::DubberConfig;
use dubai::dub::{create_voice_references, dub_jobs, dubbed_output_names, DubError};
use dubai::duration::Duration;
use dubai::mix::{calculate_duration_ratio, calculate_subtitle_duration, clock_duration_outcome, convert_string_to_duration};
use dubai::srt_ops::{SRTFragment, SRTTiming};
use dubai::translate::{get_translated_srt_progress, system_prompt, translated_fragment, translated_fragments, translation_from_response, user_prompt};
use std::collections::HashMap;
use std::path::PathBuf;

fn fragment(index: usize, start: u64, end: u64, lines: &[&str]) -> SRTFragment {
    SRTFragment {
        index,
        timing: SRTTiming { start: Duration::new(start, 0), end: Duration::new(end, 0) },
        subtitle_lines: lines.iter().map(|s| s.to_string()).collect(),
    }
}

#[test]
fn url_address_splits_at_last_colon() {
    assert_eq!(parse_url_address("http://localhost:5001").unwrap(), ("http://localhost".to_string(), 5001));
    assert_eq!(parse_url_address(":0").unwrap(), ("".to_string(), 0));
    assert_eq!(parse_url_address("host:+80").unwrap(), ("host".to_string(), 80));
}

#[test]
fn url_address_errors() {
    assert!(matches!(parse_url_address("localhost"), Err(ParseURLError::Unparseable)));
    assert!(matches!(parse_url_address(""), Err(ParseURLError::Unparseable)));
    assert!(matches!(parse_url_address("host:"), Err(ParseURLError::CantReadPort)));
    assert!(matches!(parse_url_address("host:port"), Err(ParseURLError::CantReadPort)));
    assert!(matches!(parse_url_address("host:4294967296"), Err(ParseURLError::CantReadPort)));
}

#[test]
fn url_address_round_trip() {
    for (host, port) in [("a", 1u32), ("http://x:y", 4294967295), ("", 65535)] {
        let address = format!("{}:{}", host, port);
        assert_eq!(parse_url_address(&address).unwrap(), (host.to_string(), port));
    }
}

#[test]
fn defaults() {
    assert_eq!(resolve_llm_address(None), "http://localhost:5001");
    assert_eq!(resolve_llm_address(Some("x:1".to_string())), "x:1");
    assert_eq!(resolve_max_tokens(None), 255);
    assert_eq!(resolve_max_tokens(Some(9)), 9);
    assert_eq!(resolve_extra_context(None), "");
    assert_eq!(resolve_extra_context(Some("be brief".to_string())), "be brief");
}

fn options(address: Option<&str>) -> DubberCLI {
    DubberCLI {
        address: address.map(|s| s.to_string()),
        model: PathBuf::from("model.gguf"),
        wavtokenizer: PathBuf::from("wt.gguf"),
        input_audio: PathBuf::from("in.mp3"),
        output_folder: PathBuf::from("out"),
        input_srt: PathBuf::from("in.srt"),
        voice_refs_dir: PathBuf::from("refs"),
        output_language: Some("English".to_string()),
    }
}

#[test]
fn dubber_setup_needs_folders() {
    assert!(matches!(setup_dubber_cli(options(None), false, true), Err(DubError::FolderRequired)));
    assert!(matches!(setup_dubber_cli(options(None), true, false), Err(DubError::FolderRequired)));
    let c: DubberConfig = setup_dubber_cli(options(None), true, true).unwrap();
    assert_eq!(c.llm_address, "http://localhost:5001");
    assert_eq!(c.output_folder, PathBuf::from("out"));
    assert_eq!(c.voice_refs_dir, PathBuf::from("refs"));
    assert_eq!(c.output_language, "English");
    let c = setup_dubber_cli(options(Some("h:9")), true, true).unwrap();
    assert_eq!(c.llm_address, "h:9");
    assert_eq!(c.model, PathBuf::from("model.gguf"));
}

#[test]
fn voice_references_and_commands() {
    let frags = vec![fragment(3, 1, 2, &["a"]), fragment(10, 5, 7, &["b"])];
    let refs = create_voice_references(&frags, "audio.mp3", "refs/");
    assert_eq!(refs.references.len(), 2);
    assert_eq!(refs.references[&3], "3_ref.wav");
    assert_eq!(refs.references[&10], "10_ref.wav");
    assert_eq!(refs.jobs.len(), 2);
    assert_eq!(refs.jobs[1].index, 10);
    assert_eq!(refs.jobs[1].output_path, "refs/10_ref.wav");
    let args: Vec<String> = refs.jobs[1].command.get_args().map(|a| a.to_string_lossy().to_string()).collect();
    assert_eq!(
        args,
        vec!["-loglevel", "level+info", "-i", "audio.mp3", "-c:a", "mp3", "-b:a", "320k", "-ss", "00:00:05.000", "-to", "00:00:07.000", "refs/10_ref.wav"]
    );
}

#[test]
fn repeated_index_keeps_one_reference() {
    let frags = vec![fragment(1, 1, 2, &["a"]), fragment(1, 3, 4, &["b"])];
    let refs = create_voice_references(&frags, "a.mp3", "");
    assert_eq!(refs.references.len(), 1);
    assert_eq!(refs.jobs.len(), 2);
    assert_eq!(refs.jobs[0].output_path, "1_ref.wav");
}

#[test]
fn dub_jobs_fall_back_to_random() {
    let frags = vec![fragment(1, 1, 2, &["Hi", "you"]), fragment(2, 3, 4, &["Bye"])];
    let mut refs = HashMap::new();
    refs.insert(1usize, "1_ref.wav".to_string());
    let jobs = dub_jobs(&frags, &refs);
    assert_eq!(jobs.len(), 2);
    assert_eq!(jobs[0].line, "Hi you");
    assert_eq!(jobs[0].voice_ref, "1_ref.wav");
    assert_eq!(jobs[1].voice_ref, "random");
}

#[test]
fn dubbed_names() {
    let n = dubbed_output_names("out", "12_ref.wav");
    assert_eq!(n.voice_ref_idx, "12");
    assert_eq!(n.output_filename, "out12_dubbed.mp3");
    assert_eq!(n.dubbed_file_path, "out/12_dubbed.mp3");
    let n = dubbed_output_names("out/", "12_ref.wav");
    assert_eq!(n.output_filename, "out/12_dubbed.mp3");
    assert_eq!(n.dubbed_file_path, "out/12_dubbed.mp3");
    let n = dubbed_output_names("out/", "a_ref.wav_ref.wav");
    assert_eq!(n.voice_ref_idx, "a");
    assert_eq!(n.dubbed_file_path, "out/a_dubbed.mp3");
    let n = dubbed_output_names("", "random");
    assert_eq!(n.output_filename, "random_dubbed.mp3");
    assert_eq!(n.dubbed_file_path, "random_dubbed.mp3");
    assert_eq!("a_ref.wav_ref.wav".trim_end_matches("_ref.wav"), "a");
}

#[test]
fn paths_match_std() {
    for (base, reference) in [("out", "1_ref.wav"), ("out/", "x"), ("", "y"), ("a/b", "/abs_ref.wav"), ("a", "")] {
        let n = dubbed_output_names(base, reference);
        let name = format!("{}_dubbed.mp3", n.voice_ref_idx);
        assert_eq!(n.output_filename, format!("{}{}", base, name));
        let expected = std::path::Path::new(base).join(&name).to_string_lossy().into_owned();
        assert_eq!(n.dubbed_file_path, expected);
    }
    let cases = [
        ("in.srt", "in.srt.srt"), ("dir/film", "dir/film.srt"), ("a.tar.gz", "a.tar.gz.srt"),
        ("dir/", "dir.srt"), ("/", "/"), ("x/..", "x/.."), ("", ""), ("a/.", "a.srt"),
        ("subs/movie.srt/", "subs/movie.srt.srt"), ("movie.srt/.", "movie.srt.srt"), (".", "."),
        ("./.", "./."), ("a//.//", "a.srt"), ("/a", "/a.srt"), ("a/b.", "a/b..srt"), ("..", ".."),
    ];
    for (input, expected) in cases {
        let std_result = std::path::Path::new(input).with_added_extension("srt").to_string_lossy().into_owned();
        assert_eq!(std_result, expected, "std on {:?}", input);
        assert_eq!(default_output_srt_path(input), expected, "ours on {:?}", input);
    }
    assert_eq!(default_output_srt_path("in.srt"), "in.srt.srt");
}

#[test]
fn reference_names_lead_to_dubbed_names() {
    let frags = vec![fragment(42, 1, 2, &["a"])];
    let refs = create_voice_references(&frags, "a.mp3", "refs/");
    let n = dubbed_output_names("dub", &refs.references[&42]);
    assert_eq!(n.voice_ref_idx, "42");
    assert_eq!(n.dubbed_file_path, "dub/42_dubbed.mp3");
}

#[test]
fn prompts() {
    let (input_language, output_language, extra_context) = ("Spanish", "English", "keep names");
    let expected = format!(
        "
        You are an AI translator, translating lines from a an SRT file in {input_language} to {output_language}.
        Your response will include only the translated text, only in the requested language. Nothing more.
        Only quote stuff when characters (or something) explain a thing, use single quotes,
        like this: \" Translated text 'example'\"
        Only give 1 translation answer.
        Follow this to the letter.
        Follow this extra directives too: {extra_context}.
        "
    );
    assert_eq!(system_prompt(input_language, output_language, extra_context), expected);
    let line = "Hola";
    assert_eq!(user_prompt(line), format!("This is the line that you have to translate: {line}"));
}

#[test]
fn translations() {
    assert_eq!(translation_from_response("  Hello there \n"), "Hello there");
    assert_eq!(translation_from_response("\u{3000}x\u{a0}"), "x");
    let f = fragment(5, 1, 2, &["Hola\n"]);
    let t = translated_fragment(&f, "Hello".to_string());
    assert_eq!(t.index, 5);
    assert_eq!(t.timing, f.timing);
    assert_eq!(t.subtitle_lines, vec!["Hola\n".to_string(), "Hello".to_string()]);
    let all = translated_fragments(&vec![f.clone(), fragment(6, 2, 3, &["Adiós"])], &vec!["Hello".to_string(), "Bye".to_string()]);
    assert_eq!(all.len(), 2);
    assert_eq!(all[1].subtitle_lines, vec!["Adiós".to_string(), "Bye".to_string()]);
}

#[test]
fn translated_progress() {
    let l = |v: &[&str]| v.iter().map(|s| s.to_string()).collect::<Vec<String>>();
    assert_eq!(get_translated_srt_progress(&l(&[])), 0);
    assert_eq!(get_translated_srt_progress(&l(&["5\n", "text\n"])), 5);
    assert_eq!(get_translated_srt_progress(&l(&["1\n", "00:00:01,000 --> 00:00:02,000\n", "Hola\n", "\n", "2\n", "00:00:03,000 --> 00:00:04,000\n", "Adios\n", "\n"])), 2);
    assert_eq!(get_translated_srt_progress(&l(&["5", "text\n", "7", "x"])), 7);
    assert_eq!(get_translated_srt_progress(&l(&["65536"])), 0);
}

#[test]
fn clock_readings() {
    let d = convert_string_to_duration("0:01:02.500000\n".to_string());
    assert_eq!(d.as_secs(), 62);
    assert_eq!(d.subsec_nanos(), 500_000_000);
    let d = convert_string_to_duration("1:00:00.000001.99".to_string());
    assert_eq!(d.as_secs(), 3600);
    assert_eq!(d.subsec_nanos(), 1000);
    assert!(clock_duration_outcome("1:02").is_none());
    assert!(clock_duration_outcome("a:0:0.0").is_none());
    assert!(clock_duration_outcome("0:0:0.5000000").is_none());
}

#[test]
fn subtitle_durations() {
    let d = calculate_subtitle_duration(Duration::new(1, 500), Duration::new(3, 100));
    assert_eq!(d.as_secs(), 1);
    assert_eq!(d.subsec_nanos(), 999_999_600);
    let f = fragment(1, 4, 10, &["x"]);
    let r = calculate_duration_ratio(&f, &"dub.mp3".to_string());
    assert_eq!(r.as_secs(), 6);
}
