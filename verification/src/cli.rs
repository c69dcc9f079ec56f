//! What the command line gives, and how it becomes settings.

use vstd::prelude::*;
use std::path::PathBuf;
use crate::config::DubberConfig;
use crate::dub::DubError;
use crate::numbers::{parse_uint, parse_uint_chars, decimal, lemma_decimal_digits, law_decimal_reads_back};
use crate::text::{chars_of, string_of};

verus! {

/// The dubbing options of the command line.
pub struct DubberCLI {
    /// URL address of the LLM.
    pub address: Option<String>,
    /// Model to use for dubbing.
    pub model: PathBuf,
    /// Wavtokenizer to use for dubbing.
    pub wavtokenizer: PathBuf,
    /// Input audio file to use for dubbing.
    pub input_audio: PathBuf,
    /// Output audio folder to store the dubbed files in.
    pub output_folder: PathBuf,
    /// Input SRT file to use for dubbing.
    pub input_srt: PathBuf,
    /// Directory where the voice references are.
    pub voice_refs_dir: PathBuf,
    /// Language to dub to.
    pub output_language: Option<String>,
}

/// Why an address did not split into host and port.
#[derive(Clone, Copy, Debug, PartialEq, Eq, Structural)]
pub enum ParseURLError {
    /// The text after the last `:` is not a port number.
    CantReadPort,
    /// The address has no `:`.
    Unparseable,
}

/// The position of the last `:` in `s`, or -1.
pub open spec fn last_colon(s: Seq<char>) -> int
    decreases s.len(),
{
    if s.len() == 0 {
        -1
    } else if s.last() == ':' {
        s.len() - 1
    } else {
        last_colon(s.drop_last())
    }
}

/// `last_colon` lies within the text.
pub proof fn lemma_last_colon_bounds(s: Seq<char>)
    ensures
        -1 <= last_colon(s) < s.len(),
        last_colon(s) >= 0 ==> s[last_colon(s)] == ':',
        forall|j: int| last_colon(s) < j < s.len() ==> #[trigger] s[j] != ':',
    decreases s.len(),
{
    if s.len() > 0 && s.last() != ':' {
        lemma_last_colon_bounds(s.drop_last());
        assert forall|j: int| last_colon(s) < j < s.len() implies #[trigger] s[j] != ':' by {
            if j < s.len() - 1 {
                assert(s.drop_last()[j] == s[j]);
            }
        }
    }
}

/// The host and port of `address`: what comes before its last `:`, and what comes
/// after it read as a 32-bit port number.
pub open spec fn url_parts(address: Seq<char>) -> Result<(Seq<char>, nat), ParseURLError> {
    let k = last_colon(address);
    if k < 0 {
        Err(ParseURLError::Unparseable)
    } else {
        match parse_uint(address.skip(k + 1), u32::MAX as nat) {
            Ok(port) => Ok((address.take(k), port)),
            Err(_) => Err(ParseURLError::CantReadPort),
        }
    }
}

/// Splits an address such as `http://localhost:5001` into its host
/// (`http://localhost`) and its port (5001), at its last `:`.
pub fn parse_url_address(address: &str) -> (r: Result<(String, u32), ParseURLError>)
    ensures
        match r {
            Ok((host, port)) => url_parts(address@) == Ok::<(Seq<char>, nat), ParseURLError>((host@, port as nat)),
            Err(e) => url_parts(address@) == Err::<(Seq<char>, nat), ParseURLError>(e),
        },
{
    let v = chars_of(address);
    proof {
        lemma_last_colon_bounds(v@);
    }
    let mut i = v.len();
    assert(v@.take(i as int) =~= v@);
    while i > 0 && v[i - 1] != ':'
        invariant
            i <= v@.len(),
            last_colon(v@) == last_colon(v@.take(i as int)),
        decreases i,
    {
        assert(v@.take(i as int).drop_last() =~= v@.take(i - 1));
        i = i - 1;
    }
    assert(v@.take(v@.len() as int) =~= v@);
    if i == 0 {
        assert(last_colon(v@.take(0)) == -1);
        return Err(ParseURLError::Unparseable);
    }
    let k = i - 1;
    assert(last_colon(v@) == k);
    assert(v@.skip(k + 1) =~= v@.subrange(k + 1, v@.len() as int));
    match parse_uint_chars(&v, k + 1, v.len(), 0xffff_ffffu64) {
        Ok(port) => {
            let host = string_of(&v, 0, k);
            assert(v@.subrange(0, k as int) =~= v@.take(k as int));
            Ok((host, port as u32))
        },
        Err(_) => Err(ParseURLError::CantReadPort),
    }
}

/// The path `path` with `.extension` added to its file name, as
/// `Path::with_added_extension` gives it.
pub uninterp spec fn added_extension(path: Seq<char>, extension: Seq<char>) -> Seq<char>;

/// `path` without what follows its last component on Unix: trailing `/`, and
/// trailing `.` components (`a/b/./` ends in `a/b`).
pub open spec fn trim_path_end(path: Seq<char>) -> Seq<char>
    decreases path.len(),
{
    if path.len() > 0 && path.last() == '/' {
        trim_path_end(path.drop_last())
    } else if path.len() >= 2 && path.last() == '.' && path[path.len() - 2] == '/' {
        trim_path_end(path.drop_last())
    } else {
        path
    }
}

/// The position of the last `/` in `s`, or -1.
pub open spec fn last_slash(s: Seq<char>) -> int
    decreases s.len(),
{
    if s.len() == 0 {
        -1
    } else if s.last() == '/' {
        s.len() - 1
    } else {
        last_slash(s.drop_last())
    }
}

/// The last component of `path` on Unix, after trailing `/` and `.` components
/// are set aside.
pub open spec fn last_component(path: Seq<char>) -> Seq<char> {
    let t = trim_path_end(path);
    t.subrange(last_slash(t) + 1, t.len() as int)
}

/// Whether `path` has a file name on Unix (`Path::file_name` is `Some`): its last
/// component is neither empty (an empty path, or the root), nor `.`, nor `..`.
pub open spec fn has_file_name(path: Seq<char>) -> bool {
    let c = last_component(path);
    c.len() > 0 && c != seq!['.'] && c != seq!['.', '.']
}

/// `Path::with_added_extension`: `Path::new(path).with_added_extension(extension)`,
/// written back as text. Its documentation and that of `PathBuf::add_extension`
/// and `Path::file_name` say: an extension that holds a separator makes it panic
/// (hence the `requires`); a path without a file name (empty, the root, or ending
/// in `..`) is left as it is; otherwise `.` and the extension are put after the
/// file name, which ends the path once trailing `/` and `.` components are set
/// aside (`foo.txt/.` has the file name `foo.txt`; `foo.tar.gz` gives
/// `foo.tar.gz.xz`). These rules are Unix ones, with `/` as the only separator.
/// For an empty extension the result is only named.
#[verifier::external_body]
fn path_with_added_extension(path: &str, extension: &str) -> (p: String)
    requires
        forall|i: int| 0 <= i < extension@.len() ==> #[trigger] extension@[i] != '/',
    ensures
        p@ == added_extension(path@, extension@),
        !has_file_name(path@) ==> p@ == path@,
        has_file_name(path@) && extension@.len() > 0 ==> p@ == trim_path_end(path@) + seq!['.'] + extension@,
{
    std::path::Path::new(path).with_added_extension(extension).to_string_lossy().into_owned()
}

/// What `trim_path_end` takes off ends in `/` or `.`.
proof fn lemma_trim_path_end_last(path: Seq<char>)
    ensures
        trim_path_end(path).len() <= path.len(),
        trim_path_end(path) != path ==> path.len() > 0 && (path.last() == '/' || path.last() == '.'),
    decreases path.len(),
{
    if path.len() > 0 && path.last() == '/' {
        lemma_trim_path_end_last(path.drop_last());
    } else if path.len() >= 2 && path.last() == '.' && path[path.len() - 2] == '/' {
        lemma_trim_path_end_last(path.drop_last());
    }
}

/// The extension of SRT files.
pub const SRT_EXTENSION: &'static str = "srt";

/// Where the translated subtitles go when no output file is given: the input
/// path with `.srt` added to its file name (after trailing `/` and `.`
/// components are set aside). Where the input has a file name, the result is
/// never the input path itself; where it has none, the input is given back.
pub fn default_output_srt_path(input_srt_path: &str) -> (p: String)
    ensures
        p@ == added_extension(input_srt_path@, SRT_EXTENSION@),
        !has_file_name(input_srt_path@) ==> p@ == input_srt_path@,
        has_file_name(input_srt_path@) ==> p@ == trim_path_end(input_srt_path@) + seq!['.', 's', 'r', 't'],
        has_file_name(input_srt_path@) ==> p@ != input_srt_path@,
{
    proof {
        reveal_strlit("srt");
    }
    assert(SRT_EXTENSION@ =~= seq!['s', 'r', 't']);
    let p = path_with_added_extension(input_srt_path, SRT_EXTENSION);
    proof {
        lemma_trim_path_end_last(input_srt_path@);
        if has_file_name(input_srt_path@) {
            let t = trim_path_end(input_srt_path@);
            assert(p@.len() == t.len() + 4);
            assert(p@.last() == 't');
            if t == input_srt_path@ {
                assert(p@.len() != input_srt_path@.len());
            }
        }
    }
    p
}

/// The address of the LLM used where none is given.
pub const DEFAULT_LLM_ADDRESS: &'static str = "http://localhost:5001";

/// The LLM address to use: the one given, else `DEFAULT_LLM_ADDRESS`.
pub fn resolve_llm_address(address: Option<String>) -> (a: String)
    ensures
        a@ == match address {
            Some(given) => given@,
            None => DEFAULT_LLM_ADDRESS@,
        },
{
    match address {
        Some(given) => given,
        None => String::from_str(DEFAULT_LLM_ADDRESS),
    }
}

/// The most tokens the translator may answer with, where none is given.
pub const DEFAULT_MAX_TOKENS: u16 = 255;

/// The translator's token limit: the one given, else `DEFAULT_MAX_TOKENS`.
pub fn resolve_max_tokens(max_tokens: Option<u16>) -> (n: u16)
    ensures
        n == match max_tokens {
            Some(given) => given,
            None => DEFAULT_MAX_TOKENS,
        },
{
    match max_tokens {
        Some(given) => given,
        None => DEFAULT_MAX_TOKENS,
    }
}

/// The extra context for the translator: the one given, else none at all.
pub fn resolve_extra_context(extra_context: Option<String>) -> (c: String)
    ensures
        c@ == match extra_context {
            Some(given) => given@,
            None => Seq::<char>::empty(),
        },
{
    match extra_context {
        Some(given) => given,
        None => String::new(),
    }
}

/// The dubber's settings from the command line. `output_folder_is_dir` and
/// `voice_refs_dir_is_dir` say whether those two paths name directories; where
/// either does not, the settings are refused.
pub fn setup_dubber_cli(
    options: DubberCLI,
    output_folder_is_dir: bool,
    voice_refs_dir_is_dir: bool,
) -> (r: Result<DubberConfig, DubError>)
    requires
        output_folder_is_dir && voice_refs_dir_is_dir ==> options.output_language is Some,
    ensures
        r is Ok <==> output_folder_is_dir && voice_refs_dir_is_dir,
        r matches Err(e) ==> e == DubError::FolderRequired,
        r matches Ok(c) ==> {
            &&& c.llm_address@ == match options.address {
                Some(given) => given@,
                None => DEFAULT_LLM_ADDRESS@,
            }
            &&& c.model == options.model
            &&& c.wavtokenizer == options.wavtokenizer
            &&& c.input_audio == options.input_audio
            &&& c.input_srt == options.input_srt
            &&& c.voice_refs_dir == options.voice_refs_dir
            &&& c.output_language@ == options.output_language->0@
            &&& c.output_folder == options.output_folder
        },
{
    let llm_address = resolve_llm_address(options.address);
    if !output_folder_is_dir {
        return Err(DubError::FolderRequired);
    }
    if !voice_refs_dir_is_dir {
        return Err(DubError::FolderRequired);
    }
    let output_language = match options.output_language {
        Some(language) => language,
        None => String::new(),
    };
    Ok(DubberConfig::new(
        llm_address,
        options.model,
        options.wavtokenizer,
        options.input_audio,
        options.input_srt,
        options.voice_refs_dir,
        output_language,
        options.output_folder,
    ))
}


/// An address made of a host, `:` and a port number splits back into that host
/// and port, whatever the host holds.
pub proof fn law_url_parts_of_host_and_port(host: Seq<char>, port: nat)
    requires
        port <= u32::MAX,
    ensures
        url_parts(host + seq![':'] + decimal(port)) == Ok::<(Seq<char>, nat), ParseURLError>((host, port)),
{
    let a = host + seq![':'] + decimal(port);
    lemma_decimal_digits(port);
    law_decimal_reads_back(port, u32::MAX as nat);
    lemma_last_colon_suffix(a, host.len() as int);
    assert(a.skip(host.len() as int + 1) =~= decimal(port));
    assert(a.take(host.len() as int) =~= host);
}

/// Where `s` holds `:` at `k` and no `:` after it, its last `:` is at `k`.
proof fn lemma_last_colon_suffix(s: Seq<char>, k: int)
    requires
        0 <= k < s.len(),
        s[k] == ':',
        forall|j: int| k < j < s.len() ==> s[j] != ':',
    ensures
        last_colon(s) == k,
    decreases s.len(),
{
    if s.len() - 1 > k {
        assert(s.drop_last()[k] == ':');
        assert forall|j: int| k < j < s.drop_last().len() implies s.drop_last()[j] != ':' by {
            assert(s.drop_last()[j] == s[j]);
        }
        lemma_last_colon_suffix(s.drop_last(), k);
    }
}

} // verus!
