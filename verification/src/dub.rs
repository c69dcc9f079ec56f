//! Dubbing: cutting voice references out of the audio, and planning which line
//! is dubbed with which voice into which file.

use vstd::prelude::*;
use std::collections::HashMap;
use ffmpeg_sidecar::command::FfmpegCommand;
use crate::numbers::{decimal, decimal_string, is_digit, lemma_decimal_digits};
use crate::srt_ops::{SRTFragment, FragmentView, fragment_views, flattened};
use crate::timestamp::{clock_text, form_clock_text};

verus! {

/// Why dubbing could not start.
#[derive(Clone, Copy, Debug, PartialEq, Eq, Structural)]
pub enum DubError {
    /// A path that must name a directory does not.
    FolderRequired,
}

/// `ffmpeg_sidecar::command::FfmpegCommand`, a command line for the ffmpeg
/// program that is built up argument by argument and run later.
#[verifier::external_type_specification]
#[verifier::external_body]
pub struct ExFfmpegCommand(FfmpegCommand);

/// The arguments that a command passes to ffmpeg, in order.
pub uninterp spec fn ffmpeg_args(cmd: FfmpegCommand) -> Seq<Seq<char>>;

/// `FfmpegCommand::new`: a fresh ffmpeg command. Its source
/// (`new_with_path`, `set_expected_loglevel`) starts the argument list with
/// `-loglevel level+info`. The program it runs is the ffmpeg found next to the
/// running executable or else `ffmpeg` on the search path; that depends on the
/// machine and is not stated.
#[verifier::external_body]
fn ffmpeg_command_new() -> (cmd: FfmpegCommand)
    ensures
        ffmpeg_args(cmd) == seq!["-loglevel"@, "level+info"@],
{
    FfmpegCommand::new()
}

/// `FfmpegCommand::input`: appends `-i` and the input path.
#[verifier::external_body]
fn ffmpeg_input(cmd: &mut FfmpegCommand, path: &str)
    ensures
        ffmpeg_args(*final(cmd)) == ffmpeg_args(*old(cmd)) + seq!["-i"@, path@],
{
    cmd.input(path);
}

/// `FfmpegCommand::codec_audio`: appends `-c:a` and the codec.
#[verifier::external_body]
fn ffmpeg_codec_audio(cmd: &mut FfmpegCommand, codec: &str)
    ensures
        ffmpeg_args(*final(cmd)) == ffmpeg_args(*old(cmd)) + seq!["-c:a"@, codec@],
{
    cmd.codec_audio(codec);
}

/// `FfmpegCommand::args`: appends the arguments given, here two of them, in order.
#[verifier::external_body]
fn ffmpeg_args2(cmd: &mut FfmpegCommand, first: &str, second: &str)
    ensures
        ffmpeg_args(*final(cmd)) == ffmpeg_args(*old(cmd)) + seq![first@, second@],
{
    cmd.args([first, second]);
}

/// `FfmpegCommand::output`: appends the output path.
#[verifier::external_body]
fn ffmpeg_output(cmd: &mut FfmpegCommand, path: &str)
    ensures
        ffmpeg_args(*final(cmd)) == ffmpeg_args(*old(cmd)) + seq![path@],
{
    cmd.output(path);
}

/// The arguments of the command that every voice reference starts from: read
/// `audio_file`, encode the audio as mp3 at 320 kbit/s.
pub open spec fn base_ffmpeg_args(audio_file: Seq<char>) -> Seq<Seq<char>> {
    seq!["-loglevel"@, "level+info"@, "-i"@, audio_file, "-c:a"@, "mp3"@, "-b:a"@, "320k"@]
}

/// A command that reads `audio_file` and encodes its audio as mp3 at 320 kbit/s.
fn create_base_ffmpeg_command(audio_file: &str) -> (cmd: FfmpegCommand)
    ensures
        ffmpeg_args(cmd) == base_ffmpeg_args(audio_file@),
{
    let mut cmd = ffmpeg_command_new();
    ffmpeg_input(&mut cmd, audio_file);
    ffmpeg_codec_audio(&mut cmd, "mp3");
    ffmpeg_args2(&mut cmd, "-b:a", "320k");
    assert(ffmpeg_args(cmd) =~= base_ffmpeg_args(audio_file@));
    cmd
}

/// The file name of the voice reference of the fragment with index `index`.
pub open spec fn ref_filename(index: usize) -> Seq<char> {
    decimal(index as nat) + "_ref.wav"@
}

/// A time as ffmpeg reads it: `HH:MM:SS.mmm`.
pub open spec fn ffmpeg_time_text(total: nat) -> Seq<char> {
    clock_text(total, '.')
}

/// The arguments of the command that cuts the voice reference of `f` out of
/// `audio_file` into `output_path`: from the fragment's start to its end.
pub open spec fn voice_reference_args(audio_file: Seq<char>, f: FragmentView, output_path: Seq<char>) -> Seq<Seq<char>> {
    base_ffmpeg_args(audio_file) + seq!["-ss"@, ffmpeg_time_text(f.timing.0), "-to"@, ffmpeg_time_text(f.timing.1), output_path]
}

/// The voice reference of one fragment: where it goes, and the command that
/// makes it.
pub struct VoiceReferenceJob {
    pub index: usize,
    pub output_path: String,
    pub command: FfmpegCommand,
}

/// The voice references of a whole file: the name of each fragment's reference
/// by fragment index, and the commands that make them, in fragment order.
pub struct VoiceReferences {
    pub references: HashMap<usize, String>,
    pub jobs: Vec<VoiceReferenceJob>,
}

/// The indices of the fragments.
pub open spec fn fragment_indices(fs: Seq<FragmentView>) -> Set<usize> {
    Set::new(|k: usize| exists|i: int| 0 <= i < fs.len() && fs[i].index == k)
}

/// Plans the voice references of `srt_fragments`: for each fragment, the file
/// `index_ref.wav` (inside `output_folder`, which is put in front as it is), cut
/// out of `audio_file` from the fragment's start to its end. Running the
/// commands, and skipping files that already exist, is left to the caller.
pub fn create_voice_references(
    srt_fragments: &Vec<SRTFragment>,
    audio_file: &str,
    output_folder: &str,
) -> (r: VoiceReferences)
    ensures
        r.references@.dom() == fragment_indices(fragment_views(srt_fragments@)),
        forall|k: usize| #[trigger] r.references@.contains_key(k) ==> r.references@[k]@ == ref_filename(k),
        r.jobs@.len() == srt_fragments@.len(),
        forall|i: int| 0 <= i < r.jobs@.len() ==> {
            let f = #[trigger] srt_fragments@[i];
            let job = r.jobs@[i];
            &&& job.index == f.index
            &&& job.output_path@ == output_folder@ + ref_filename(f.index)
            &&& ffmpeg_args(job.command) == voice_reference_args(audio_file@, f@, job.output_path@)
        },
{
    let mut references: HashMap<usize, String> = HashMap::new();
    let mut jobs: Vec<VoiceReferenceJob> = Vec::new();
    let n = srt_fragments.len();
    let mut i: usize = 0;
    while i < n
        invariant
            i <= n == srt_fragments@.len(),
            references@.dom() == fragment_indices(fragment_views(srt_fragments@.take(i as int))),
            forall|k: usize| #[trigger] references@.contains_key(k) ==> references@[k]@ == ref_filename(k),
            jobs@.len() == i,
            forall|j: int| 0 <= j < i ==> {
                let f = #[trigger] srt_fragments@[j];
                let job = jobs@[j];
                &&& job.index == f.index
                &&& job.output_path@ == output_folder@ + ref_filename(f.index)
                &&& ffmpeg_args(job.command) == voice_reference_args(audio_file@, f@, job.output_path@)
            },
        decreases n - i,
    {
        let f = &srt_fragments[i];
        let index = f.index;
        let mut filename = decimal_string(index as u64);
        filename.append("_ref.wav");
        let ghost before = references@;
        references.insert(index, filename.clone());
        let mut output_path = String::from_str(output_folder);
        output_path.append(filename.as_str());
        let mut command = create_base_ffmpeg_command(audio_file);
        let start = form_clock_text(&f.timing.start, '.');
        let end = form_clock_text(&f.timing.end, '.');
        ffmpeg_args2(&mut command, "-ss", start.as_str());
        ffmpeg_args2(&mut command, "-to", end.as_str());
        ffmpeg_output(&mut command, output_path.as_str());
        proof {
            assert(ffmpeg_args(command) =~= voice_reference_args(audio_file@, f@, output_path@));
            let fs = fragment_views(srt_fragments@.take(i + 1));
            let gs = fragment_views(srt_fragments@.take(i as int));
            assert(fs =~= gs.push(f@));
            assert(references@.dom() =~= fragment_indices(fs)) by {
                assert forall|k: usize| references@.dom().contains(k) implies fragment_indices(fs).contains(k) by {
                    if k == index {
                        assert(fs[i as int].index == k);
                    } else {
                        assert(before.dom().contains(k));
                        let j = choose|j: int| 0 <= j < gs.len() && gs[j].index == k;
                        assert(fs[j] == gs[j]);
                    }
                }
                assert forall|k: usize| fragment_indices(fs).contains(k) implies references@.dom().contains(k) by {
                    let j = choose|j: int| 0 <= j < fs.len() && fs[j].index == k;
                    if j < i {
                        assert(gs[j] == fs[j]);
                        assert(fragment_indices(gs).contains(k));
                    }
                }
            }
        }
        jobs.push(VoiceReferenceJob { index, output_path, command });
        i = i + 1;
    }
    assert(srt_fragments@.take(n as int) =~= srt_fragments@);
    VoiceReferences { references, jobs }
}


/// The voice that dubs the fragment with index `index`: its voice reference
/// where there is one, else `random`.
pub open spec fn voice_ref_for(references: Map<usize, String>, index: usize) -> Seq<char> {
    if references.contains_key(index) {
        references[index]@
    } else {
        "random"@
    }
}

/// One line to dub: the fragment's index, its text, and the voice to dub it with.
pub struct DubJob {
    pub index: usize,
    pub line: String,
    pub voice_ref: String,
}

/// Plans the dubbing of `srt_fragments`: for each fragment in order, its lines
/// joined into one, to be dubbed with its voice reference from
/// `voice_references`, or with `random` where it has none.
pub fn dub_jobs(srt_fragments: &Vec<SRTFragment>, voice_references: &HashMap<usize, String>) -> (jobs: Vec<DubJob>)
    ensures
        jobs@.len() == srt_fragments@.len(),
        forall|i: int| 0 <= i < jobs@.len() ==> {
            let f = #[trigger] srt_fragments@[i];
            let job = jobs@[i];
            &&& job.index == f.index
            &&& job.line@ == flattened(f@)
            &&& job.voice_ref@ == voice_ref_for(voice_references@, f.index)
        },
{
    let mut jobs: Vec<DubJob> = Vec::new();
    let n = srt_fragments.len();
    let mut i: usize = 0;
    while i < n
        invariant
            i <= n == srt_fragments@.len(),
            jobs@.len() == i,
            forall|j: int| 0 <= j < i ==> {
                let f = #[trigger] srt_fragments@[j];
                let job = jobs@[j];
                &&& job.index == f.index
                &&& job.line@ == flattened(f@)
                &&& job.voice_ref@ == voice_ref_for(voice_references@, f.index)
            },
        decreases n - i,
    {
        let f = &srt_fragments[i];
        let index = f.index;
        let voice_ref = match voice_references.get(&index) {
            Some(r) => r.clone(),
            None => String::from_str("random"),
        };
        let line = f.get_flattened_lines();
        jobs.push(DubJob { index, line, voice_ref });
        i = i + 1;
    }
    jobs
}

/// `s` with `suffix` taken off its end for as long as it ends with it.
pub open spec fn trim_suffix_all(s: Seq<char>, suffix: Seq<char>) -> Seq<char>
    decreases s.len(),
{
    if suffix.len() > 0 && s.len() >= suffix.len() && s.skip(s.len() - suffix.len()) == suffix {
        trim_suffix_all(s.take(s.len() - suffix.len()), suffix)
    } else {
        s
    }
}

/// The suffix of voice reference files.
pub const REF_SUFFIX: &'static str = "_ref.wav";

/// The suffix of dubbed files.
pub const DUBBED_SUFFIX: &'static str = "_dubbed.mp3";

/// The name of the dubbed file for `voice_ref`: the reference's name with every
/// trailing `_ref.wav` taken off, then `_dubbed.mp3`.
pub open spec fn dubbed_filename(voice_ref: Seq<char>) -> Seq<char> {
    trim_suffix_all(voice_ref, REF_SUFFIX@) + DUBBED_SUFFIX@
}

/// The path `name` inside `base`, as `Path::join` makes it on Unix: `name` alone
/// where it is absolute, else `base` and `name` with one `/` between them where
/// `base` is neither empty nor ends in `/`.
pub open spec fn joined_path(base: Seq<char>, name: Seq<char>) -> Seq<char> {
    if name.len() > 0 && name[0] == '/' {
        name
    } else if base.len() == 0 || base.last() == '/' {
        base + name
    } else {
        base + seq!['/'] + name
    }
}

/// `Path::join`: `Path::new(base).join(name)`, written back as text. Its
/// documentation (through `PathBuf::push`) says that an absolute `name` replaces
/// `base`, and that otherwise a separator is put between them where `base` does
/// not already end in one; `joined_path` states this for Unix, where `/` is the
/// separator and a path is absolute where it starts with `/`. Both arguments are
/// valid text, so writing the path back loses nothing.
#[verifier::external_body]
fn path_join(base: &str, name: &str) -> (p: String)
    ensures
        p@ == joined_path(base@, name@),
{
    std::path::Path::new(base).join(name).to_string_lossy().into_owned()
}

/// Whether `v[end - suffix.len()..end]` is `suffix`.
fn ends_with_at(v: &Vec<char>, end: usize, suffix: &Vec<char>) -> (b: bool)
    requires
        end <= v@.len(),
    ensures
        b == (end >= suffix@.len() && v@.take(end as int).skip(end - suffix@.len()) == suffix@),
{
    if end < suffix.len() {
        return false;
    }
    let start = end - suffix.len();
    let mut j: usize = 0;
    while j < suffix.len()
        invariant
            start + suffix@.len() == end <= v@.len(),
            j <= suffix@.len(),
            forall|t: int| 0 <= t < j ==> v@[start + t] == suffix@[t],
        decreases suffix@.len() - j,
    {
        if v[start + j] != suffix[j] {
            assert(v@.take(end as int).skip(start as int)[j as int] != suffix@[j as int]);
            return false;
        }
        j = j + 1;
    }
    assert(v@.take(end as int).skip(start as int) =~= suffix@);
    true
}

/// The names that dubbing a line with `voice_ref` uses.
pub struct DubbedNames {
    /// The reference's name with every trailing `_ref.wav` taken off.
    pub voice_ref_idx: String,
    /// The name of the file that the dubbing server is asked to write: the output
    /// folder as it is, then the dubbed file's name.
    pub output_filename: String,
    /// Where the dubbed file is to end up: its name inside the output folder.
    pub dubbed_file_path: String,
}

/// The names that dubbing a line with `voice_ref` into `output_folder` uses (see
/// `DubbedNames`).
pub fn dubbed_output_names(output_folder: &str, voice_ref: &str) -> (r: DubbedNames)
    ensures
        r.voice_ref_idx@ == trim_suffix_all(voice_ref@, REF_SUFFIX@),
        r.output_filename@ == output_folder@ + dubbed_filename(voice_ref@),
        r.dubbed_file_path@ == joined_path(output_folder@, dubbed_filename(voice_ref@)),
{
    let v = crate::text::chars_of(voice_ref);
    let suffix = crate::text::chars_of(REF_SUFFIX);
    let mut end = v.len();
    assert(v@.take(end as int) =~= v@);
    while suffix.len() > 0 && ends_with_at(&v, end, &suffix)
        invariant
            end <= v@.len(),
            suffix@ == REF_SUFFIX@,
            trim_suffix_all(voice_ref@, REF_SUFFIX@) == trim_suffix_all(v@.take(end as int), REF_SUFFIX@),
        decreases end,
    {
        assert(v@.take(end as int).take(end - suffix@.len()) =~= v@.take(end - suffix@.len()));
        end = end - suffix.len();
    }
    let voice_ref_idx = crate::text::string_of(&v, 0, end);
    assert(v@.subrange(0, end as int) =~= v@.take(end as int));
    let mut name = voice_ref_idx.clone();
    name.append(DUBBED_SUFFIX);
    let dubbed_file_path = path_join(output_folder, name.as_str());
    let mut output_filename = String::from_str(output_folder);
    output_filename.append(name.as_str());
    DubbedNames { voice_ref_idx, output_filename, dubbed_file_path }
}

/// Dubbing with the voice reference that `create_voice_references` names for a
/// fragment writes the file named after that fragment's index, the index then
/// `_dubbed.mp3`, and puts it inside the output folder.
pub proof fn law_dubbed_file_of_reference(output_folder: Seq<char>, index: usize)
    ensures
        trim_suffix_all(ref_filename(index), REF_SUFFIX@) == decimal(index as nat),
        dubbed_filename(ref_filename(index)) == decimal(index as nat) + DUBBED_SUFFIX@,
        joined_path(output_folder, dubbed_filename(ref_filename(index)))
            == joined_path(output_folder, decimal(index as nat) + DUBBED_SUFFIX@),
{
    reveal_strlit("_ref.wav");
    let d = decimal(index as nat);
    let r = ref_filename(index);
    let suffix = REF_SUFFIX@;
    lemma_decimal_digits(index as nat);
    assert(suffix.len() == 8);
    assert(r.skip(r.len() - suffix.len()) =~= suffix);
    assert(r.take(r.len() - suffix.len()) =~= d);
    if d.len() >= suffix.len() {
        assert(is_digit(d[d.len() - 1]));
        assert(d.skip(d.len() - suffix.len())[7] == d[d.len() - 1]);
        assert(d.skip(d.len() - suffix.len()) != suffix);
    }
    assert(trim_suffix_all(d, suffix) == d);
}

/// Dubbing uses a fragment's own voice reference wherever the references hold
/// one for its index, and a random voice only where they hold none. With the
/// references that `create_voice_references` plans, every planned fragment is
/// dubbed with its `index_ref.wav`.
pub proof fn law_dubbing_uses_existing_references(references: Map<usize, String>, index: usize)
    ensures
        references.contains_key(index) ==> voice_ref_for(references, index) == references[index]@,
        !references.contains_key(index) ==> voice_ref_for(references, index) == "random"@,
        references.contains_key(index) && references[index]@ == ref_filename(index)
            ==> voice_ref_for(references, index) == decimal(index as nat) + REF_SUFFIX@,
{
}

} // verus!
