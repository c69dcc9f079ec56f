//! Settings of the dubbing step.

use vstd::prelude::*;
use std::path::PathBuf;

verus! {

/// What the dubber needs to know.
pub struct DubberConfig {
    pub llm_address: String,
    pub model: PathBuf,
    pub wavtokenizer: PathBuf,
    pub input_audio: PathBuf,
    pub input_srt: PathBuf,
    pub voice_refs_dir: PathBuf,
    pub output_language: String,
    pub output_folder: PathBuf,
}

impl DubberConfig {
    /// Settings made of the values given.
    pub fn new(
        llm_address: String,
        model: PathBuf,
        wavtokenizer: PathBuf,
        input_audio: PathBuf,
        input_srt: PathBuf,
        voice_refs_dir: PathBuf,
        output_language: String,
        output_folder: PathBuf,
    ) -> (c: Self)
        ensures
            c.llm_address@ == llm_address@,
            c.model == model,
            c.wavtokenizer == wavtokenizer,
            c.input_audio == input_audio,
            c.input_srt == input_srt,
            c.voice_refs_dir == voice_refs_dir,
            c.output_language@ == output_language@,
            c.output_folder == output_folder,
    {
        Self {
            llm_address,
            model,
            wavtokenizer,
            input_audio,
            input_srt,
            voice_refs_dir,
            output_language,
            output_folder,
        }
    }
}

} // verus!
