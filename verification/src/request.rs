//! What is to be aligned.

use vstd::prelude::*;

verus! {

/// Where the audio comes from.
#[derive(Debug, Clone)]
pub enum AudioInput {
    /// A wave file.
    Path(String),
    /// Samples at 16 kHz, as single-precision bit patterns.
    Waveform16Khz(Vec<u32>),
}

/// Where the transcript comes from.
#[derive(Debug, Clone)]
pub enum TextInput {
    /// A text file.
    Path(String),
    /// The transcript itself.
    Text(String),
}

/// One alignment.
#[derive(Debug, Clone)]
pub struct AlignRequest {
    pub audio: AudioInput,
    pub text: TextInput,
    /// The name of the language, in any case.
    pub language: String,
}

impl AlignRequest {
    /// A request for the given audio and text.
    pub fn new(audio: AudioInput, text: TextInput, language: String) -> (r: Self)
        ensures
            r.audio == audio,
            r.text == text,
            r.language@ == language@,
    {
        AlignRequest { audio, text, language }
    }

    /// A request for a wave file and a text file.
    pub fn from_paths(audio: String, text: String, language: String) -> (r: Self)
        ensures
            r.audio matches AudioInput::Path(p) && p@ == audio@,
            r.text matches TextInput::Path(p) && p@ == text@,
            r.language@ == language@,
    {
        AlignRequest::new(AudioInput::Path(audio), TextInput::Path(text), language)
    }
}

} // verus!
