//! Settings of speech synthesis and the checks made before a text is synthesised.
use vstd::prelude::*;
use crate::text::{trim, trimmed};

verus! {

/// Speech service settings of one synthesiser.
#[derive(Debug, Clone)]
pub struct TtsConfig {
    pub subscription_key: String,
    pub region: String,
    pub voice_name: String,
    pub output_file: String,
}

impl TtsConfig {
    /// The synthesiser settings taken from the run settings, writing to `test_tts.wav`.
    pub fn from_config(config: &crate::config::TtsConfig) -> (r: Self)
        ensures
            r.subscription_key@ == config.azure_speech_key@,
            r.region@ == config.azure_speech_region@,
            r.voice_name@ == config.azure_voice_name@,
            r.output_file@ == "test_tts.wav"@,
    {
        TtsConfig {
            subscription_key: config.azure_speech_key.clone(),
            region: config.azure_speech_region.clone(),
            voice_name: config.azure_voice_name.clone(),
            output_file: String::from_str("test_tts.wav"),
        }
    }
}

/// A speech synthesiser with its settings.
pub struct AzureTts {
    config: TtsConfig,
}

impl AzureTts {
    pub closed spec fn config_spec(&self) -> TtsConfig {
        self.config
    }

    /// A synthesiser with these settings.
    pub fn new(config: TtsConfig) -> (r: Self)
        ensures
            r.config_spec() == config,
    {
        Self { config }
    }

    /// The settings of this synthesiser.
    pub fn config(&self) -> (r: &TtsConfig)
        ensures
            *r == self.config_spec(),
    {
        &self.config
    }

    /// Whether `text` has something to say: it is not empty once white space is trimmed.
    pub fn has_speech(text: &str) -> (r: bool)
        ensures
            r == (trimmed(text@).len() > 0),
    {
        let t = trim(text);
        t.as_str().unicode_len() > 0
    }
}

} // verus!
