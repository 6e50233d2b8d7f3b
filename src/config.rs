//! Settings of a run, as read once at startup.
use vstd::prelude::*;
use crate::batch::Limiter;
use crate::error::ConfigError;
use crate::retry::RetryPolicy;

verus! {

#[derive(Debug, Clone)]
pub struct Config {
    pub api: ApiConfig,
    pub processing: ProcessingConfig,
    pub database: DatabaseConfig,
    pub output: OutputConfig,
    pub input: InputConfig,
    pub tts: TtsConfig,
}

/// Access to the remote analysis service.
#[derive(Debug, Clone)]
pub struct ApiConfig {
    pub openrouter_key: String,
    pub models: ModelsConfig,
}

/// The model used for each kind of request.
#[derive(Debug, Clone)]
pub struct ModelsConfig {
    pub extraction_model: String,
    pub word_analysis_model: String,
    pub grammar_analysis_model: String,
}

/// Concurrency cap, pacing and retry settings of remote calls.
#[derive(Debug, Clone)]
pub struct ProcessingConfig {
    pub concurrent_requests: usize,
    pub request_delay_ms: u64,
    pub max_retries: u32,
    pub request_timeout_seconds: u64,
}

#[derive(Debug, Clone)]
pub struct DatabaseConfig {
    pub db_file: String,
}

#[derive(Debug, Clone)]
pub struct OutputConfig {
    pub words_file: String,
    pub grammar_file: String,
    pub audio_dir: String,
}

#[derive(Debug, Clone)]
pub struct InputConfig {
    pub text_file: String,
}

/// Access to the speech synthesis service.
#[derive(Debug, Clone)]
pub struct TtsConfig {
    pub azure_speech_key: String,
    pub azure_speech_region: String,
    pub azure_voice_name: String,
}

impl ProcessingConfig {
    /// The retry policy of remote calls: `max_retries` retries, back-off based on
    /// `request_delay_ms`.
    pub fn retry_policy(&self) -> (r: RetryPolicy)
        ensures
            r.max_retries == self.max_retries,
            r.base_delay_ms == self.request_delay_ms,
    {
        RetryPolicy { max_retries: self.max_retries, base_delay_ms: self.request_delay_ms }
    }

    /// The limiter of concurrent remote calls; a cap of zero is refused.
    pub fn limiter(&self) -> (r: Result<Limiter, ConfigError>)
        ensures
            self.concurrent_requests == 0 ==> r == Err::<Limiter, ConfigError>(ConfigError::ZeroConcurrency),
            self.concurrent_requests > 0 ==> r is Ok && r->Ok_0.wf() && r->Ok_0.capacity_spec()
                == self.concurrent_requests && r->Ok_0.in_flight_spec() == 0,
    {
        Limiter::new(self.concurrent_requests)
    }
}

impl Config {
    /// Checks the settings that a run cannot do without: a non-zero concurrency cap, then an
    /// API key.
    pub fn validate(&self) -> (r: Result<(), ConfigError>)
        ensures
            self.processing.concurrent_requests == 0 ==> r == Err::<(), ConfigError>(ConfigError::ZeroConcurrency),
            self.processing.concurrent_requests > 0 && self.api.openrouter_key@.len() == 0 ==> (r matches Err(
                ConfigError::Missing(name),
            ) && name@ == "api.openrouter_key"@),
            self.processing.concurrent_requests > 0 && self.api.openrouter_key@.len() > 0 ==> r is Ok,
    {
        if self.processing.concurrent_requests == 0 {
            return Err(ConfigError::ZeroConcurrency);
        }
        if self.api.openrouter_key.as_str().unicode_len() == 0 {
            return Err(ConfigError::Missing(String::from_str("api.openrouter_key")));
        }
        Ok(())
    }
}

} // verus!
