use anki_creator::api::{user_message, Choice, Message, OpenRouterResponse};
use anki_creator::config::{ApiConfig, Config, DatabaseConfig, InputConfig, ModelsConfig, OutputConfig, ProcessingConfig, TtsConfig};
use anki_creator::error::{ConfigError, DecodeError};
use anki_creator::tts::{AzureTts, TtsConfig as SynthSettings};

fn config(concurrency: usize, key: &str) -> Config {
    Config {
        api: ApiConfig {
            openrouter_key: key.to_string(),
            models: ModelsConfig {
                extraction_model: "m1".to_string(),
                word_analysis_model: "m2".to_string(),
                grammar_analysis_model: "m3".to_string(),
            },
        },
        processing: ProcessingConfig {
            concurrent_requests: concurrency,
            request_delay_ms: 500,
            max_retries: 3,
            request_timeout_seconds: 60,
        },
        database: DatabaseConfig { db_file: "words.db".to_string() },
        output: OutputConfig {
            words_file: "words.csv".to_string(),
            grammar_file: "grammar.csv".to_string(),
            audio_dir: "audio".to_string(),
        },
        input: InputConfig { text_file: "input.txt".to_string() },
        tts: TtsConfig {
            azure_speech_key: "k".to_string(),
            azure_speech_region: "japaneast".to_string(),
            azure_voice_name: "ja-JP-NanamiNeural".to_string(),
        },
    }
}

#[test]
fn config_validation() {
    assert_eq!(config(0, "key").validate(), Err(ConfigError::ZeroConcurrency));
    assert_eq!(config(4, "").validate(), Err(ConfigError::Missing("api.openrouter_key".to_string())));
    assert_eq!(config(4, "key").validate(), Ok(()));
}

#[test]
fn processing_settings_give_policy_and_limiter() {
    let c = config(4, "key");
    let p = c.processing.retry_policy();
    assert_eq!(p.max_retries, 3);
    assert_eq!(p.base_delay_ms, 500);
    assert_eq!(c.processing.limiter().unwrap().capacity(), 4);
    assert!(config(0, "key").processing.limiter().is_err());
}

#[test]
fn synthesiser_settings() {
    let c = config(1, "key");
    let s = SynthSettings::from_config(&c.tts);
    assert_eq!(s.region, "japaneast");
    assert_eq!(s.subscription_key, "k");
    assert_eq!(s.voice_name, "ja-JP-NanamiNeural");
    assert_eq!(s.output_file, "test_tts.wav");
    let tts = AzureTts::new(s);
    assert_eq!(tts.config().region, "japaneast");
    assert!(AzureTts::has_speech(" おはよう "));
    assert!(!AzureTts::has_speech(" \n\t"));
}

fn response(texts: &[&str]) -> OpenRouterResponse {
    OpenRouterResponse {
        choices: texts.iter().map(|t| Choice { message: Message { content: t.to_string() } }).collect(),
    }
}

#[test]
fn reading_responses() {
    let r = response(&["  <div>帯</div>\n", "second"]);
    assert_eq!(r.first_content().unwrap(), "  <div>帯</div>\n");
    assert_eq!(r.analysis_text().unwrap(), "<div>帯</div>");
    assert_eq!(r.json_payload(), Err(DecodeError::NoJsonObject));
    let j = response(&["ok: {\"words\":[]} done"]);
    assert_eq!(j.json_payload().unwrap(), "{\"words\":[]}");
    let empty = response(&[]);
    assert_eq!(empty.first_content(), Err(DecodeError::NoChoice));
    assert_eq!(empty.analysis_text(), Err(DecodeError::NoChoice));
    let m = user_message("hello".to_string());
    assert_eq!(m.role, "user");
    assert_eq!(m.content, "hello");
}
