//! Records of words and grammar points, as extracted, analysed and stored.
use vstd::prelude::*;

verus! {

/// A stored word: its identity is `(word, kana, pitch)`; `part_of_speech` is its tag set in
/// stored form and `updated_at` the time of its last change.
#[derive(Debug, Clone)]
pub struct JapaneseWord {
    pub id: i64,
    pub word: String,
    pub kana: String,
    pub pitch: String,
    pub part_of_speech: String,
    pub analysis: String,
    pub updated_at: Option<String>,
}

/// The values of a stored word.
pub struct WordRow {
    pub id: int,
    pub word: Seq<char>,
    pub kana: Seq<char>,
    pub pitch: Seq<char>,
    pub part_of_speech: Seq<char>,
    pub analysis: Seq<char>,
    pub updated_at: Option<Seq<char>>,
}

/// The values of an optional text.
pub open spec fn opt_text(o: Option<String>) -> Option<Seq<char>> {
    match o {
        Some(s) => Some(s@),
        None => None,
    }
}

impl View for JapaneseWord {
    type V = WordRow;

    open spec fn view(&self) -> WordRow {
        WordRow {
            id: self.id as int,
            word: self.word@,
            kana: self.kana@,
            pitch: self.pitch@,
            part_of_speech: self.part_of_speech@,
            analysis: self.analysis@,
            updated_at: opt_text(self.updated_at),
        }
    }
}

/// A stored word together with the tag sets recorded for its identity.
#[derive(Debug, Clone)]
pub struct MergedWord {
    pub id: i64,
    pub word: String,
    pub kana: String,
    pub pitch: String,
    pub parts_of_speech: Vec<String>,
    pub analysis: String,
}

/// A stored grammar point, identified by `(word, kana)`.
#[derive(Debug, Clone)]
pub struct JapaneseGrammar {
    pub id: i64,
    pub word: String,
    pub kana: String,
    pub analysis: String,
}

/// What one extraction call found in a text.
#[derive(Debug, Clone)]
pub struct ExtractionResult {
    pub words: Vec<BasicWordInfo>,
    pub grammar: Vec<BasicGrammarInfo>,
}

/// A word as extracted, before analysis: identity and the labels found for it.
#[derive(Debug, Clone)]
pub struct BasicWordInfo {
    pub word: String,
    pub kana: String,
    pub pitch: String,
    pub part_of_speech: Vec<String>,
}

/// A grammar point as extracted, before analysis.
#[derive(Debug, Clone)]
pub struct BasicGrammarInfo {
    pub grammar: String,
    pub kana: String,
}

/// A word with its analysis, ready to be stored; `part_of_speech` is in stored form.
#[derive(Debug, Clone)]
pub struct WordAnalysis {
    pub word: String,
    pub kana: String,
    pub pitch: String,
    pub part_of_speech: String,
    pub analysis: String,
}

/// The values of an analysed word.
pub struct AnalysisRow {
    pub word: Seq<char>,
    pub kana: Seq<char>,
    pub pitch: Seq<char>,
    pub part_of_speech: Seq<char>,
    pub analysis: Seq<char>,
}

impl View for WordAnalysis {
    type V = AnalysisRow;

    open spec fn view(&self) -> AnalysisRow {
        AnalysisRow {
            word: self.word@,
            kana: self.kana@,
            pitch: self.pitch@,
            part_of_speech: self.part_of_speech@,
            analysis: self.analysis@,
        }
    }
}

/// A grammar point with its analysis, ready to be stored.
#[derive(Debug, Clone)]
pub struct GrammarAnalysis {
    pub grammar: String,
    pub kana: String,
    pub analysis: String,
}

} // verus!
