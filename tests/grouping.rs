use anki_creator::error::DecodeError;
use anki_creator::grouping::{analysed_grammar, analysed_records, analysis_refresh, analysis_updates, classify_group, group_words, labels_from_answer, pos_refresh, word_analysis_of, GroupAction};
use anki_creator::models::{BasicGrammarInfo, BasicWordInfo, WordAnalysis};
use anki_creator::store::WordTable;

fn info(word: &str, kana: &str, pitch: &str, pos: &[&str]) -> BasicWordInfo {
    BasicWordInfo {
        word: word.to_string(),
        kana: kana.to_string(),
        pitch: pitch.to_string(),
        part_of_speech: pos.iter().map(|p| p.to_string()).collect(),
    }
}

#[test]
fn grouping_merges_tags_per_identity() {
    let batch = vec![
        info("開く", "あく", "0", &["自动词"]),
        info("本", "ほん", "1", &["名词", "名词"]),
        info("開く", "あく", "0", &["他动词", "自动词"]),
        info("開く", "あく", "1", &["名词"]),
    ];
    let groups = group_words(&batch);
    assert_eq!(groups.len(), 3);
    assert_eq!(groups[0].word, "開く");
    assert_eq!(groups[0].pitch, "0");
    assert_eq!(groups[0].part_of_speech, vec!["自动词".to_string(), "他动词".to_string()]);
    assert_eq!(groups[1].part_of_speech, vec!["名词".to_string()]);
    assert_eq!(groups[2].pitch, "1");
}

#[test]
fn grouping_of_empty_batch_is_empty() {
    assert!(group_words(&Vec::new()).is_empty());
}

#[test]
fn classification_against_the_store() {
    let mut t = WordTable::new();
    t.upsert(
        &WordAnalysis {
            word: "行く".to_string(),
            kana: "いく".to_string(),
            pitch: "0".to_string(),
            part_of_speech: "自动词".to_string(),
            analysis: "go".to_string(),
        },
        &"t".to_string(),
    )
    .unwrap();
    let same = info("行く", "いく", "0", &["自动词"]);
    let exact = t.get_word_by_id(1);
    assert_eq!(classify_group(&same, &exact), GroupAction::Skip);
    let retagged = info("行く", "いく", "0", &["自动词", "他动词"]);
    assert_eq!(
        classify_group(&retagged, &exact),
        GroupAction::Update { id: 1, pitch: "0".to_string(), part_of_speech: "自动词｜他动词".to_string() }
    );
    let fresh = info("来る", "くる", "1", &["自动词"]);
    assert_eq!(classify_group(&fresh, &None), GroupAction::Analyze);
}

#[test]
fn new_pitch_of_a_stored_word_is_a_new_record() {
    let mut t = WordTable::new();
    let now = "t".to_string();
    t.upsert(
        &WordAnalysis {
            word: "箸".to_string(),
            kana: "はし".to_string(),
            pitch: "1".to_string(),
            part_of_speech: "名词".to_string(),
            analysis: "chopsticks".to_string(),
        },
        &now,
    )
    .unwrap();
    let group = info("箸", "はし", "2", &["名词"]);
    assert!(t.get_existing_word_by_word_kana(&group.word, &group.kana).is_some());
    let exact = t.get_existing_word(&group.word, &group.kana, &group.pitch);
    assert!(exact.is_none());
    assert_eq!(classify_group(&group, &None), GroupAction::Analyze);
    let (records, _) = analysed_records(&vec![group], vec![Ok::<String, String>("bridge".to_string())]);
    t.save_words(&records, &now).unwrap();
    let all = t.get_all_words();
    assert_eq!(all.len(), 2);
    assert_eq!((all[0].id, all[0].pitch.as_str()), (1, "1"));
    assert_eq!(all[1].pitch, "2");
}

#[test]
fn answer_labels_keep_text_entries_only() {
    assert_eq!(labels_from_answer(None), Err(DecodeError::MissingLabels));
    let field = Some(vec![Some("名词".to_string()), None, Some("他动词".to_string())]);
    assert_eq!(labels_from_answer(field), Ok(vec!["名词".to_string(), "他动词".to_string()]));
    assert_eq!(labels_from_answer(Some(Vec::new())), Ok(Vec::new()));
}

#[test]
fn analysis_written_only_when_changed() {
    let stored = "<b>old</b>".to_string();
    assert_eq!(analysis_refresh(&stored, "<b>old</b>".to_string()), None);
    assert_eq!(analysis_refresh(&stored, "<b>new</b>".to_string()), Some("<b>new</b>".to_string()));
}

#[test]
fn analysed_group_becomes_a_record() {
    let g = info("帯", "おび", "1", &["名词", "量词"]);
    let w = word_analysis_of(&g, "<div>腰带</div>".to_string());
    assert_eq!(w.part_of_speech, "名词｜量词");
    assert_eq!(w.analysis, "<div>腰带</div>");
    assert_eq!(w.word, "帯");
    assert_eq!(w.pitch, "1");
}

#[test]
fn refresh_of_tags() {
    let stored = "名词".to_string();
    assert_eq!(pos_refresh(&stored, &Vec::new()), None);
    assert_eq!(pos_refresh(&stored, &vec!["名词".to_string()]), None);
    assert_eq!(
        pos_refresh(&stored, &vec!["名词".to_string(), "他动词".to_string()]),
        Some("名词｜他动词".to_string())
    );
}

#[test]
fn analysed_records_follow_their_own_group() {
    let groups = vec![
        info("帯", "おび", "1", &["名词"]),
        info("開く", "あく", "0", &["自动词", "他动词"]),
        info("本", "ほん", "1", &["名词"]),
    ];
    let results: Vec<Result<String, String>> =
        vec![Ok("obi".to_string()), Err("timeout".to_string()), Ok("hon".to_string())];
    let (records, report) = analysed_records(&groups, results);
    assert_eq!(records.len(), 2);
    assert_eq!(records[0].word, "帯");
    assert_eq!(records[0].analysis, "obi");
    assert_eq!(records[1].word, "本");
    assert_eq!(records[1].analysis, "hon");
    assert_eq!(report.failures, vec![(1, "timeout".to_string())]);
    assert_eq!((report.attempted, report.succeeded, report.failed), (3, 2, 1));
    let mut t = WordTable::new();
    t.save_words(&records, &"t".to_string()).unwrap();
    let all = t.get_all_words();
    assert_eq!(all.len(), 2);
    assert_eq!(all[1].analysis, "hon");
    assert_eq!(all[1].word, "本");
}

#[test]
fn analysed_grammar_follows_its_own_item() {
    let items = vec![
        BasicGrammarInfo { grammar: "ので".to_string(), kana: "ので".to_string() },
        BasicGrammarInfo { grammar: "〜ている".to_string(), kana: "ている".to_string() },
    ];
    let results: Vec<Result<String, u8>> = vec![Err(7), Ok("进行".to_string())];
    let (records, report) = analysed_grammar(&items, results);
    assert_eq!(records.len(), 1);
    assert_eq!(records[0].grammar, "〜ている");
    assert_eq!(records[0].analysis, "进行");
    assert_eq!(report.failures, vec![(0, 7)]);
}

#[test]
fn group_tags_union_all_occurrences_in_first_seen_order() {
    let batch = vec![
        info("上げる", "あげる", "0", &["他动词", "名词"]),
        info("本", "ほん", "1", &["名词"]),
        info("上げる", "あげる", "0", &["自动词", "他动词"]),
        info("上げる", "あげる", "0", &["名词", "副词"]),
    ];
    let groups = group_words(&batch);
    assert_eq!(
        groups[0].part_of_speech,
        vec!["他动词".to_string(), "名词".to_string(), "自动词".to_string(), "副词".to_string()]
    );
}

#[test]
fn analysis_updates_follow_their_own_word() {
    let mut t = WordTable::new();
    for (w, a) in [("水", "water"), ("火", "fire"), ("木", "tree")] {
        t.upsert(
            &WordAnalysis {
                word: w.to_string(),
                kana: "x".to_string(),
                pitch: "0".to_string(),
                part_of_speech: "名词".to_string(),
                analysis: a.to_string(),
            },
            &"t".to_string(),
        )
        .unwrap();
    }
    let words = t.get_all_words();
    let results: Vec<Result<String, String>> =
        vec![Ok("<b>water</b>".to_string()), Ok("fire".to_string()), Err("busy".to_string())];
    let (updates, report) = analysis_updates(&words, results);
    assert_eq!(updates, vec![(words[0].id, "<b>water</b>".to_string())]);
    assert_eq!(report.failures, vec![(2, "busy".to_string())]);
    for (id, a) in &updates {
        assert!(t.update_word_analysis(*id, a, &"t2".to_string()));
    }
    assert_eq!(t.get_word_by_id(words[0].id).unwrap().analysis, "<b>water</b>");
    assert_eq!(t.get_word_by_id(words[1].id).unwrap().analysis, "fire");
}
