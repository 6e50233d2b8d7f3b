use anki_creator::error::StoreError;
use anki_creator::models::{GrammarAnalysis, JapaneseGrammar, WordAnalysis};
use anki_creator::store::{correction_plan, grammar_upsert_decision, upsert_decision, GrammarTable, UpsertOutcome, WordTable};

fn item(word: &str, kana: &str, pitch: &str, pos: &str, analysis: &str) -> WordAnalysis {
    WordAnalysis {
        word: word.to_string(),
        kana: kana.to_string(),
        pitch: pitch.to_string(),
        part_of_speech: pos.to_string(),
        analysis: analysis.to_string(),
    }
}

fn s(x: &str) -> String {
    x.to_string()
}

#[test]
fn upsert_twice_is_unchanged() {
    let mut t = WordTable::new();
    let a = item("帯", "おび", "1", "名词", "<div>腰带</div>");
    assert_eq!(t.upsert(&a, &s("2024-01-01 10:00:00")), Ok(UpsertOutcome::Inserted));
    let before = t.get_all_words();
    assert_eq!(t.upsert(&a, &s("2024-01-02 10:00:00")), Ok(UpsertOutcome::Unchanged));
    let after = t.get_all_words();
    assert_eq!(after.len(), 1);
    assert_eq!(after[0].updated_at, before[0].updated_at);
    assert_eq!(after[0].updated_at, Some(s("2024-01-01 10:00:00")));
    assert_eq!(after[0].id, 1);
}

#[test]
fn upsert_with_other_tags_replaces_tags_and_analysis() {
    let mut t = WordTable::new();
    t.upsert(&item("開く", "あく", "0", "自动词", "old"), &s("t1")).unwrap();
    let r = t.upsert(&item("開く", "あく", "0", "自动词｜他动词", "new"), &s("t2"));
    assert_eq!(r, Ok(UpsertOutcome::UpdatedTags));
    let w = t.get_word_by_id(1).unwrap();
    assert_eq!(w.part_of_speech, "自动词｜他动词");
    assert_eq!(w.analysis, "new");
    assert_eq!(w.updated_at, Some(s("t2")));
}

#[test]
fn pitch_variants_are_distinct_rows() {
    let mut t = WordTable::new();
    assert_eq!(t.upsert(&item("箸", "はし", "1", "名词", "chopsticks"), &s("t1")), Ok(UpsertOutcome::Inserted));
    assert_eq!(t.upsert(&item("箸", "はし", "2", "名词", "bridge?"), &s("t2")), Ok(UpsertOutcome::Inserted));
    let all = t.get_all_words();
    assert_eq!(all.len(), 2);
    assert_eq!(all[0].pitch, "1");
    assert_eq!(all[1].pitch, "2");
    assert_ne!(all[0].id, all[1].id);
}

#[test]
fn correction_replaces_conflicting_row() {
    let mut t = WordTable::new();
    t.upsert(&item("行く", "いく", "0", "他动词", "A"), &s("t1")).unwrap();
    t.upsert(&item("行く", "いく", "1", "自动词", "B"), &s("t2")).unwrap();
    let a = t.get_existing_word(&s("行く"), &s("いく"), &s("0")).unwrap();
    let b = t.get_existing_word(&s("行く"), &s("いく"), &s("1")).unwrap();
    let r = t.update_word_pitch_and_pos(a.id, &s("1"), &s("自动词｜他动词"), &s("t3"));
    assert_eq!(r, Ok(UpsertOutcome::ConflictResolved));
    let all = t.get_all_words();
    assert_eq!(all.len(), 1);
    assert_eq!(all[0].id, a.id);
    assert_eq!(all[0].pitch, "1");
    assert_eq!(all[0].part_of_speech, "自动词｜他动词");
    assert_eq!(all[0].analysis, "A");
    assert!(t.get_word_by_id(b.id).is_none());
    assert!(t.get_existing_word(&s("行く"), &s("いく"), &s("0")).is_none());
}

#[test]
fn correction_without_conflict_updates_in_place() {
    let mut t = WordTable::new();
    t.upsert(&item("雨", "あめ", "0", "名词", "rain"), &s("t1")).unwrap();
    let r = t.update_word_pitch_and_pos(1, &s("1"), &s("名词"), &s("t2"));
    assert_eq!(r, Ok(UpsertOutcome::UpdatedTags));
    let w = t.get_word_by_id(1).unwrap();
    assert_eq!(w.pitch, "1");
    assert_eq!(w.updated_at, Some(s("t2")));
}

#[test]
fn correction_of_missing_record_fails() {
    let mut t = WordTable::new();
    assert_eq!(t.update_word_pitch_and_pos(5, &s("1"), &s("名词"), &s("t")), Err(StoreError::NotFound(5)));
}

#[test]
fn lookups_by_word_and_reading() {
    let mut t = WordTable::new();
    t.upsert(&item("橋", "はし", "2", "名词", "bridge"), &s("t1")).unwrap();
    t.upsert(&item("箸", "はし", "1", "名词", "chopsticks"), &s("t1")).unwrap();
    assert!(t.check_word_exists(&s("橋"), &s("はし")));
    assert!(!t.check_word_exists(&s("端"), &s("はし")));
    let w = t.get_existing_word_by_word_kana(&s("箸"), &s("はし")).unwrap();
    assert_eq!(w.pitch, "1");
    let m = t.get_existing_word(&s("橋"), &s("はし"), &s("2")).unwrap();
    assert_eq!(m.parts_of_speech, vec![s("名词")]);
    assert!(t.get_existing_word(&s("橋"), &s("はし"), &s("1")).is_none());
}

#[test]
fn save_words_reports_each_outcome() {
    let mut t = WordTable::new();
    let items = vec![
        item("本", "ほん", "1", "名词", "book"),
        item("本", "ほん", "1", "名词", "book"),
        item("本", "ほん", "1", "名词｜量词", "book, counter"),
    ];
    let r = t.save_words(&items, &s("t")).unwrap();
    assert_eq!(r, vec![UpsertOutcome::Inserted, UpsertOutcome::Unchanged, UpsertOutcome::UpdatedTags]);
    assert_eq!(t.get_all_words().len(), 1);
}

#[test]
fn single_field_updates() {
    let mut t = WordTable::new();
    t.upsert(&item("水", "みず", "0", "名词", "water"), &s("t1")).unwrap();
    assert!(t.update_word_analysis(1, &s("<b>water</b>"), &s("t2")));
    assert!(t.update_word_part_of_speech(1, &s("名词｜代名词"), &s("t3")));
    assert!(!t.update_word_analysis(2, &s("x"), &s("t4")));
    let w = t.get_word_by_id(1).unwrap();
    assert_eq!(w.analysis, "<b>water</b>");
    assert_eq!(w.part_of_speech, "名词｜代名词");
    assert_eq!(w.updated_at, Some(s("t3")));
}

#[test]
fn upsert_decision_for_each_case() {
    let a = item("花", "はな", "2", "名词", "flower");
    assert_eq!(upsert_decision(&None, &a), UpsertOutcome::Inserted);
    let mut t = WordTable::new();
    t.upsert(&a, &s("t")).unwrap();
    let stored = t.get_word_by_id(1);
    assert_eq!(upsert_decision(&stored, &a), UpsertOutcome::Unchanged);
    let b = item("花", "はな", "2", "名词｜接头词", "flower");
    assert_eq!(upsert_decision(&stored, &b), UpsertOutcome::UpdatedTags);
}

#[test]
fn grammar_store_is_idempotent_and_updates_in_place() {
    let mut g = GrammarTable::new();
    let first = GrammarAnalysis { grammar: s("〜ている"), kana: s("ている"), analysis: s("old") };
    let other = GrammarAnalysis { grammar: s("〜てある"), kana: s("てある"), analysis: s("x") };
    let again = GrammarAnalysis { grammar: s("〜ている"), kana: s("ている"), analysis: s("old") };
    let changed = GrammarAnalysis { grammar: s("〜ている"), kana: s("ている"), analysis: s("new") };
    let r = g.save_grammar(&vec![first, other, again]).unwrap();
    assert_eq!(r, vec![UpsertOutcome::Inserted, UpsertOutcome::Inserted, UpsertOutcome::Unchanged]);
    let all = g.get_all_grammar();
    assert_eq!(all.len(), 2);
    assert_eq!(all[0].id, 1);
    assert_eq!(all[0].word, "〜ている");
    assert_eq!(g.put(&changed), Ok(UpsertOutcome::UpdatedTags));
    let all = g.get_all_grammar();
    assert_eq!(all.len(), 2);
    assert_eq!(all[0].id, 1);
    assert_eq!(all[0].analysis, "new");
    assert_eq!(all[1].word, "〜てある");
}

#[test]
fn grammar_decision_for_each_case() {
    let item = GrammarAnalysis { grammar: s("ので"), kana: s("ので"), analysis: s("因为") };
    assert_eq!(grammar_upsert_decision(&None, &item), UpsertOutcome::Inserted);
    let same = Some(JapaneseGrammar { id: 4, word: s("ので"), kana: s("ので"), analysis: s("因为") });
    assert_eq!(grammar_upsert_decision(&same, &item), UpsertOutcome::Unchanged);
    let other = Some(JapaneseGrammar { id: 4, word: s("ので"), kana: s("ので"), analysis: s("原因") });
    assert_eq!(grammar_upsert_decision(&other, &item), UpsertOutcome::UpdatedTags);
}

#[test]
fn correction_plan_for_each_case() {
    assert_eq!(correction_plan(3, &None), (None, UpsertOutcome::UpdatedTags));
    let mut t = WordTable::new();
    t.upsert(&item("行く", "いく", "1", "自动词", "B"), &s("t")).unwrap();
    let b = t.get_word_by_id(1);
    assert_eq!(correction_plan(3, &b), (Some(1), UpsertOutcome::ConflictResolved));
    assert_eq!(correction_plan(1, &b), (None, UpsertOutcome::UpdatedTags));
}

#[test]
fn saving_the_same_words_twice_changes_nothing() {
    let mut t = WordTable::new();
    let items = vec![
        item("行く", "いく", "0", "自动词", "go"),
        item("行く", "いく", "1", "他动词", "?"),
        item("本", "ほん", "1", "名词", "book"),
    ];
    let first = t.save_words(&items, &s("t1")).unwrap();
    assert_eq!(first, vec![UpsertOutcome::Inserted; 3]);
    let before = t.get_all_words();
    let second = t.save_words(&items, &s("t2")).unwrap();
    assert_eq!(second, vec![UpsertOutcome::Unchanged; 3]);
    let after = t.get_all_words();
    assert_eq!(after.len(), 3);
    for (a, b) in before.iter().zip(after.iter()) {
        assert_eq!(a.id, b.id);
        assert_eq!(a.updated_at, b.updated_at);
        assert_eq!(a.part_of_speech, b.part_of_speech);
    }
}

#[test]
fn saving_the_same_grammar_twice_keeps_ids() {
    let mut g = GrammarTable::new();
    let items = vec![
        GrammarAnalysis { grammar: s("〜ている"), kana: s("ている"), analysis: s("进行") },
        GrammarAnalysis { grammar: s("ので"), kana: s("ので"), analysis: s("因为") },
    ];
    assert_eq!(g.save_grammar(&items).unwrap(), vec![UpsertOutcome::Inserted; 2]);
    assert_eq!(g.save_grammar(&items).unwrap(), vec![UpsertOutcome::Unchanged; 2]);
    let all = g.get_all_grammar();
    assert_eq!(all.len(), 2);
    assert_eq!((all[0].id, all[1].id), (1, 2));
}
