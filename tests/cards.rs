use anki_creator::cards::{audio_file_name, grammar_card_line, grammar_card_lines, pitch_to_superscript, word_card_line, word_card_lines};
use anki_creator::models::{JapaneseGrammar, JapaneseWord};

#[test]
fn pitch_marks() {
    assert_eq!(pitch_to_superscript("0"), "⓪");
    assert_eq!(pitch_to_superscript("1"), "①");
    assert_eq!(pitch_to_superscript("9"), "⑨");
    assert_eq!(pitch_to_superscript("10"), "⑩");
    assert_eq!(pitch_to_superscript("15"), "⑮");
    assert_eq!(pitch_to_superscript("20"), "⑳");
    assert_eq!(pitch_to_superscript("21"), "21");
    assert_eq!(pitch_to_superscript("01"), "01");
    assert_eq!(pitch_to_superscript("obi"), "obi");
    assert_eq!(pitch_to_superscript(""), "");
}

#[test]
fn audio_file_names() {
    assert_eq!(audio_file_name(12), "japanese_word_12.wav");
}

fn word(id: i64, w: &str, kana: &str, pitch: &str, pos: &str, analysis: &str) -> JapaneseWord {
    JapaneseWord {
        id,
        word: w.to_string(),
        kana: kana.to_string(),
        pitch: pitch.to_string(),
        part_of_speech: pos.to_string(),
        analysis: analysis.to_string(),
        updated_at: None,
    }
}

#[test]
fn word_card_with_kanji() {
    let w = word(3, "帯", "おび", "1", "名词｜量词", "say \"obi\"");
    assert_eq!(
        word_card_line(&w),
        "3:\"<div style=\"\"font-size: 20px; font-weight: bold;\"\">帯① [sound:japanese_word_3.wav]</div>\
<div style=\"\"font-size: 16px; margin-top: 2px;\"\">おび</div>\
<div style=\"\"font-size: 14px; color: #666; margin-top: 3px;\"\">名词·量词</div>\":\"say \"\"obi\"\"\":\"单词\""
    );
}

#[test]
fn word_card_kana_only() {
    let w = word(7, "すごい", "すごい", "2", "一类形容词", "great");
    assert_eq!(
        word_card_line(&w),
        "7:\"<div style=\"\"font-size: 20px; font-weight: bold;\"\">すごい② [sound:japanese_word_7.wav]</div>\
<div style=\"\"font-size: 14px; color: #666; margin-top: 5px;\"\">一类形容词</div>\":\"great\":\"单词\""
    );
    assert_eq!(word_card_lines(&vec![w.clone(), w]).len(), 2);
}

#[test]
fn grammar_cards() {
    let g = JapaneseGrammar { id: 5, word: "〜ている".to_string(), kana: "ている".to_string(), analysis: "进行".to_string() };
    assert_eq!(grammar_card_line(&g), "5:\"〜ている｜ている [sound:japanese_word_5.wav]\":\"进行\":\"语法\"");
    let h = JapaneseGrammar { id: 6, word: "ので".to_string(), kana: "ので".to_string(), analysis: "因为".to_string() };
    assert_eq!(grammar_card_line(&h), "6:\"ので [sound:japanese_word_6.wav]\":\"因为\":\"语法\"");
    assert_eq!(grammar_card_lines(&vec![g, h]).len(), 2);
}
