//! Flashcard text: pitch marks, audio references and one import line per record.
use vstd::prelude::*;
use crate::models::{JapaneseGrammar, JapaneseWord};
use crate::text::{append_replaced, append_signed_decimal, replaced, signed_decimal};

verus! {

/// The circled numbers from zero to twenty.
pub open spec fn circled_numbers() -> Seq<char> {
    seq![
        '⓪', '①', '②', '③', '④', '⑤', '⑥', '⑦', '⑧', '⑨', '⑩',
        '⑪', '⑫', '⑬', '⑭', '⑮', '⑯', '⑰', '⑱', '⑲', '⑳',
    ]
}

/// The value of decimal digit `c`.
pub open spec fn digit_value(c: char) -> Option<nat> {
    if '0' <= c && c <= '9' {
        Some((c as int - '0' as int) as nat)
    } else {
        None
    }
}

/// The number that `p` writes when it is one of "0" to "20", written without leading zero.
pub open spec fn small_pitch(p: Seq<char>) -> Option<nat> {
    if p.len() == 1 && digit_value(p[0]) is Some {
        digit_value(p[0])
    } else if p.len() == 2 && p[0] == '1' && digit_value(p[1]) is Some {
        Some(10 + digit_value(p[1])->0)
    } else if p.len() == 2 && p[0] == '2' && p[1] == '0' {
        Some(20)
    } else {
        None
    }
}

/// The mark of pitch `p`: its circled number when it is "0" to "20", `p` itself otherwise.
pub open spec fn superscript_of(p: Seq<char>) -> Seq<char> {
    match small_pitch(p) {
        Some(n) => seq![circled_numbers()[n as int]],
        None => p,
    }
}

fn digit_of(c: char) -> (r: Option<usize>)
    ensures
        match digit_value(c) {
            Some(d) => r == Some(d as usize),
            None => r is None,
        },
{
    if '0' <= c && c <= '9' {
        Some((c as u32 - '0' as u32) as usize)
    } else {
        None
    }
}

/// The pitch as a circled number from ⓪ to ⑳, or unchanged when it is not "0" to "20".
pub fn pitch_to_superscript(pitch: &str) -> (r: String)
    ensures
        r@ == superscript_of(pitch@),
{
    let len = pitch.unicode_len();
    let mut n: Option<usize> = None;
    if len == 1 {
        n = digit_of(pitch.get_char(0));
    } else if len == 2 {
        let c0 = pitch.get_char(0);
        let c1 = pitch.get_char(1);
        if c0 == '1' {
            match digit_of(c1) {
                Some(d) => {
                    n = Some(10 + d);
                },
                None => {},
            }
        } else if c0 == '2' && c1 == '0' {
            n = Some(20);
        }
    }
    assert(n == match small_pitch(pitch@) {
        Some(v) => Some(v as usize),
        None => None::<usize>,
    });
    match n {
        Some(k) => {
            let table = "⓪①②③④⑤⑥⑦⑧⑨⑩⑪⑫⑬⑭⑮⑯⑰⑱⑲⑳";
            proof {
                reveal_strlit("⓪①②③④⑤⑥⑦⑧⑨⑩⑪⑫⑬⑭⑮⑯⑰⑱⑲⑳");
                assert(table@ =~= circled_numbers());
            }
            let r = String::from_str(table.substring_char(k, k + 1));
            assert(r@ =~= seq![circled_numbers()[k as int]]);
            r
        },
        None => String::from_str(pitch),
    }
}

/// The name of the audio file of record `id`.
pub open spec fn audio_file_name_spec(id: int) -> Seq<char> {
    "japanese_word_"@ + signed_decimal(id) + ".wav"@
}

/// The reference to the audio file of record `id` inside a card.
pub open spec fn audio_tag_spec(id: int) -> Seq<char> {
    "[sound:"@ + audio_file_name_spec(id) + "]"@
}

/// `s` in a quoted field: each `"` doubled.
pub open spec fn escaped(s: Seq<char>) -> Seq<char> {
    replaced(s, '"', "\"\""@)
}

/// The name of the audio file of record `id`.
pub fn audio_file_name(id: i64) -> (r: String)
    ensures
        r@ == audio_file_name_spec(id as int),
{
    let mut r = String::from_str("japanese_word_");
    append_signed_decimal(&mut r, id);
    r.append(".wav");
    r
}

fn append_audio_tag(out: &mut String, id: i64)
    ensures
        final(out)@ == old(out)@ + audio_tag_spec(id as int),
{
    out.append("[sound:");
    let name = audio_file_name(id);
    out.append(name.as_str());
    out.append("]");
    assert(final(out)@ =~= old(out)@ + audio_tag_spec(id as int));
}

/// The front of a word card: the word with its pitch mark and audio, the reading when it
/// differs from the word, and the labels joined by a middle dot.
pub open spec fn word_front(w: crate::models::WordRow) -> Seq<char> {
    let head = "<div style=\"font-size: 20px; font-weight: bold;\">"@ + w.word + superscript_of(w.pitch)
        + " "@ + audio_tag_spec(w.id);
    let labels = replaced(w.part_of_speech, '｜', "·"@);
    if w.word == w.kana {
        head + "</div><div style=\"font-size: 14px; color: #666; margin-top: 5px;\">"@ + labels
            + "</div>"@
    } else {
        head + "</div><div style=\"font-size: 16px; margin-top: 2px;\">"@ + w.kana
            + "</div><div style=\"font-size: 14px; color: #666; margin-top: 3px;\">"@ + labels
            + "</div>"@
    }
}

/// The import line of a word card: id, front, back and the tag 单词, separated by `:`.
pub open spec fn word_card_line_spec(w: crate::models::WordRow) -> Seq<char> {
    signed_decimal(w.id) + ":\""@ + escaped(word_front(w)) + "\":\""@ + escaped(w.analysis)
        + "\":\"单词\""@
}

/// The front of a word card.
pub fn word_card_front(w: &JapaneseWord) -> (r: String)
    ensures
        r@ == word_front(w@),
{
    let mut f = String::from_str("<div style=\"font-size: 20px; font-weight: bold;\">");
    f.append(w.word.as_str());
    let mark = pitch_to_superscript(w.pitch.as_str());
    f.append(mark.as_str());
    f.append(" ");
    append_audio_tag(&mut f, w.id);
    if w.word == w.kana {
        f.append("</div><div style=\"font-size: 14px; color: #666; margin-top: 5px;\">");
    } else {
        f.append("</div><div style=\"font-size: 16px; margin-top: 2px;\">");
        f.append(w.kana.as_str());
        f.append("</div><div style=\"font-size: 14px; color: #666; margin-top: 3px;\">");
    }
    append_replaced(&mut f, w.part_of_speech.as_str(), '｜', "·");
    f.append("</div>");
    assert(f@ =~= word_front(w@));
    f
}

/// The import line of a word card.
pub fn word_card_line(w: &JapaneseWord) -> (r: String)
    ensures
        r@ == word_card_line_spec(w@),
{
    let front = word_card_front(w);
    let mut line = String::new();
    append_signed_decimal(&mut line, w.id);
    line.append(":\"");
    append_replaced(&mut line, front.as_str(), '"', "\"\"");
    line.append("\":\"");
    append_replaced(&mut line, w.analysis.as_str(), '"', "\"\"");
    line.append("\":\"单词\"");
    assert(line@ =~= word_card_line_spec(w@));
    line
}

/// The front of a grammar card: the expression, its reading after a bar when it differs,
/// and the audio reference.
pub open spec fn grammar_front(id: int, word: Seq<char>, kana: Seq<char>) -> Seq<char> {
    let content = if word == kana {
        word
    } else {
        word + "｜"@ + kana
    };
    content + " "@ + audio_tag_spec(id)
}

/// The import line of a grammar card: id, front, back and the tag 语法.
pub open spec fn grammar_card_line_spec(id: int, word: Seq<char>, kana: Seq<char>, analysis: Seq<char>) -> Seq<char> {
    signed_decimal(id) + ":\""@ + escaped(grammar_front(id, word, kana)) + "\":\""@ + escaped(analysis)
        + "\":\"语法\""@
}

/// The import line of a grammar card.
pub fn grammar_card_line(g: &JapaneseGrammar) -> (r: String)
    ensures
        r@ == grammar_card_line_spec(g.id as int, g.word@, g.kana@, g.analysis@),
{
    let mut front = String::new();
    front.append(g.word.as_str());
    if g.word != g.kana {
        front.append("｜");
        front.append(g.kana.as_str());
    }
    front.append(" ");
    append_audio_tag(&mut front, g.id);
    assert(front@ =~= grammar_front(g.id as int, g.word@, g.kana@));
    let mut line = String::new();
    append_signed_decimal(&mut line, g.id);
    line.append(":\"");
    append_replaced(&mut line, front.as_str(), '"', "\"\"");
    line.append("\":\"");
    append_replaced(&mut line, g.analysis.as_str(), '"', "\"\"");
    line.append("\":\"语法\"");
    assert(line@ =~= grammar_card_line_spec(g.id as int, g.word@, g.kana@, g.analysis@));
    line
}

/// The import lines of all word cards, in order.
pub fn word_card_lines(words: &Vec<JapaneseWord>) -> (r: Vec<String>)
    ensures
        r@.len() == words@.len(),
        forall|i: int| 0 <= i < r@.len() ==> (#[trigger] r@[i])@ == word_card_line_spec(words@[i]@),
{
    let mut r: Vec<String> = Vec::new();
    let mut i: usize = 0;
    while i < words.len()
        invariant
            i <= words@.len(),
            r@.len() == i,
            forall|k: int| 0 <= k < i ==> (#[trigger] r@[k])@ == word_card_line_spec(words@[k]@),
        decreases words@.len() - i,
    {
        r.push(word_card_line(&words[i]));
        i += 1;
    }
    r
}

/// The import lines of all grammar cards, in order.
pub fn grammar_card_lines(items: &Vec<JapaneseGrammar>) -> (r: Vec<String>)
    ensures
        r@.len() == items@.len(),
        forall|i: int|
            0 <= i < r@.len() ==> (#[trigger] r@[i])@ == grammar_card_line_spec(
                items@[i].id as int,
                items@[i].word@,
                items@[i].kana@,
                items@[i].analysis@,
            ),
{
    let mut r: Vec<String> = Vec::new();
    let mut i: usize = 0;
    while i < items.len()
        invariant
            i <= items@.len(),
            r@.len() == i,
            forall|k: int|
                0 <= k < i ==> (#[trigger] r@[k])@ == grammar_card_line_spec(
                    items@[k].id as int,
                    items@[k].word@,
                    items@[k].kana@,
                    items@[k].analysis@,
                ),
        decreases items@.len() - i,
    {
        r.push(grammar_card_line(&items[i]));
        i += 1;
    }
    r
}

} // verus!
