//! The word relation: one record per identity `(word, kana, pitch)`, with insert-or-update
//! and the correction of a record's pitch.
use vstd::prelude::*;
use crate::error::StoreError;
use crate::models::{AnalysisRow, GrammarAnalysis, JapaneseGrammar, JapaneseWord, MergedWord, WordAnalysis, WordRow};

verus! {

/// What a write did to the relation.
#[derive(Debug, Clone, Copy, PartialEq, Eq)]
pub enum UpsertOutcome {
    /// A new record was added.
    Inserted,
    /// An existing record was changed in place (its tag set, analysis or pitch), keeping its id.
    UpdatedTags,
    /// The record already held these values; nothing was written.
    Unchanged,
    /// Another record held the target identity and was removed in favour of this one.
    ConflictResolved,
}

/// `r` has identity `(word, kana, pitch)`.
pub open spec fn has_identity(r: WordRow, word: Seq<char>, kana: Seq<char>, pitch: Seq<char>) -> bool {
    r.word == word && r.kana == kana && r.pitch == pitch
}

/// `r` has surface form `word` and reading `kana`, whatever its pitch.
pub open spec fn has_word_kana(r: WordRow, word: Seq<char>, kana: Seq<char>) -> bool {
    r.word == word && r.kana == kana
}

/// Ids rise strictly along the rows and stay below `next_id`; no two rows share an identity.
pub open spec fn rows_wf(rows: Seq<WordRow>, next_id: int) -> bool {
    &&& 1 <= next_id <= i64::MAX
    &&& forall|i: int| 0 <= i < rows.len() ==> 1 <= #[trigger] rows[i].id < next_id
    &&& forall|i: int, j: int| 0 <= i < j < rows.len() ==> rows[i].id < rows[j].id
    &&& forall|i: int, j: int|
        0 <= i < j < rows.len() ==> !has_identity(
            rows[i],
            rows[j].word,
            rows[j].kana,
            rows[j].pitch,
        )
}

/// The position of the row with identity `(word, kana, pitch)`, if any.
pub open spec fn identity_index(
    rows: Seq<WordRow>,
    word: Seq<char>,
    kana: Seq<char>,
    pitch: Seq<char>,
) -> Option<int> {
    if exists|i: int| 0 <= i < rows.len() && has_identity(rows[i], word, kana, pitch) {
        Some(choose|i: int| 0 <= i < rows.len() && has_identity(rows[i], word, kana, pitch))
    } else {
        None
    }
}

/// The position of the row with this id, if any.
pub open spec fn id_index(rows: Seq<WordRow>, id: i64) -> Option<int> {
    if exists|i: int| 0 <= i < rows.len() && rows[i].id == id {
        Some(choose|i: int| 0 <= i < rows.len() && rows[i].id == id)
    } else {
        None
    }
}

/// The record that storing `item` at `now` under `id` creates.
pub open spec fn new_row(id: int, item: AnalysisRow, now: Seq<char>) -> WordRow {
    WordRow {
        id,
        word: item.word,
        kana: item.kana,
        pitch: item.pitch,
        part_of_speech: item.part_of_speech,
        analysis: item.analysis,
        updated_at: Some(now),
    }
}

/// `r` with the tag set and analysis of `item`, changed at `now`.
pub open spec fn retagged(r: WordRow, item: AnalysisRow, now: Seq<char>) -> WordRow {
    WordRow {
        part_of_speech: item.part_of_speech,
        analysis: item.analysis,
        updated_at: Some(now),
        ..r
    }
}

/// The rows, next id and result after storing `item` at `now`: unchanged when its identity
/// holds the same tag set, the tag set and analysis replaced when it holds another, a new
/// record otherwise.
pub open spec fn upsert_effect(
    rows: Seq<WordRow>,
    next_id: int,
    item: AnalysisRow,
    now: Seq<char>,
) -> (Seq<WordRow>, int, Result<UpsertOutcome, StoreError>) {
    match identity_index(rows, item.word, item.kana, item.pitch) {
        Some(i) => if rows[i].part_of_speech == item.part_of_speech {
            (rows, next_id, Ok(UpsertOutcome::Unchanged))
        } else {
            (rows.update(i, retagged(rows[i], item, now)), next_id, Ok(UpsertOutcome::UpdatedTags))
        },
        None => if next_id < i64::MAX {
            (rows.push(new_row(next_id, item, now)), next_id + 1, Ok(UpsertOutcome::Inserted))
        } else {
            (rows, next_id, Err(StoreError::IdsExhausted))
        },
    }
}

/// `r` moved to pitch `pitch` with tag set `pos`, changed at `now`.
pub open spec fn repitched(r: WordRow, pitch: Seq<char>, pos: Seq<char>, now: Seq<char>) -> WordRow {
    WordRow { pitch, part_of_speech: pos, updated_at: Some(now), ..r }
}

/// The rows and result after moving the record `id` to pitch `pitch` with tag set `pos`: a
/// record of another id that already holds the target identity is removed first.
pub open spec fn correction_effect(
    rows: Seq<WordRow>,
    id: i64,
    pitch: Seq<char>,
    pos: Seq<char>,
    now: Seq<char>,
) -> (Seq<WordRow>, Result<UpsertOutcome, StoreError>) {
    match id_index(rows, id) {
        None => (rows, Err(StoreError::NotFound(id))),
        Some(c) => {
            let updated = rows.update(c, repitched(rows[c], pitch, pos, now));
            match identity_index(rows, rows[c].word, rows[c].kana, pitch) {
                Some(k) => if k != c {
                    (updated.remove(k), Ok(UpsertOutcome::ConflictResolved))
                } else {
                    (updated, Ok(UpsertOutcome::UpdatedTags))
                },
                None => (updated, Ok(UpsertOutcome::UpdatedTags)),
            }
        },
    }
}

/// The values of a sequence of stored words.
pub open spec fn word_rows(v: Seq<JapaneseWord>) -> Seq<WordRow> {
    v.map_values(|w: JapaneseWord| w@)
}

/// Changing fields other than id and identity keeps the rows well formed.
proof fn lemma_same_keys_wf(a: Seq<WordRow>, b: Seq<WordRow>, next_id: int)
    requires
        rows_wf(a, next_id),
        a.len() == b.len(),
        forall|k: int|
            0 <= k < a.len() ==> (#[trigger] b[k]).id == a[k].id && b[k].word == a[k].word
                && b[k].kana == a[k].kana && b[k].pitch == a[k].pitch,
    ensures
        rows_wf(b, next_id),
{
    assert forall|i: int, j: int| 0 <= i < j < b.len() implies !has_identity(
        b[i],
        b[j].word,
        b[j].kana,
        b[j].pitch,
    ) && b[i].id < b[j].id by {
        assert(!has_identity(a[i], a[j].word, a[j].kana, a[j].pitch));
        assert(a[i].id < a[j].id);
    }
    assert forall|i: int| 0 <= i < b.len() implies 1 <= #[trigger] b[i].id < next_id by {
        assert(1 <= a[i].id < next_id);
    }
}

/// Storing an item keeps the rows well formed.
pub proof fn lemma_upsert_wf(rows: Seq<WordRow>, next_id: int, item: AnalysisRow, now: Seq<char>)
    requires
        rows_wf(rows, next_id),
    ensures
        rows_wf(upsert_effect(rows, next_id, item, now).0, upsert_effect(rows, next_id, item, now).1),
{
    match identity_index(rows, item.word, item.kana, item.pitch) {
        Some(i) => {
            if rows[i].part_of_speech != item.part_of_speech {
                lemma_same_keys_wf(rows, rows.update(i, retagged(rows[i], item, now)), next_id);
            }
        },
        None => {
            if next_id < i64::MAX {
                let r = rows.push(new_row(next_id, item, now));
                assert forall|a: int, b: int| 0 <= a < b < r.len() implies !has_identity(
                    r[a],
                    r[b].word,
                    r[b].kana,
                    r[b].pitch,
                ) by {
                    if b == rows.len() {
                        assert(!has_identity(rows[a], item.word, item.kana, item.pitch));
                    } else {
                        assert(!has_identity(rows[a], rows[b].word, rows[b].kana, rows[b].pitch));
                    }
                }
            }
        },
    }
}

/// Storing an item keeps every row's position, id and identity, and leaves a row with the
/// item's identity and tag set when it succeeds.
pub proof fn lemma_upsert_keeps_rows(rows: Seq<WordRow>, next_id: int, item: AnalysisRow, now: Seq<char>)
    requires
        rows_wf(rows, next_id),
    ensures
        ({
            let r = upsert_effect(rows, next_id, item, now).0;
            &&& r.len() >= rows.len()
            &&& forall|k: int|
                0 <= k < rows.len() ==> (#[trigger] r[k]).id == rows[k].id && r[k].word == rows[k].word
                    && r[k].kana == rows[k].kana && r[k].pitch == rows[k].pitch
            &&& forall|k: int|
                0 <= k < rows.len() && !has_identity(rows[k], item.word, item.kana, item.pitch) ==> #[trigger] r[k]
                    == rows[k]
            &&& upsert_effect(rows, next_id, item, now).2 is Ok ==> exists|j: int|
                0 <= j < r.len() && has_identity(r[j], item.word, item.kana, item.pitch)
                    && r[j].part_of_speech == item.part_of_speech
        }),
{
    match identity_index(rows, item.word, item.kana, item.pitch) {
        Some(i) => {
            let r = upsert_effect(rows, next_id, item, now).0;
            assert(has_identity(r[i], item.word, item.kana, item.pitch));
        },
        None => {
            if next_id < i64::MAX {
                let r = upsert_effect(rows, next_id, item, now).0;
                assert(has_identity(r[rows.len() as int], item.word, item.kana, item.pitch));
            }
        },
    }
}

/// In well-formed rows the row holding an identity is the one that `identity_index` names.
pub proof fn lemma_identity_index_unique(rows: Seq<WordRow>, next_id: int, j: int, word: Seq<char>, kana: Seq<char>, pitch: Seq<char>)
    requires
        rows_wf(rows, next_id),
        0 <= j < rows.len(),
        has_identity(rows[j], word, kana, pitch),
    ensures
        identity_index(rows, word, kana, pitch) == Some(j),
{
    let c = choose|i: int| 0 <= i < rows.len() && has_identity(rows[i], word, kana, pitch);
    if c < j {
        assert(!has_identity(rows[c], rows[j].word, rows[j].kana, rows[j].pitch));
    } else if c > j {
        assert(!has_identity(rows[j], rows[c].word, rows[c].kana, rows[c].pitch));
    }
}

/// Storing the same item twice: the second store reports `Unchanged` and leaves every record,
/// timestamps included, as the first store left it.
pub proof fn lemma_upsert_idempotent(
    rows: Seq<WordRow>,
    next_id: int,
    item: AnalysisRow,
    now1: Seq<char>,
    now2: Seq<char>,
)
    requires
        rows_wf(rows, next_id),
        upsert_effect(rows, next_id, item, now1).2 is Ok,
    ensures
        ({
            let (r1, n1, _) = upsert_effect(rows, next_id, item, now1);
            upsert_effect(r1, n1, item, now2) == (r1, n1, Ok::<UpsertOutcome, StoreError>(
                UpsertOutcome::Unchanged,
            ))
        }),
{
    let (r1, n1, _) = upsert_effect(rows, next_id, item, now1);
    lemma_upsert_wf(rows, next_id, item, now1);
    lemma_upsert_keeps_rows(rows, next_id, item, now1);
    let j = choose|j: int|
        0 <= j < r1.len() && has_identity(r1[j], item.word, item.kana, item.pitch)
            && r1[j].part_of_speech == item.part_of_speech;
    lemma_identity_index_unique(r1, n1, j, item.word, item.kana, item.pitch);
}

/// Two items that differ only in pitch, stored one after the other, stand as two distinct
/// records.
pub proof fn lemma_pitch_variants_distinct(
    rows: Seq<WordRow>,
    next_id: int,
    a: AnalysisRow,
    b: AnalysisRow,
    now_a: Seq<char>,
    now_b: Seq<char>,
)
    requires
        rows_wf(rows, next_id),
        a.word == b.word,
        a.kana == b.kana,
        a.pitch != b.pitch,
        upsert_effect(rows, next_id, a, now_a).2 is Ok,
        ({
            let (r1, n1, _) = upsert_effect(rows, next_id, a, now_a);
            upsert_effect(r1, n1, b, now_b).2 is Ok
        }),
    ensures
        ({
            let (r1, n1, _) = upsert_effect(rows, next_id, a, now_a);
            let r2 = upsert_effect(r1, n1, b, now_b).0;
            exists|i: int, j: int|
                0 <= i < r2.len() && 0 <= j < r2.len() && i != j && has_identity(
                    r2[i],
                    a.word,
                    a.kana,
                    a.pitch,
                ) && has_identity(r2[j], b.word, b.kana, b.pitch)
        }),
{
    let (r1, n1, _) = upsert_effect(rows, next_id, a, now_a);
    lemma_upsert_wf(rows, next_id, a, now_a);
    lemma_upsert_keeps_rows(rows, next_id, a, now_a);
    let i = choose|j: int|
        0 <= j < r1.len() && has_identity(r1[j], a.word, a.kana, a.pitch)
            && r1[j].part_of_speech == a.part_of_speech;
    lemma_upsert_keeps_rows(r1, n1, b, now_b);
    let r2 = upsert_effect(r1, n1, b, now_b).0;
    let j = choose|j: int|
        0 <= j < r2.len() && has_identity(r2[j], b.word, b.kana, b.pitch)
            && r2[j].part_of_speech == b.part_of_speech;
    assert(r2[i].pitch == a.pitch);
}

/// Correcting a record's pitch keeps the rows well formed.
pub proof fn lemma_correction_wf(
    rows: Seq<WordRow>,
    next_id: int,
    id: i64,
    pitch: Seq<char>,
    pos: Seq<char>,
    now: Seq<char>,
)
    requires
        rows_wf(rows, next_id),
    ensures
        rows_wf(correction_effect(rows, id, pitch, pos, now).0, next_id),
{
    match id_index(rows, id) {
        None => {},
        Some(c) => {
            let updated = rows.update(c, repitched(rows[c], pitch, pos, now));
            match identity_index(rows, rows[c].word, rows[c].kana, pitch) {
                Some(k) => {
                    if k != c {
                        let rs = updated.remove(k);
                        assert forall|i: int, j: int| 0 <= i < j < rs.len() implies !has_identity(
                            rs[i],
                            rs[j].word,
                            rs[j].kana,
                            rs[j].pitch,
                        ) && rs[i].id < rs[j].id by {
                            let oi = if i < k { i } else { i + 1 };
                            let oj = if j < k { j } else { j + 1 };
                            assert(rs[i] == updated[oi] && rs[j] == updated[oj]);
                            assert(rows[oi].id < rows[oj].id);
                            if oi != c && oj != c {
                                assert(!has_identity(rows[oi], rows[oj].word, rows[oj].kana, rows[oj].pitch));
                            } else if oi == c {
                                if oj < k {
                                    assert(!has_identity(rows[oj], rows[k].word, rows[k].kana, rows[k].pitch));
                                } else {
                                    assert(!has_identity(rows[k], rows[oj].word, rows[oj].kana, rows[oj].pitch));
                                }
                            } else {
                                if oi < k {
                                    assert(!has_identity(rows[oi], rows[k].word, rows[k].kana, rows[k].pitch));
                                } else {
                                    assert(!has_identity(rows[k], rows[oi].word, rows[oi].kana, rows[oi].pitch));
                                }
                            }
                        }
                        assert forall|i: int| 0 <= i < rs.len() implies 1 <= #[trigger] rs[i].id < next_id by {
                            let oi = if i < k { i } else { i + 1 };
                            assert(rs[i] == updated[oi]);
                            assert(1 <= rows[oi].id < next_id);
                        }
                    } else {
                        lemma_same_keys_wf(rows, updated, next_id);
                    }
                },
                None => {
                    let rs = updated;
                    assert forall|i: int, j: int| 0 <= i < j < rs.len() implies !has_identity(
                        rs[i],
                        rs[j].word,
                        rs[j].kana,
                        rs[j].pitch,
                    ) && rs[i].id < rs[j].id by {
                        assert(rows[i].id < rows[j].id);
                        if i != c && j != c {
                            assert(!has_identity(rows[i], rows[j].word, rows[j].kana, rows[j].pitch));
                        } else if i == c {
                            assert(!has_identity(rows[j], rows[c].word, rows[c].kana, pitch));
                        } else {
                            assert(!has_identity(rows[i], rows[c].word, rows[c].kana, pitch));
                        }
                    }
                    assert forall|i: int| 0 <= i < rs.len() implies 1 <= #[trigger] rs[i].id < next_id by {
                        assert(1 <= rows[i].id < next_id);
                    }
                },
            }
        },
    }
}

/// Correcting the pitch of an existing record succeeds, and afterwards exactly one record
/// holds the target identity: the corrected one, with the requested tag set. A record of
/// another id that held that identity before is gone.
pub proof fn lemma_correction_resolves(
    rows: Seq<WordRow>,
    next_id: int,
    id: i64,
    pitch: Seq<char>,
    pos: Seq<char>,
    now: Seq<char>,
)
    requires
        rows_wf(rows, next_id),
        id_index(rows, id) is Some,
    ensures
        ({
            let c = id_index(rows, id)->0;
            let (r, res) = correction_effect(rows, id, pitch, pos, now);
            &&& res is Ok
            &&& exists|j: int|
                0 <= j < r.len() && r[j].id == id && r[j].part_of_speech == pos && has_identity(
                    r[j],
                    rows[c].word,
                    rows[c].kana,
                    pitch,
                ) && forall|m: int|
                    0 <= m < r.len() && has_identity(#[trigger] r[m], rows[c].word, rows[c].kana, pitch)
                        ==> m == j
            &&& forall|k: int|
                0 <= k < rows.len() && k != c && has_identity(rows[k], rows[c].word, rows[c].kana, pitch)
                    ==> forall|m: int| 0 <= m < r.len() ==> (#[trigger] r[m]).id != rows[k].id
        }),
{
    let c = id_index(rows, id)->0;
    let (r, res) = correction_effect(rows, id, pitch, pos, now);
    lemma_correction_wf(rows, next_id, id, pitch, pos, now);
    let updated = rows.update(c, repitched(rows[c], pitch, pos, now));
    let w = rows[c].word;
    let kn = rows[c].kana;
    let j = match identity_index(rows, w, kn, pitch) {
        Some(k) => if k != c && k < c { c - 1 } else { c },
        None => c,
    };
    assert(r[j] == updated[c]);
    assert forall|m: int| 0 <= m < r.len() && has_identity(#[trigger] r[m], w, kn, pitch) implies m == j by {
        if m < j {
            assert(!has_identity(r[m], r[j].word, r[j].kana, r[j].pitch));
        } else if m > j {
            assert(!has_identity(r[j], r[m].word, r[m].kana, r[m].pitch));
        }
    }
    assert forall|k: int| 0 <= k < rows.len() && k != c && has_identity(rows[k], w, kn, pitch) implies
        forall|m: int| 0 <= m < r.len() ==> (#[trigger] r[m]).id != rows[k].id by {
        lemma_identity_index_unique(rows, next_id, k, w, kn, pitch);
        assert forall|m: int| 0 <= m < r.len() implies (#[trigger] r[m]).id != rows[k].id by {
            let om = if m < k { m } else { m + 1 };
            assert(r[m] == updated[om]);
            if om < k {
                assert(rows[om].id < rows[k].id);
            } else {
                assert(rows[k].id < rows[om].id);
            }
        }
    }
}

/// The write that storing `item` needs, given the record stored under its identity: insert
/// when there is none, replace tag set and analysis when its tag set differs, nothing
/// otherwise.
pub fn upsert_decision(existing: &Option<JapaneseWord>, item: &WordAnalysis) -> (r: UpsertOutcome)
    ensures
        match existing {
            None => r == UpsertOutcome::Inserted,
            Some(e) => if e.part_of_speech@ == item.part_of_speech@ {
                r == UpsertOutcome::Unchanged
            } else {
                r == UpsertOutcome::UpdatedTags
            },
        },
{
    match existing {
        None => UpsertOutcome::Inserted,
        Some(e) => if e.part_of_speech == item.part_of_speech {
            UpsertOutcome::Unchanged
        } else {
            UpsertOutcome::UpdatedTags
        },
    }
}

/// The writes that moving record `id` to a new pitch needs, given the record that already
/// holds the target identity, if any: a record of another id is deleted first and the move
/// resolves a conflict; otherwise the record is updated in place.
pub fn correction_plan(id: i64, conflict: &Option<JapaneseWord>) -> (r: (Option<i64>, UpsertOutcome))
    ensures
        match conflict {
            Some(c) => if c.id != id {
                r == (Some(c.id), UpsertOutcome::ConflictResolved)
            } else {
                r == (None::<i64>, UpsertOutcome::UpdatedTags)
            },
            None => r == (None::<i64>, UpsertOutcome::UpdatedTags),
        },
{
    match conflict {
        Some(c) => if c.id != id {
            (Some(c.id), UpsertOutcome::ConflictResolved)
        } else {
            (None, UpsertOutcome::UpdatedTags)
        },
        None => (None, UpsertOutcome::UpdatedTags),
    }
}

/// A copy of a stored word.
pub fn copy_word(w: &JapaneseWord) -> (r: JapaneseWord)
    ensures
        r@ == w@,
{
    let updated_at = match &w.updated_at {
        Some(t) => Some(t.clone()),
        None => None,
    };
    JapaneseWord {
        id: w.id,
        word: w.word.clone(),
        kana: w.kana.clone(),
        pitch: w.pitch.clone(),
        part_of_speech: w.part_of_speech.clone(),
        analysis: w.analysis.clone(),
        updated_at,
    }
}

/// The word relation held in memory: a model of the stored words on which the storage
/// rules are proved. A program that keeps its rows elsewhere (a database) takes the same
/// decisions from `upsert_decision` and `correction_plan`; what is proved of this model holds
/// of it as far as it carries those decisions out.
pub struct WordTable {
    rows: Vec<JapaneseWord>,
    next_id: i64,
}

impl WordTable {
    /// The records, in order of id.
    pub closed spec fn rows(&self) -> Seq<WordRow> {
        word_rows(self.rows@)
    }

    /// The id the next new record gets.
    pub closed spec fn next_id(&self) -> int {
        self.next_id as int
    }

    pub open spec fn wf(&self) -> bool {
        rows_wf(self.rows(), self.next_id())
    }

    /// An empty relation.
    pub fn new() -> (t: WordTable)
        ensures
            t.wf(),
            t.rows() == Seq::<WordRow>::empty(),
            t.next_id() == 1,
    {
        let t = WordTable { rows: Vec::new(), next_id: 1 };
        assert(t.rows() =~= Seq::<WordRow>::empty());
        t
    }

    /// The position of the record with identity `(word, kana, pitch)`.
    fn find_identity(&self, word: &String, kana: &String, pitch: &String) -> (r: Option<usize>)
        requires
            self.wf(),
        ensures
            match r {
                Some(i) => identity_index(self.rows(), word@, kana@, pitch@) == Some(i as int),
                None => identity_index(self.rows(), word@, kana@, pitch@) is None,
            },
    {
        let mut i: usize = 0;
        while i < self.rows.len()
            invariant
                self.wf(),
                i <= self.rows@.len(),
                forall|k: int| 0 <= k < i ==> !has_identity(#[trigger] self.rows()[k], word@, kana@, pitch@),
            decreases self.rows@.len() - i,
        {
            let w = &self.rows[i];
            if w.word == *word && w.kana == *kana && w.pitch == *pitch {
                assert(has_identity(self.rows()[i as int], word@, kana@, pitch@));
                let ghost c = choose|j: int| 0 <= j < self.rows().len() && has_identity(self.rows()[j], word@, kana@, pitch@);
                assert(c == i) by {
                    if c < i {
                    } else if c > i {
                        assert(!has_identity(self.rows()[i as int], self.rows()[c].word, self.rows()[c].kana, self.rows()[c].pitch));
                    }
                }
                return Some(i);
            }
            i += 1;
        }
        None
    }

    /// The position of the record with this id.
    fn find_id(&self, id: i64) -> (r: Option<usize>)
        requires
            self.wf(),
        ensures
            match r {
                Some(i) => id_index(self.rows(), id) == Some(i as int),
                None => id_index(self.rows(), id) is None,
            },
    {
        let mut i: usize = 0;
        while i < self.rows.len()
            invariant
                self.wf(),
                i <= self.rows@.len(),
                forall|k: int| 0 <= k < i ==> #[trigger] self.rows()[k].id != id,
            decreases self.rows@.len() - i,
        {
            if self.rows[i].id == id {
                assert(self.rows()[i as int].id == id);
                let ghost c = choose|j: int| 0 <= j < self.rows().len() && self.rows()[j].id == id;
                assert(c == i) by {
                    if c > i {
                        assert(self.rows()[i as int].id < self.rows()[c].id);
                    }
                }
                return Some(i);
            }
            i += 1;
        }
        None
    }

    /// Stores `item` at time `now`: inserts a record for a new identity, replaces tag set
    /// and analysis of an existing one whose tag set differs, and leaves it alone otherwise.
    pub fn upsert(&mut self, item: &WordAnalysis, now: &String) -> (r: Result<UpsertOutcome, StoreError>)
        requires
            old(self).wf(),
        ensures
            final(self).wf(),
            (final(self).rows(), final(self).next_id(), r) == upsert_effect(
                old(self).rows(),
                old(self).next_id(),
                item@,
                now@,
            ),
    {
        match self.find_identity(&item.word, &item.kana, &item.pitch) {
            Some(i) => {
                let existing = Some(copy_word(&self.rows[i]));
                match upsert_decision(&existing, item) {
                    UpsertOutcome::Unchanged => Ok(UpsertOutcome::Unchanged),
                    _ => {
                        let old_row = &self.rows[i];
                        let w = JapaneseWord {
                            id: old_row.id,
                            word: old_row.word.clone(),
                            kana: old_row.kana.clone(),
                            pitch: old_row.pitch.clone(),
                            part_of_speech: item.part_of_speech.clone(),
                            analysis: item.analysis.clone(),
                            updated_at: Some(now.clone()),
                        };
                        let ghost before = self.rows();
                        self.rows.set(i, w);
                        assert(self.rows() =~= before.update(i as int, retagged(before[i as int], item@, now@)));
                        Ok(UpsertOutcome::UpdatedTags)
                    },
                }
            },
            None => {
                if self.next_id < i64::MAX {
                    let w = JapaneseWord {
                        id: self.next_id,
                        word: item.word.clone(),
                        kana: item.kana.clone(),
                        pitch: item.pitch.clone(),
                        part_of_speech: item.part_of_speech.clone(),
                        analysis: item.analysis.clone(),
                        updated_at: Some(now.clone()),
                    };
                    let ghost before = self.rows();
                    self.rows.push(w);
                    self.next_id = self.next_id + 1;
                    assert(self.rows() =~= before.push(new_row(self.next_id - 1, item@, now@)));
                    Ok(UpsertOutcome::Inserted)
                } else {
                    Err(StoreError::IdsExhausted)
                }
            },
        }
    }
}

impl WordTable {
    /// Moves the record `id` to pitch `new_pitch` with tag set `new_pos`, at `now`. When
    /// another record already holds `(word, kana, new_pitch)` it is considered stale and
    /// removed, so that the corrected record takes its place.
    pub fn update_word_pitch_and_pos(
        &mut self,
        id: i64,
        new_pitch: &String,
        new_pos: &String,
        now: &String,
    ) -> (r: Result<UpsertOutcome, StoreError>)
        requires
            old(self).wf(),
        ensures
            final(self).wf(),
            final(self).next_id() == old(self).next_id(),
            (final(self).rows(), r) == correction_effect(
                old(self).rows(),
                id,
                new_pitch@,
                new_pos@,
                now@,
            ),
    {
        let c = match self.find_id(id) {
            Some(c) => c,
            None => {
                return Err(StoreError::NotFound(id));
            },
        };
        let ghost rows0 = self.rows();
        let conflict_at = self.find_identity(&self.rows[c].word, &self.rows[c].kana, new_pitch);
        let conflict = match conflict_at {
            Some(k) => Some(copy_word(&self.rows[k])),
            None => None,
        };
        let (remove, outcome) = correction_plan(id, &conflict);
        proof {
            if let Some(k) = conflict_at {
                assert(rows0[k as int].id == id <==> k == c) by {
                    if (k as int) < (c as int) {
                        assert(rows0[k as int].id < rows0[c as int].id);
                    } else if (k as int) > (c as int) {
                        assert(rows0[c as int].id < rows0[k as int].id);
                    }
                }
            }
            lemma_correction_wf(rows0, self.next_id(), id, new_pitch@, new_pos@, now@);
        }
        let cur = &self.rows[c];
        let w = JapaneseWord {
            id: cur.id,
            word: cur.word.clone(),
            kana: cur.kana.clone(),
            pitch: new_pitch.clone(),
            part_of_speech: new_pos.clone(),
            analysis: cur.analysis.clone(),
            updated_at: Some(now.clone()),
        };
        self.rows.set(c, w);
        let ghost updated = rows0.update(c as int, repitched(rows0[c as int], new_pitch@, new_pos@, now@));
        assert(self.rows() =~= updated);
        match (conflict_at, remove) {
            (Some(k), Some(_)) => {
                self.rows.remove(k);
                assert(self.rows() =~= updated.remove(k as int));
            },
            _ => {},
        }
        Ok(outcome)
    }
}

/// The rows, next id and result after storing `items` in order at `now`; the first failure
/// stops the run, and the outcomes of the stored items are listed in order.
pub open spec fn save_effect(
    rows: Seq<WordRow>,
    next_id: int,
    items: Seq<AnalysisRow>,
    now: Seq<char>,
) -> (Seq<WordRow>, int, Result<Seq<UpsertOutcome>, StoreError>)
    decreases items.len(),
{
    if items.len() == 0 {
        (rows, next_id, Ok(Seq::empty()))
    } else {
        let (r0, n0, res0) = save_effect(rows, next_id, items.drop_last(), now);
        match res0 {
            Err(e) => (r0, n0, Err(e)),
            Ok(outs) => {
                let (r1, n1, o) = upsert_effect(r0, n0, items.last(), now);
                match o {
                    Ok(x) => (r1, n1, Ok(outs.push(x))),
                    Err(e) => (r1, n1, Err(e)),
                }
            },
        }
    }
}

/// Once a run of stores has failed, storing more items changes nothing.
proof fn lemma_save_stops(
    rows: Seq<WordRow>,
    next_id: int,
    items: Seq<AnalysisRow>,
    now: Seq<char>,
    m: int,
)
    requires
        0 <= m <= items.len(),
        save_effect(rows, next_id, items.subrange(0, m), now).2 is Err,
    ensures
        save_effect(rows, next_id, items, now) == save_effect(rows, next_id, items.subrange(0, m), now),
    decreases items.len(),
{
    if m == items.len() {
        assert(items.subrange(0, m) =~= items);
    } else {
        assert(items.drop_last().subrange(0, m) =~= items.subrange(0, m));
        lemma_save_stops(rows, next_id, items.drop_last(), now, m);
    }
}

/// No two items share an identity `(word, kana, pitch)`.
pub open spec fn distinct_identities(items: Seq<AnalysisRow>) -> bool {
    forall|i: int, j: int|
        0 <= i < j < items.len() ==> !(items[i].word == items[j].word && items[i].kana == items[j].kana
            && items[i].pitch == items[j].pitch)
}

/// Some row has the identity and the tag set of `x`.
pub open spec fn holds_item(rows: Seq<WordRow>, x: AnalysisRow) -> bool {
    exists|j: int|
        0 <= j < rows.len() && has_identity(rows[j], x.word, x.kana, x.pitch) && rows[j].part_of_speech
            == x.part_of_speech
}

/// `n` outcomes, all `Unchanged`.
pub open spec fn unchanged_outcomes(n: nat) -> Seq<UpsertOutcome> {
    Seq::new(n, |i: int| UpsertOutcome::Unchanged)
}

/// A run of stores that succeeds on items of distinct identities leaves the rows well formed,
/// each item's identity holding its tag set.
pub proof fn lemma_save_holds(rows: Seq<WordRow>, next_id: int, items: Seq<AnalysisRow>, now: Seq<char>)
    requires
        rows_wf(rows, next_id),
        distinct_identities(items),
        save_effect(rows, next_id, items, now).2 is Ok,
    ensures
        rows_wf(save_effect(rows, next_id, items, now).0, save_effect(rows, next_id, items, now).1),
        forall|k: int|
            0 <= k < items.len() ==> holds_item(save_effect(rows, next_id, items, now).0, #[trigger] items[k]),
    decreases items.len(),
{
    if items.len() > 0 {
        let prefix = items.drop_last();
        let x = items.last();
        let (r0, n0, res0) = save_effect(rows, next_id, prefix, now);
        assert(res0 is Ok);
        assert forall|i: int, j: int| 0 <= i < j < prefix.len() implies !(prefix[i].word == prefix[j].word
            && prefix[i].kana == prefix[j].kana && prefix[i].pitch == prefix[j].pitch) by {
            assert(prefix[i] == items[i] && prefix[j] == items[j]);
        }
        lemma_save_holds(rows, next_id, prefix, now);
        lemma_upsert_wf(r0, n0, x, now);
        lemma_upsert_keeps_rows(r0, n0, x, now);
        let r1 = upsert_effect(r0, n0, x, now).0;
        assert forall|k: int| 0 <= k < items.len() implies holds_item(r1, #[trigger] items[k]) by {
            if k < items.len() - 1 {
                assert(prefix[k] == items[k]);
                assert(holds_item(r0, prefix[k]));
                let j = choose|j: int|
                    0 <= j < r0.len() && has_identity(r0[j], prefix[k].word, prefix[k].kana, prefix[k].pitch)
                        && r0[j].part_of_speech == prefix[k].part_of_speech;
                assert(!(items[k].word == items[items.len() - 1].word && items[k].kana == items[items.len()
                    - 1].kana && items[k].pitch == items[items.len() - 1].pitch));
                assert(r1[j] == r0[j]);
            } else {
                assert(items[k] == x);
            }
        }
    }
}

proof fn lemma_save_unchanged(rows: Seq<WordRow>, next_id: int, items: Seq<AnalysisRow>, now: Seq<char>)
    requires
        rows_wf(rows, next_id),
        forall|k: int| 0 <= k < items.len() ==> holds_item(rows, #[trigger] items[k]),
    ensures
        save_effect(rows, next_id, items, now) == (rows, next_id, Ok::<Seq<UpsertOutcome>, StoreError>(
            unchanged_outcomes(items.len()),
        )),
    decreases items.len(),
{
    if items.len() > 0 {
        let prefix = items.drop_last();
        let x = items.last();
        assert forall|k: int| 0 <= k < prefix.len() implies holds_item(rows, #[trigger] prefix[k]) by {
            assert(prefix[k] == items[k]);
        }
        lemma_save_unchanged(rows, next_id, prefix, now);
        assert(holds_item(rows, items[items.len() - 1]));
        let j = choose|j: int|
            0 <= j < rows.len() && has_identity(rows[j], x.word, x.kana, x.pitch) && rows[j].part_of_speech
                == x.part_of_speech;
        lemma_identity_index_unique(rows, next_id, j, x.word, x.kana, x.pitch);
        assert(upsert_effect(rows, next_id, x, now) == (rows, next_id, Ok::<UpsertOutcome, StoreError>(
            UpsertOutcome::Unchanged,
        )));
        assert(unchanged_outcomes(prefix.len()).push(UpsertOutcome::Unchanged) =~= unchanged_outcomes(items.len()));
    } else {
        assert(unchanged_outcomes(0) =~= Seq::<UpsertOutcome>::empty());
    }
}

/// Saving the same list of words twice, no two of them sharing an identity: the second save
/// reports `Unchanged` for every word and leaves every record, ids and timestamps included,
/// as the first save left it.
pub proof fn lemma_save_words_idempotent(
    rows: Seq<WordRow>,
    next_id: int,
    items: Seq<AnalysisRow>,
    now1: Seq<char>,
    now2: Seq<char>,
)
    requires
        rows_wf(rows, next_id),
        distinct_identities(items),
        save_effect(rows, next_id, items, now1).2 is Ok,
    ensures
        ({
            let (r1, n1, _) = save_effect(rows, next_id, items, now1);
            save_effect(r1, n1, items, now2) == (r1, n1, Ok::<Seq<UpsertOutcome>, StoreError>(
                unchanged_outcomes(items.len()),
            ))
        }),
{
    let (r1, n1, _) = save_effect(rows, next_id, items, now1);
    lemma_save_holds(rows, next_id, items, now1);
    lemma_save_unchanged(r1, n1, items, now2);
}

/// The records that storing `items`, none of them stored yet, adds from id `next_id` on.
pub open spec fn fresh_rows(next_id: int, items: Seq<AnalysisRow>, now: Seq<char>) -> Seq<WordRow> {
    Seq::new(items.len(), |j: int| new_row(next_id + j, items[j], now))
}

/// `n` outcomes, all `Inserted`.
pub open spec fn inserted_outcomes(n: nat) -> Seq<UpsertOutcome> {
    Seq::new(n, |i: int| UpsertOutcome::Inserted)
}

/// Saving words whose identities are neither stored nor shared appends one new record per
/// word, in order, with consecutive ids.
pub proof fn lemma_save_fresh(rows: Seq<WordRow>, next_id: int, items: Seq<AnalysisRow>, now: Seq<char>)
    requires
        rows_wf(rows, next_id),
        distinct_identities(items),
        forall|k: int|
            0 <= k < items.len() ==> identity_index(rows, (#[trigger] items[k]).word, items[k].kana, items[k].pitch)
                is None,
        next_id + items.len() <= i64::MAX,
    ensures
        save_effect(rows, next_id, items, now) == (
            rows + fresh_rows(next_id, items, now),
            next_id + items.len(),
            Ok::<Seq<UpsertOutcome>, StoreError>(inserted_outcomes(items.len())),
        ),
    decreases items.len(),
{
    if items.len() == 0 {
        assert(rows + fresh_rows(next_id, items, now) =~= rows);
        assert(inserted_outcomes(0) =~= Seq::<UpsertOutcome>::empty());
    } else {
        let prefix = items.drop_last();
        let x = items.last();
        let m = prefix.len();
        assert forall|i: int, j: int| 0 <= i < j < prefix.len() implies !(prefix[i].word == prefix[j].word
            && prefix[i].kana == prefix[j].kana && prefix[i].pitch == prefix[j].pitch) by {
            assert(prefix[i] == items[i] && prefix[j] == items[j]);
        }
        assert forall|k: int| 0 <= k < prefix.len() implies identity_index(rows, (#[trigger] prefix[k]).word, prefix[k].kana, prefix[k].pitch) is None by {
            assert(prefix[k] == items[k]);
        }
        lemma_save_fresh(rows, next_id, prefix, now);
        let r0 = rows + fresh_rows(next_id, prefix, now);
        assert(identity_index(rows, items[m as int].word, items[m as int].kana, items[m as int].pitch) is None);
        assert forall|i: int| 0 <= i < r0.len() implies !has_identity(r0[i], x.word, x.kana, x.pitch) by {
            if i < rows.len() {
                assert(r0[i] == rows[i]);
            } else {
                assert(r0[i] == new_row(next_id + (i - rows.len()), prefix[i - rows.len()], now));
                assert(prefix[i - rows.len()] == items[i - rows.len()]);
            }
        }
        assert(r0.push(new_row(next_id + m, x, now)) =~= rows + fresh_rows(next_id, items, now));
        assert(inserted_outcomes(m).push(UpsertOutcome::Inserted) =~= inserted_outcomes(items.len()));
    }
}

/// The rows after writing each `(id, analysis)` of `updates` in turn at `now`; an id that
/// no record has writes nothing.
pub open spec fn analysis_update_effect(rows: Seq<WordRow>, updates: Seq<(i64, Seq<char>)>, now: Seq<char>) -> Seq<WordRow>
    decreases updates.len(),
{
    if updates.len() == 0 {
        rows
    } else {
        let r = analysis_update_effect(rows, updates.drop_last(), now);
        let (id, a) = updates.last();
        match id_index(r, id) {
            Some(c) => r.update(c, with_analysis(r[c], a, now)),
            None => r,
        }
    }
}

/// Writing analyses of distinct ids keeps every record's position, id and identity, and
/// leaves each record named by an update with that update's analysis.
pub proof fn lemma_analysis_updates(rows: Seq<WordRow>, next_id: int, updates: Seq<(i64, Seq<char>)>, now: Seq<char>)
    requires
        rows_wf(rows, next_id),
        forall|i: int, j: int| 0 <= i < j < updates.len() ==> updates[i].0 != updates[j].0,
    ensures
        ({
            let r = analysis_update_effect(rows, updates, now);
            &&& rows_wf(r, next_id)
            &&& r.len() == rows.len()
            &&& forall|k: int|
                0 <= k < rows.len() ==> (#[trigger] r[k]).id == rows[k].id && r[k].word == rows[k].word
                    && r[k].kana == rows[k].kana && r[k].pitch == rows[k].pitch
            &&& forall|u: int, c: int|
                0 <= u < updates.len() && 0 <= c < rows.len() && #[trigger] rows[c].id == #[trigger] updates[u].0 ==> r[c].analysis
                    == updates[u].1
        }),
    decreases updates.len(),
{
    if updates.len() > 0 {
        let p = updates.drop_last();
        assert forall|i: int, j: int| 0 <= i < j < p.len() implies p[i].0 != p[j].0 by {
            assert(p[i] == updates[i] && p[j] == updates[j]);
        }
        lemma_analysis_updates(rows, next_id, p, now);
        let r0 = analysis_update_effect(rows, p, now);
        let (id, a) = updates.last();
        let r = analysis_update_effect(rows, updates, now);
        match id_index(r0, id) {
            Some(c0) => {
                lemma_same_keys_wf(r0, r, next_id);
            },
            None => {},
        }
        assert forall|u: int, c: int|
            0 <= u < updates.len() && 0 <= c < rows.len() && #[trigger] rows[c].id == #[trigger] updates[u].0 implies r[c].analysis
                == updates[u].1 by {
            if u < updates.len() - 1 {
                assert(p[u] == updates[u]);
                assert(r0[c].analysis == p[u].1);
                assert(updates[u].0 != updates[updates.len() - 1].0);
                match id_index(r0, id) {
                    Some(c0) => {
                        assert(r0[c0].id == id);
                        assert(c0 != c);
                    },
                    None => {},
                }
            } else {
                assert(r0[c].id == id);
                let c0 = choose|i: int| 0 <= i < r0.len() && r0[i].id == id;
                assert(c0 == c) by {
                    if c0 < c {
                        assert(r0[c0].id < r0[c].id);
                    } else if c0 > c {
                        assert(r0[c].id < r0[c0].id);
                    }
                }
            }
        }
    }
}

/// The values of a sequence of analysed words.
pub open spec fn analysis_rows(v: Seq<WordAnalysis>) -> Seq<AnalysisRow> {
    v.map_values(|w: WordAnalysis| w@)
}

/// The value of a record with a new tag set, changed at `now`.
pub open spec fn with_pos(r: WordRow, pos: Seq<char>, now: Seq<char>) -> WordRow {
    WordRow { part_of_speech: pos, updated_at: Some(now), ..r }
}

/// The value of a record with a new analysis, changed at `now`.
pub open spec fn with_analysis(r: WordRow, analysis: Seq<char>, now: Seq<char>) -> WordRow {
    WordRow { analysis, updated_at: Some(now), ..r }
}

impl WordTable {
    /// Stores each item in turn (see `upsert`), stopping at the first failure.
    pub fn save_words(&mut self, words: &Vec<WordAnalysis>, now: &String) -> (r: Result<
        Vec<UpsertOutcome>,
        StoreError,
    >)
        requires
            old(self).wf(),
        ensures
            final(self).wf(),
            final(self).rows() == save_effect(old(self).rows(), old(self).next_id(), analysis_rows(words@), now@).0,
            final(self).next_id() == save_effect(old(self).rows(), old(self).next_id(), analysis_rows(words@), now@).1,
            match r {
                Ok(v) => save_effect(old(self).rows(), old(self).next_id(), analysis_rows(words@), now@).2
                    == Ok::<Seq<UpsertOutcome>, StoreError>(v@),
                Err(e) => save_effect(old(self).rows(), old(self).next_id(), analysis_rows(words@), now@).2
                    == Err::<Seq<UpsertOutcome>, StoreError>(e),
            },
    {
        let ghost rows0 = self.rows();
        let ghost next0 = self.next_id();
        let mut outcomes: Vec<UpsertOutcome> = Vec::new();
        let mut failure: Option<StoreError> = None;
        let mut i: usize = 0;
        while i < words.len() && failure.is_none()
            invariant
                self.wf(),
                i <= words@.len(),
                match failure {
                    None => save_effect(rows0, next0, analysis_rows(words@).subrange(0, i as int), now@)
                        == (self.rows(), self.next_id(), Ok::<Seq<UpsertOutcome>, StoreError>(outcomes@)),
                    Some(e) => save_effect(rows0, next0, analysis_rows(words@), now@) == (
                        self.rows(),
                        self.next_id(),
                        Err::<Seq<UpsertOutcome>, StoreError>(e),
                    ),
                },
            decreases words@.len() - i + (if failure is None { 1int } else { 0int }),
        {
            let ghost pre = analysis_rows(words@).subrange(0, i as int + 1);
            assert(pre.drop_last() =~= analysis_rows(words@).subrange(0, i as int));
            assert(pre.last() == words@[i as int]@);
            let res = self.upsert(&words[i], now);
            match res {
                Ok(o) => {
                    outcomes.push(o);
                    i += 1;
                },
                Err(e) => {
                    proof {
                        assert(save_effect(rows0, next0, pre, now@) == (
                            self.rows(),
                            self.next_id(),
                            Err::<Seq<UpsertOutcome>, StoreError>(e),
                        ));
                        lemma_save_stops(rows0, next0, analysis_rows(words@), now@, i as int + 1);
                    }
                    failure = Some(e);
                },
            }
        }
        match failure {
            Some(e) => Err(e),
            None => {
                assert(analysis_rows(words@).subrange(0, words@.len() as int) =~= analysis_rows(words@));
                Ok(outcomes)
            },
        }
    }

    /// Replaces the tag set of record `id` at `now`; false when there is no such record.
    pub fn update_word_part_of_speech(&mut self, id: i64, new_pos: &String, now: &String) -> (r: bool)
        requires
            old(self).wf(),
        ensures
            final(self).wf(),
            final(self).next_id() == old(self).next_id(),
            r == id_index(old(self).rows(), id) is Some,
            match id_index(old(self).rows(), id) {
                Some(c) => final(self).rows() == old(self).rows().update(
                    c,
                    with_pos(old(self).rows()[c], new_pos@, now@),
                ),
                None => final(self).rows() == old(self).rows(),
            },
    {
        match self.find_id(id) {
            Some(c) => {
                let ghost rows0 = self.rows();
                let cur = &self.rows[c];
                let w = JapaneseWord {
                    id: cur.id,
                    word: cur.word.clone(),
                    kana: cur.kana.clone(),
                    pitch: cur.pitch.clone(),
                    part_of_speech: new_pos.clone(),
                    analysis: cur.analysis.clone(),
                    updated_at: Some(now.clone()),
                };
                self.rows.set(c, w);
                assert(self.rows() =~= rows0.update(c as int, with_pos(rows0[c as int], new_pos@, now@)));
                proof {
                    lemma_same_keys_wf(rows0, self.rows(), self.next_id());
                }
                true
            },
            None => false,
        }
    }

    /// Replaces the analysis of record `id` at `now`; false when there is no such record.
    pub fn update_word_analysis(&mut self, id: i64, new_analysis: &String, now: &String) -> (r: bool)
        requires
            old(self).wf(),
        ensures
            final(self).wf(),
            final(self).next_id() == old(self).next_id(),
            r == id_index(old(self).rows(), id) is Some,
            match id_index(old(self).rows(), id) {
                Some(c) => final(self).rows() == old(self).rows().update(
                    c,
                    with_analysis(old(self).rows()[c], new_analysis@, now@),
                ),
                None => final(self).rows() == old(self).rows(),
            },
    {
        match self.find_id(id) {
            Some(c) => {
                let ghost rows0 = self.rows();
                let cur = &self.rows[c];
                let w = JapaneseWord {
                    id: cur.id,
                    word: cur.word.clone(),
                    kana: cur.kana.clone(),
                    pitch: cur.pitch.clone(),
                    part_of_speech: cur.part_of_speech.clone(),
                    analysis: new_analysis.clone(),
                    updated_at: Some(now.clone()),
                };
                self.rows.set(c, w);
                assert(self.rows() =~= rows0.update(c as int, with_analysis(rows0[c as int], new_analysis@, now@)));
                proof {
                    lemma_same_keys_wf(rows0, self.rows(), self.next_id());
                }
                true
            },
            None => false,
        }
    }

    /// The record with this id.
    pub fn get_word_by_id(&self, id: i64) -> (r: Option<JapaneseWord>)
        requires
            self.wf(),
        ensures
            match id_index(self.rows(), id) {
                Some(c) => r is Some && r->0@ == self.rows()[c],
                None => r is None,
            },
    {
        match self.find_id(id) {
            Some(c) => Some(copy_word(&self.rows[c])),
            None => None,
        }
    }

    /// The record with identity `(word, kana, pitch)`, with the tag sets stored for it.
    pub fn get_existing_word(&self, word: &String, kana: &String, pitch: &String) -> (r: Option<MergedWord>)
        requires
            self.wf(),
        ensures
            match identity_index(self.rows(), word@, kana@, pitch@) {
                Some(c) => r is Some && ({
                    let m = r->0;
                    let row = self.rows()[c];
                    &&& m.id == row.id
                    &&& m.word@ == row.word
                    &&& m.kana@ == row.kana
                    &&& m.pitch@ == row.pitch
                    &&& m.analysis@ == row.analysis
                    &&& m.parts_of_speech@.len() == 1
                    &&& m.parts_of_speech@[0]@ == row.part_of_speech
                }),
                None => r is None,
            },
    {
        match self.find_identity(word, kana, pitch) {
            Some(c) => {
                let row = &self.rows[c];
                let mut parts_of_speech: Vec<String> = Vec::new();
                parts_of_speech.push(row.part_of_speech.clone());
                Some(MergedWord {
                    id: row.id,
                    word: row.word.clone(),
                    kana: row.kana.clone(),
                    pitch: row.pitch.clone(),
                    parts_of_speech,
                    analysis: row.analysis.clone(),
                })
            },
            None => None,
        }
    }

    /// The first record, in order of id, with surface form `word` and reading `kana`.
    pub fn get_existing_word_by_word_kana(&self, word: &String, kana: &String) -> (r: Option<JapaneseWord>)
        requires
            self.wf(),
        ensures
            match r {
                Some(w) => exists|c: int|
                    0 <= c < self.rows().len() && self.rows()[c] == w@ && has_word_kana(w@, word@, kana@)
                        && forall|k: int| 0 <= k < c ==> !has_word_kana(#[trigger] self.rows()[k], word@, kana@),
                None => forall|k: int|
                    0 <= k < self.rows().len() ==> !has_word_kana(#[trigger] self.rows()[k], word@, kana@),
            },
    {
        let mut i: usize = 0;
        while i < self.rows.len()
            invariant
                self.wf(),
                i <= self.rows@.len(),
                forall|k: int| 0 <= k < i ==> !has_word_kana(#[trigger] self.rows()[k], word@, kana@),
            decreases self.rows@.len() - i,
        {
            let w = &self.rows[i];
            if w.word == *word && w.kana == *kana {
                let r = copy_word(w);
                assert(self.rows()[i as int] == r@);
                return Some(r);
            }
            i += 1;
        }
        None
    }

    /// Whether some record has surface form `word` and reading `kana`, whatever its pitch.
    pub fn check_word_exists(&self, word: &String, kana: &String) -> (r: bool)
        requires
            self.wf(),
        ensures
            r == exists|k: int| 0 <= k < self.rows().len() && has_word_kana(self.rows()[k], word@, kana@),
    {
        let found = self.get_existing_word_by_word_kana(word, kana);
        found.is_some()
    }

    /// Every record, in order of id.
    pub fn get_all_words(&self) -> (r: Vec<JapaneseWord>)
        requires
            self.wf(),
        ensures
            word_rows(r@) == self.rows(),
    {
        let mut r: Vec<JapaneseWord> = Vec::new();
        let mut i: usize = 0;
        while i < self.rows.len()
            invariant
                i <= self.rows@.len(),
                r@.len() == i,
                word_rows(r@) == self.rows().subrange(0, i as int),
            decreases self.rows@.len() - i,
        {
            let w = copy_word(&self.rows[i]);
            let ghost before = r@;
            r.push(w);
            assert(r@ == before.push(w));
            assert forall|k: int| 0 <= k < i as int implies word_rows(r@)[k] == word_rows(before)[k] by {
                assert(r@[k] == before[k]);
            }
            assert(word_rows(r@)[i as int] == self.rows()[i as int]);
            assert(word_rows(r@) =~= self.rows().subrange(0, i as int + 1));
            i += 1;
        }
        assert(self.rows().subrange(0, self.rows@.len() as int) =~= self.rows());
        r
    }
}

/// The values of a stored grammar point.
pub struct GrammarRow {
    pub id: int,
    pub word: Seq<char>,
    pub kana: Seq<char>,
    pub analysis: Seq<char>,
}

impl View for JapaneseGrammar {
    type V = GrammarRow;

    open spec fn view(&self) -> GrammarRow {
        GrammarRow { id: self.id as int, word: self.word@, kana: self.kana@, analysis: self.analysis@ }
    }
}

/// The values of a sequence of stored grammar points.
pub open spec fn grammar_rows(v: Seq<JapaneseGrammar>) -> Seq<GrammarRow> {
    v.map_values(|g: JapaneseGrammar| g@)
}

/// Ids rise strictly and stay below `next_id`; no two rows share `(word, kana)`.
pub open spec fn grammar_wf(rows: Seq<GrammarRow>, next_id: int) -> bool {
    &&& 1 <= next_id <= i64::MAX
    &&& forall|i: int| 0 <= i < rows.len() ==> 1 <= #[trigger] rows[i].id < next_id
    &&& forall|i: int, j: int| 0 <= i < j < rows.len() ==> rows[i].id < rows[j].id
    &&& forall|i: int, j: int|
        0 <= i < j < rows.len() ==> !(rows[i].word == rows[j].word && rows[i].kana == rows[j].kana)
}

/// The position of the row with `(word, kana)`, if any.
pub open spec fn grammar_key_index(rows: Seq<GrammarRow>, word: Seq<char>, kana: Seq<char>) -> Option<int> {
    if exists|i: int| 0 <= i < rows.len() && rows[i].word == word && rows[i].kana == kana {
        Some(choose|i: int| 0 <= i < rows.len() && rows[i].word == word && rows[i].kana == kana)
    } else {
        None
    }
}

/// The rows, next id and result after storing a grammar point: unchanged when its
/// expression and reading are stored with the same analysis, the analysis replaced in place
/// (id kept) when they are stored with another, a new record otherwise.
pub open spec fn grammar_put_effect(
    rows: Seq<GrammarRow>,
    next_id: int,
    word: Seq<char>,
    kana: Seq<char>,
    analysis: Seq<char>,
) -> (Seq<GrammarRow>, int, Result<UpsertOutcome, StoreError>) {
    match grammar_key_index(rows, word, kana) {
        Some(i) => if rows[i].analysis == analysis {
            (rows, next_id, Ok(UpsertOutcome::Unchanged))
        } else {
            (rows.update(i, GrammarRow { analysis, ..rows[i] }), next_id, Ok(UpsertOutcome::UpdatedTags))
        },
        None => if next_id < i64::MAX {
            (
                rows.push(GrammarRow { id: next_id, word, kana, analysis }),
                next_id + 1,
                Ok(UpsertOutcome::Inserted),
            )
        } else {
            (rows, next_id, Err(StoreError::IdsExhausted))
        },
    }
}

/// In well-formed rows the row holding `(word, kana)` is the one that `grammar_key_index` names.
proof fn lemma_grammar_key_unique(rows: Seq<GrammarRow>, next_id: int, j: int, word: Seq<char>, kana: Seq<char>)
    requires
        grammar_wf(rows, next_id),
        0 <= j < rows.len(),
        rows[j].word == word && rows[j].kana == kana,
    ensures
        grammar_key_index(rows, word, kana) == Some(j),
{
    let c = choose|i: int| 0 <= i < rows.len() && rows[i].word == word && rows[i].kana == kana;
    if c < j {
        assert(!(rows[c].word == rows[j].word && rows[c].kana == rows[j].kana));
    } else if c > j {
        assert(!(rows[j].word == rows[c].word && rows[j].kana == rows[c].kana));
    }
}

/// Storing a grammar point keeps the rows well formed, keeps every row's position, id and
/// key, changes no row of another key, and leaves its key with its analysis when it succeeds.
pub proof fn lemma_grammar_put(rows: Seq<GrammarRow>, next_id: int, word: Seq<char>, kana: Seq<char>, analysis: Seq<char>)
    requires
        grammar_wf(rows, next_id),
    ensures
        ({
            let (r, n, res) = grammar_put_effect(rows, next_id, word, kana, analysis);
            &&& grammar_wf(r, n)
            &&& r.len() >= rows.len()
            &&& forall|k: int|
                0 <= k < rows.len() ==> (#[trigger] r[k]).id == rows[k].id && r[k].word == rows[k].word
                    && r[k].kana == rows[k].kana
            &&& forall|k: int|
                0 <= k < rows.len() && !(rows[k].word == word && rows[k].kana == kana) ==> #[trigger] r[k]
                    == rows[k]
            &&& res is Ok ==> exists|j: int|
                0 <= j < r.len() && r[j].word == word && r[j].kana == kana && r[j].analysis == analysis
        }),
{
    let (r, n, res) = grammar_put_effect(rows, next_id, word, kana, analysis);
    match grammar_key_index(rows, word, kana) {
        Some(i) => {
            assert(r[i].word == word && r[i].kana == kana && r[i].analysis == analysis);
            assert forall|a: int, b: int| 0 <= a < b < r.len() implies r[a].id < r[b].id
                && !(r[a].word == r[b].word && r[a].kana == r[b].kana) by {
                assert(rows[a].id < rows[b].id);
                assert(!(rows[a].word == rows[b].word && rows[a].kana == rows[b].kana));
            }
            assert forall|a: int| 0 <= a < r.len() implies 1 <= #[trigger] r[a].id < n by {
                assert(1 <= rows[a].id < next_id);
            }
        },
        None => {
            if next_id < i64::MAX {
                assert(r[rows.len() as int].word == word && r[rows.len() as int].kana == kana);
                assert forall|a: int, b: int| 0 <= a < b < r.len() implies r[a].id < r[b].id
                    && !(r[a].word == r[b].word && r[a].kana == r[b].kana) by {
                    assert(1 <= rows[a].id < next_id);
                    if b < rows.len() {
                        assert(rows[a].id < rows[b].id);
                        assert(!(rows[a].word == rows[b].word && rows[a].kana == rows[b].kana));
                    }
                }
                assert forall|a: int| 0 <= a < r.len() implies 1 <= #[trigger] r[a].id < n by {
                    if a < rows.len() {
                        assert(1 <= rows[a].id < next_id);
                    }
                }
            }
        },
    }
}

/// Storing the same grammar point twice: the second store reports `Unchanged` and leaves
/// every record, ids included, as the first store left it.
pub proof fn lemma_grammar_put_idempotent(
    rows: Seq<GrammarRow>,
    next_id: int,
    word: Seq<char>,
    kana: Seq<char>,
    analysis: Seq<char>,
)
    requires
        grammar_wf(rows, next_id),
        grammar_put_effect(rows, next_id, word, kana, analysis).2 is Ok,
    ensures
        ({
            let (r1, n1, _) = grammar_put_effect(rows, next_id, word, kana, analysis);
            grammar_put_effect(r1, n1, word, kana, analysis) == (r1, n1, Ok::<UpsertOutcome, StoreError>(
                UpsertOutcome::Unchanged,
            ))
        }),
{
    let (r1, n1, _) = grammar_put_effect(rows, next_id, word, kana, analysis);
    lemma_grammar_put(rows, next_id, word, kana, analysis);
    let j = choose|j: int|
        0 <= j < r1.len() && r1[j].word == word && r1[j].kana == kana && r1[j].analysis == analysis;
    lemma_grammar_key_unique(r1, n1, j, word, kana);
}

/// The write that storing `item` needs, given the grammar record stored under its expression
/// and reading: insert when there is none, replace the analysis when it differs, nothing
/// otherwise.
pub fn grammar_upsert_decision(existing: &Option<JapaneseGrammar>, item: &GrammarAnalysis) -> (r: UpsertOutcome)
    ensures
        match existing {
            None => r == UpsertOutcome::Inserted,
            Some(e) => if e.analysis@ == item.analysis@ {
                r == UpsertOutcome::Unchanged
            } else {
                r == UpsertOutcome::UpdatedTags
            },
        },
{
    match existing {
        None => UpsertOutcome::Inserted,
        Some(e) => if e.analysis == item.analysis {
            UpsertOutcome::Unchanged
        } else {
            UpsertOutcome::UpdatedTags
        },
    }
}

/// The expression, reading and analysis of each item.
pub open spec fn grammar_items(v: Seq<GrammarAnalysis>) -> Seq<(Seq<char>, Seq<char>, Seq<char>)> {
    v.map_values(|g: GrammarAnalysis| (g.grammar@, g.kana@, g.analysis@))
}

/// The rows, next id and result after storing `items` in order; the first failure stops
/// the run, and the outcomes of the stored items are listed in order.
pub open spec fn grammar_save_effect(
    rows: Seq<GrammarRow>,
    next_id: int,
    items: Seq<(Seq<char>, Seq<char>, Seq<char>)>,
) -> (Seq<GrammarRow>, int, Result<Seq<UpsertOutcome>, StoreError>)
    decreases items.len(),
{
    if items.len() == 0 {
        (rows, next_id, Ok(Seq::empty()))
    } else {
        let (r0, n0, res0) = grammar_save_effect(rows, next_id, items.drop_last());
        match res0 {
            Err(e) => (r0, n0, Err(e)),
            Ok(outs) => {
                let (w, k, a) = items.last();
                let (r1, n1, o) = grammar_put_effect(r0, n0, w, k, a);
                match o {
                    Ok(x) => (r1, n1, Ok(outs.push(x))),
                    Err(e) => (r1, n1, Err(e)),
                }
            },
        }
    }
}

proof fn lemma_grammar_save_stops(
    rows: Seq<GrammarRow>,
    next_id: int,
    items: Seq<(Seq<char>, Seq<char>, Seq<char>)>,
    m: int,
)
    requires
        0 <= m <= items.len(),
        grammar_save_effect(rows, next_id, items.subrange(0, m)).2 is Err,
    ensures
        grammar_save_effect(rows, next_id, items) == grammar_save_effect(rows, next_id, items.subrange(0, m)),
    decreases items.len(),
{
    if m == items.len() {
        assert(items.subrange(0, m) =~= items);
    } else {
        assert(items.drop_last().subrange(0, m) =~= items.subrange(0, m));
        lemma_grammar_save_stops(rows, next_id, items.drop_last(), m);
    }
}

/// No two items share an expression and reading.
pub open spec fn distinct_grammar_keys(items: Seq<(Seq<char>, Seq<char>, Seq<char>)>) -> bool {
    forall|i: int, j: int| 0 <= i < j < items.len() ==> !(items[i].0 == items[j].0 && items[i].1 == items[j].1)
}

/// Some row has the expression, reading and analysis of `x`.
pub open spec fn holds_grammar(rows: Seq<GrammarRow>, x: (Seq<char>, Seq<char>, Seq<char>)) -> bool {
    exists|j: int| 0 <= j < rows.len() && rows[j].word == x.0 && rows[j].kana == x.1 && rows[j].analysis == x.2
}

proof fn lemma_grammar_save_holds(rows: Seq<GrammarRow>, next_id: int, items: Seq<(Seq<char>, Seq<char>, Seq<char>)>)
    requires
        grammar_wf(rows, next_id),
        distinct_grammar_keys(items),
        grammar_save_effect(rows, next_id, items).2 is Ok,
    ensures
        grammar_wf(grammar_save_effect(rows, next_id, items).0, grammar_save_effect(rows, next_id, items).1),
        forall|k: int|
            0 <= k < items.len() ==> holds_grammar(grammar_save_effect(rows, next_id, items).0, #[trigger] items[k]),
    decreases items.len(),
{
    if items.len() > 0 {
        let prefix = items.drop_last();
        let x = items.last();
        let (r0, n0, res0) = grammar_save_effect(rows, next_id, prefix);
        assert(res0 is Ok);
        assert forall|i: int, j: int| 0 <= i < j < prefix.len() implies !(prefix[i].0 == prefix[j].0
            && prefix[i].1 == prefix[j].1) by {
            assert(prefix[i] == items[i] && prefix[j] == items[j]);
        }
        lemma_grammar_save_holds(rows, next_id, prefix);
        lemma_grammar_put(r0, n0, x.0, x.1, x.2);
        let r1 = grammar_put_effect(r0, n0, x.0, x.1, x.2).0;
        assert forall|k: int| 0 <= k < items.len() implies holds_grammar(r1, #[trigger] items[k]) by {
            if k < items.len() - 1 {
                assert(prefix[k] == items[k]);
                assert(holds_grammar(r0, prefix[k]));
                let j = choose|j: int|
                    0 <= j < r0.len() && r0[j].word == prefix[k].0 && r0[j].kana == prefix[k].1
                        && r0[j].analysis == prefix[k].2;
                assert(!(items[k].0 == items[items.len() - 1].0 && items[k].1 == items[items.len() - 1].1));
                assert(r1[j] == r0[j]);
            } else {
                assert(items[k] == x);
            }
        }
    }
}

proof fn lemma_grammar_save_unchanged(rows: Seq<GrammarRow>, next_id: int, items: Seq<(Seq<char>, Seq<char>, Seq<char>)>)
    requires
        grammar_wf(rows, next_id),
        forall|k: int| 0 <= k < items.len() ==> holds_grammar(rows, #[trigger] items[k]),
    ensures
        grammar_save_effect(rows, next_id, items) == (rows, next_id, Ok::<Seq<UpsertOutcome>, StoreError>(
            unchanged_outcomes(items.len()),
        )),
    decreases items.len(),
{
    if items.len() > 0 {
        let prefix = items.drop_last();
        let x = items.last();
        assert forall|k: int| 0 <= k < prefix.len() implies holds_grammar(rows, #[trigger] prefix[k]) by {
            assert(prefix[k] == items[k]);
        }
        lemma_grammar_save_unchanged(rows, next_id, prefix);
        assert(holds_grammar(rows, items[items.len() - 1]));
        let j = choose|j: int| 0 <= j < rows.len() && rows[j].word == x.0 && rows[j].kana == x.1 && rows[j].analysis == x.2;
        lemma_grammar_key_unique(rows, next_id, j, x.0, x.1);
        assert(grammar_put_effect(rows, next_id, x.0, x.1, x.2) == (rows, next_id, Ok::<UpsertOutcome, StoreError>(
            UpsertOutcome::Unchanged,
        )));
        assert(unchanged_outcomes(prefix.len()).push(UpsertOutcome::Unchanged) =~= unchanged_outcomes(items.len()));
    } else {
        assert(unchanged_outcomes(0) =~= Seq::<UpsertOutcome>::empty());
    }
}

/// Saving the same list of grammar points twice, no two of them sharing an expression and
/// reading: the second save reports `Unchanged` for every point and leaves every record,
/// ids included, as the first save left it.
pub proof fn lemma_save_grammar_idempotent(rows: Seq<GrammarRow>, next_id: int, items: Seq<(Seq<char>, Seq<char>, Seq<char>)>)
    requires
        grammar_wf(rows, next_id),
        distinct_grammar_keys(items),
        grammar_save_effect(rows, next_id, items).2 is Ok,
    ensures
        ({
            let (r1, n1, _) = grammar_save_effect(rows, next_id, items);
            grammar_save_effect(r1, n1, items) == (r1, n1, Ok::<Seq<UpsertOutcome>, StoreError>(
                unchanged_outcomes(items.len()),
            ))
        }),
{
    let (r1, n1, _) = grammar_save_effect(rows, next_id, items);
    lemma_grammar_save_holds(rows, next_id, items);
    lemma_grammar_save_unchanged(r1, n1, items);
}

/// The grammar records that storing `items`, none of them stored yet, adds from id
/// `next_id` on.
pub open spec fn fresh_grammar_rows(next_id: int, items: Seq<(Seq<char>, Seq<char>, Seq<char>)>) -> Seq<GrammarRow> {
    Seq::new(items.len(), |j: int| GrammarRow { id: next_id + j, word: items[j].0, kana: items[j].1, analysis: items[j].2 })
}

/// Grammar points of a batch, none of them stored and no two sharing an expression and
/// reading, each with the analysis of its own call: saving them appends exactly one new
/// record per point, in order, with that point's expression, reading and analysis.
pub proof fn lemma_save_grammar_fresh(rows: Seq<GrammarRow>, next_id: int, items: Seq<(Seq<char>, Seq<char>, Seq<char>)>)
    requires
        grammar_wf(rows, next_id),
        distinct_grammar_keys(items),
        forall|k: int| 0 <= k < items.len() ==> grammar_key_index(rows, (#[trigger] items[k]).0, items[k].1) is None,
        next_id + items.len() <= i64::MAX,
    ensures
        grammar_save_effect(rows, next_id, items) == (
            rows + fresh_grammar_rows(next_id, items),
            next_id + items.len(),
            Ok::<Seq<UpsertOutcome>, StoreError>(inserted_outcomes(items.len())),
        ),
    decreases items.len(),
{
    if items.len() == 0 {
        assert(rows + fresh_grammar_rows(next_id, items) =~= rows);
        assert(inserted_outcomes(0) =~= Seq::<UpsertOutcome>::empty());
    } else {
        let prefix = items.drop_last();
        let x = items.last();
        let m = prefix.len();
        assert forall|i: int, j: int| 0 <= i < j < prefix.len() implies !(prefix[i].0 == prefix[j].0
            && prefix[i].1 == prefix[j].1) by {
            assert(prefix[i] == items[i] && prefix[j] == items[j]);
        }
        assert forall|k: int| 0 <= k < prefix.len() implies grammar_key_index(rows, (#[trigger] prefix[k]).0, prefix[k].1) is None by {
            assert(prefix[k] == items[k]);
        }
        lemma_save_grammar_fresh(rows, next_id, prefix);
        let r0 = rows + fresh_grammar_rows(next_id, prefix);
        assert(grammar_key_index(rows, items[m as int].0, items[m as int].1) is None);
        assert forall|i: int| 0 <= i < r0.len() implies !(r0[i].word == x.0 && r0[i].kana == x.1) by {
            if i < rows.len() {
                assert(r0[i] == rows[i]);
            } else {
                assert(prefix[i - rows.len()] == items[i - rows.len()]);
            }
        }
        assert(r0.push(GrammarRow { id: next_id + m, word: x.0, kana: x.1, analysis: x.2 }) =~= rows + fresh_grammar_rows(next_id, items));
        assert(inserted_outcomes(m).push(UpsertOutcome::Inserted) =~= inserted_outcomes(items.len()));
    }
}

/// The grammar relation held in memory: a model of the stored grammar points on which the
/// storage rules are proved. A program that keeps its rows elsewhere takes the same decision
/// from `grammar_upsert_decision`; what is proved of this model holds of it as far as it
/// carries that decision out.
pub struct GrammarTable {
    rows: Vec<JapaneseGrammar>,
    next_id: i64,
}

impl GrammarTable {
    pub closed spec fn rows(&self) -> Seq<GrammarRow> {
        grammar_rows(self.rows@)
    }

    pub closed spec fn next_id(&self) -> int {
        self.next_id as int
    }

    pub open spec fn wf(&self) -> bool {
        grammar_wf(self.rows(), self.next_id())
    }

    /// An empty relation.
    pub fn new() -> (t: GrammarTable)
        ensures
            t.wf(),
            t.rows() == Seq::<GrammarRow>::empty(),
            t.next_id() == 1,
    {
        let t = GrammarTable { rows: Vec::new(), next_id: 1 };
        assert(t.rows() =~= Seq::<GrammarRow>::empty());
        t
    }

    /// The position of the record with expression `word` and reading `kana`.
    fn find_key(&self, word: &String, kana: &String) -> (r: Option<usize>)
        requires
            self.wf(),
        ensures
            match r {
                Some(i) => grammar_key_index(self.rows(), word@, kana@) == Some(i as int),
                None => grammar_key_index(self.rows(), word@, kana@) is None,
            },
    {
        let mut i: usize = 0;
        while i < self.rows.len()
            invariant
                self.wf(),
                i <= self.rows@.len(),
                forall|k: int| 0 <= k < i ==> !((#[trigger] self.rows()[k]).word == word@ && self.rows()[k].kana == kana@),
            decreases self.rows@.len() - i,
        {
            if self.rows[i].word == *word && self.rows[i].kana == *kana {
                proof {
                    lemma_grammar_key_unique(self.rows(), self.next_id(), i as int, word@, kana@);
                }
                return Some(i);
            }
            i += 1;
        }
        None
    }

    /// Stores one grammar point: inserts it under a new id when its expression and reading
    /// are not stored, replaces the stored analysis in place when it differs, and writes
    /// nothing when it is the same.
    pub fn put(&mut self, item: &GrammarAnalysis) -> (r: Result<UpsertOutcome, StoreError>)
        requires
            old(self).wf(),
        ensures
            final(self).wf(),
            (final(self).rows(), final(self).next_id(), r) == grammar_put_effect(
                old(self).rows(),
                old(self).next_id(),
                item.grammar@,
                item.kana@,
                item.analysis@,
            ),
    {
        proof {
            lemma_grammar_put(self.rows(), self.next_id(), item.grammar@, item.kana@, item.analysis@);
        }
        match self.find_key(&item.grammar, &item.kana) {
            Some(i) => {
                let g = &self.rows[i];
                let existing = Some(JapaneseGrammar {
                    id: g.id,
                    word: g.word.clone(),
                    kana: g.kana.clone(),
                    analysis: g.analysis.clone(),
                });
                match grammar_upsert_decision(&existing, item) {
                    UpsertOutcome::Unchanged => Ok(UpsertOutcome::Unchanged),
                    _ => {
                        let c = JapaneseGrammar {
                            id: g.id,
                            word: g.word.clone(),
                            kana: g.kana.clone(),
                            analysis: item.analysis.clone(),
                        };
                        let ghost before = self.rows();
                        self.rows.set(i, c);
                        assert(self.rows() =~= before.update(i as int, GrammarRow { analysis: item.analysis@, ..before[i as int] }));
                        Ok(UpsertOutcome::UpdatedTags)
                    },
                }
            },
            None => {
                if self.next_id < i64::MAX {
                    let c = JapaneseGrammar {
                        id: self.next_id,
                        word: item.grammar.clone(),
                        kana: item.kana.clone(),
                        analysis: item.analysis.clone(),
                    };
                    let ghost before = self.rows();
                    self.rows.push(c);
                    self.next_id = self.next_id + 1;
                    assert(self.rows() =~= before.push(c@));
                    Ok(UpsertOutcome::Inserted)
                } else {
                    Err(StoreError::IdsExhausted)
                }
            },
        }
    }

    /// Stores each grammar point in turn (see `put`), stopping at the first failure.
    pub fn save_grammar(&mut self, items: &Vec<GrammarAnalysis>) -> (r: Result<Vec<UpsertOutcome>, StoreError>)
        requires
            old(self).wf(),
        ensures
            final(self).wf(),
            final(self).rows() == grammar_save_effect(old(self).rows(), old(self).next_id(), grammar_items(items@)).0,
            final(self).next_id() == grammar_save_effect(old(self).rows(), old(self).next_id(), grammar_items(items@)).1,
            match r {
                Ok(v) => grammar_save_effect(old(self).rows(), old(self).next_id(), grammar_items(items@)).2
                    == Ok::<Seq<UpsertOutcome>, StoreError>(v@),
                Err(e) => grammar_save_effect(old(self).rows(), old(self).next_id(), grammar_items(items@)).2
                    == Err::<Seq<UpsertOutcome>, StoreError>(e),
            },
    {
        let ghost rows0 = self.rows();
        let ghost next0 = self.next_id();
        let mut outcomes: Vec<UpsertOutcome> = Vec::new();
        let mut failure: Option<StoreError> = None;
        let mut i: usize = 0;
        while i < items.len() && failure.is_none()
            invariant
                self.wf(),
                i <= items@.len(),
                match failure {
                    None => grammar_save_effect(rows0, next0, grammar_items(items@).subrange(0, i as int))
                        == (self.rows(), self.next_id(), Ok::<Seq<UpsertOutcome>, StoreError>(outcomes@)),
                    Some(e) => grammar_save_effect(rows0, next0, grammar_items(items@)) == (
                        self.rows(),
                        self.next_id(),
                        Err::<Seq<UpsertOutcome>, StoreError>(e),
                    ),
                },
            decreases items@.len() - i + (if failure is None { 1int } else { 0int }),
        {
            let ghost pre = grammar_items(items@).subrange(0, i as int + 1);
            assert(pre.drop_last() =~= grammar_items(items@).subrange(0, i as int));
            let res = self.put(&items[i]);
            match res {
                Ok(o) => {
                    outcomes.push(o);
                    i += 1;
                },
                Err(e) => {
                    proof {
                        assert(grammar_save_effect(rows0, next0, pre) == (
                            self.rows(),
                            self.next_id(),
                            Err::<Seq<UpsertOutcome>, StoreError>(e),
                        ));
                        lemma_grammar_save_stops(rows0, next0, grammar_items(items@), i as int + 1);
                    }
                    failure = Some(e);
                },
            }
        }
        match failure {
            Some(e) => Err(e),
            None => {
                assert(grammar_items(items@).subrange(0, items@.len() as int) =~= grammar_items(items@));
                Ok(outcomes)
            },
        }
    }

    /// Every record, in order of id.
    pub fn get_all_grammar(&self) -> (r: Vec<JapaneseGrammar>)
        ensures
            grammar_rows(r@) == self.rows(),
    {
        let mut r: Vec<JapaneseGrammar> = Vec::new();
        let mut i: usize = 0;
        while i < self.rows.len()
            invariant
                i <= self.rows@.len(),
                r@.len() == i,
                grammar_rows(r@) == self.rows().subrange(0, i as int),
            decreases self.rows@.len() - i,
        {
            let g = &self.rows[i];
            let c = JapaneseGrammar { id: g.id, word: g.word.clone(), kana: g.kana.clone(), analysis: g.analysis.clone() };
            let ghost before = r@;
            r.push(c);
            assert(grammar_rows(r@) =~= self.rows().subrange(0, i as int + 1));
            i += 1;
        }
        assert(self.rows().subrange(0, self.rows@.len() as int) =~= self.rows());
        r
    }
}

} // verus!
