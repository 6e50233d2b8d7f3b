//! Grouping of a freshly extracted batch: one entry per identity, tag sets unioned, and the
//! decision of what each entry needs against what is stored.
use vstd::prelude::*;
use crate::batch::{failures, lemma_successes_indices, successes, summarize, BatchReport};
use crate::models::{AnalysisRow, BasicGrammarInfo, BasicWordInfo, GrammarAnalysis, JapaneseWord, WordAnalysis, WordRow};
use crate::store::{fresh_rows, identity_index, inserted_outcomes, lemma_save_fresh, lemma_save_holds, rows_wf, save_effect, UpsertOutcome, has_identity};
use crate::error::{DecodeError, StoreError};
use crate::tags::{join_tags, join_with, lemma_union_concat, lemma_union_tags, no_duplicates, tag_separator, texts, union_into, union_tags};

verus! {

/// The values of an extracted word.
pub struct InfoRow {
    pub word: Seq<char>,
    pub kana: Seq<char>,
    pub pitch: Seq<char>,
    pub tags: Seq<Seq<char>>,
}

impl View for BasicWordInfo {
    type V = InfoRow;

    open spec fn view(&self) -> InfoRow {
        InfoRow {
            word: self.word@,
            kana: self.kana@,
            pitch: self.pitch@,
            tags: texts(self.part_of_speech@),
        }
    }
}

/// The values of a sequence of extracted words.
pub open spec fn info_rows(v: Seq<BasicWordInfo>) -> Seq<InfoRow> {
    v.map_values(|w: BasicWordInfo| w@)
}

/// `a` and `b` have the same identity `(word, kana, pitch)`.
pub open spec fn same_key(a: InfoRow, b: InfoRow) -> bool {
    a.word == b.word && a.kana == b.kana && a.pitch == b.pitch
}

/// The position of the group with the identity of `x`, if any.
pub open spec fn key_index(groups: Seq<InfoRow>, x: InfoRow) -> Option<int> {
    if exists|i: int| 0 <= i < groups.len() && same_key(groups[i], x) {
        Some(choose|i: int| 0 <= i < groups.len() && same_key(groups[i], x))
    } else {
        None
    }
}

/// Adds one extracted word to the groups: its labels join the group of its identity, or it
/// opens a new group at the end.
pub open spec fn add_to_groups(groups: Seq<InfoRow>, x: InfoRow) -> Seq<InfoRow> {
    match key_index(groups, x) {
        Some(i) => groups.update(i, InfoRow { tags: union_tags(groups[i].tags, x.tags), ..groups[i] }),
        None => groups.push(InfoRow { tags: union_tags(Seq::empty(), x.tags), ..x }),
    }
}

/// One group per distinct identity, in order of first appearance, each with the union of
/// the labels found for it in order of first appearance.
pub open spec fn group_spec(items: Seq<InfoRow>) -> Seq<InfoRow>
    decreases items.len(),
{
    if items.len() == 0 {
        Seq::empty()
    } else {
        add_to_groups(group_spec(items.drop_last()), items.last())
    }
}

/// No two groups share an identity, and no group repeats a label.
pub open spec fn groups_wf(groups: Seq<InfoRow>) -> bool {
    &&& forall|i: int, j: int| 0 <= i < j < groups.len() ==> !same_key(groups[i], groups[j])
    &&& forall|i: int| 0 <= i < groups.len() ==> no_duplicates(#[trigger] groups[i].tags)
}

/// Adding a word keeps the groups well formed.
proof fn lemma_add_wf(groups: Seq<InfoRow>, x: InfoRow)
    requires
        groups_wf(groups),
    ensures
        groups_wf(add_to_groups(groups, x)),
{
    match key_index(groups, x) {
        Some(i) => {
            lemma_union_tags(groups[i].tags, x.tags);
            let g = add_to_groups(groups, x);
            assert forall|a: int| 0 <= a < g.len() implies no_duplicates(#[trigger] g[a].tags) by {
                if a != i {
                    assert(g[a] == groups[a]);
                }
            }
            assert forall|a: int, b: int| 0 <= a < b < g.len() implies !same_key(g[a], g[b]) by {
                assert(!same_key(groups[a], groups[b]));
            }
        },
        None => {
            assert(no_duplicates(Seq::<Seq<char>>::empty()));
            lemma_union_tags(Seq::empty(), x.tags);
            let g = add_to_groups(groups, x);
            assert forall|a: int| 0 <= a < g.len() implies no_duplicates(#[trigger] g[a].tags) by {
                if a < groups.len() {
                    assert(g[a] == groups[a]);
                }
            }
            assert forall|a: int, b: int| 0 <= a < b < g.len() implies !same_key(g[a], g[b]) by {
                if b < groups.len() {
                    assert(!same_key(groups[a], groups[b]));
                } else {
                    assert(!same_key(groups[a], x));
                }
            }
        },
    }
}

/// The groups of any batch have distinct identities and duplicate-free tag sets, and every
/// extracted word's identity has a group.
pub proof fn lemma_groups_wf(items: Seq<InfoRow>)
    ensures
        groups_wf(group_spec(items)),
        forall|k: int| 0 <= k < items.len() ==> key_index(group_spec(items), #[trigger] items[k]) is Some,
    decreases items.len(),
{
    if items.len() > 0 {
        let prev = items.drop_last();
        lemma_groups_wf(prev);
        lemma_add_wf(group_spec(prev), items.last());
        let g = group_spec(items);
        let x = items.last();
        assert forall|k: int| 0 <= k < items.len() implies key_index(g, #[trigger] items[k]) is Some by {
            if k < items.len() - 1 {
                assert(prev[k] == items[k]);
                let j = choose|j: int| 0 <= j < group_spec(prev).len() && same_key(group_spec(prev)[j], prev[k]);
                assert(same_key(g[j], items[k]));
            } else {
                match key_index(group_spec(prev), x) {
                    Some(i) => {
                        assert(same_key(g[i], x));
                    },
                    None => {
                        assert(same_key(g[group_spec(prev).len() as int], x));
                    },
                }
            }
        }
    }
}

/// The labels of every occurrence of identity `(word, kana, pitch)` in `items`, in order.
pub open spec fn labels_of_key(items: Seq<InfoRow>, word: Seq<char>, kana: Seq<char>, pitch: Seq<char>) -> Seq<Seq<char>>
    decreases items.len(),
{
    if items.len() == 0 {
        Seq::empty()
    } else {
        let x = items.last();
        labels_of_key(items.drop_last(), word, kana, pitch) + if x.word == word && x.kana == kana && x.pitch
            == pitch {
            x.tags
        } else {
            Seq::empty()
        }
    }
}

proof fn lemma_labels_none(items: Seq<InfoRow>, word: Seq<char>, kana: Seq<char>, pitch: Seq<char>)
    requires
        forall|k: int|
            0 <= k < items.len() ==> !((#[trigger] items[k]).word == word && items[k].kana == kana && items[k].pitch
                == pitch),
    ensures
        labels_of_key(items, word, kana, pitch) == Seq::<Seq<char>>::empty(),
    decreases items.len(),
{
    if items.len() > 0 {
        let prev = items.drop_last();
        assert forall|k: int| 0 <= k < prev.len() implies !((#[trigger] prev[k]).word == word && prev[k].kana
            == kana && prev[k].pitch == pitch) by {
            assert(prev[k] == items[k]);
        }
        lemma_labels_none(prev, word, kana, pitch);
        assert(!(items[items.len() - 1].word == word && items[items.len() - 1].kana == kana && items[items.len()
            - 1].pitch == pitch));
        assert(Seq::<Seq<char>>::empty() + Seq::<Seq<char>>::empty() =~= Seq::<Seq<char>>::empty());
    }
}

/// The tag set of each group is the union, without repetition and in order of first
/// appearance, of the labels of all occurrences of its identity, scanned in batch order and
/// each occurrence's labels left to right.
pub proof fn lemma_group_tags(items: Seq<InfoRow>)
    ensures
        forall|i: int|
            0 <= i < group_spec(items).len() ==> (#[trigger] group_spec(items)[i]).tags == union_tags(
                Seq::empty(),
                labels_of_key(items, group_spec(items)[i].word, group_spec(items)[i].kana, group_spec(items)[i].pitch),
            ),
    decreases items.len(),
{
    if items.len() > 0 {
        let prev = items.drop_last();
        let x = items.last();
        let gp = group_spec(prev);
        let g = group_spec(items);
        lemma_group_tags(prev);
        lemma_groups_wf(prev);
        assert forall|i: int| 0 <= i < g.len() implies (#[trigger] g[i]).tags == union_tags(
            Seq::empty(),
            labels_of_key(items, g[i].word, g[i].kana, g[i].pitch),
        ) by {
            let e = Seq::<Seq<char>>::empty();
            match key_index(gp, x) {
                Some(k0) => {
                    if i == k0 {
                        let lp = labels_of_key(prev, gp[k0].word, gp[k0].kana, gp[k0].pitch);
                        assert(labels_of_key(items, g[i].word, g[i].kana, g[i].pitch) == lp + x.tags);
                        lemma_union_concat(e, lp, x.tags);
                    } else {
                        assert(g[i] == gp[i]);
                        assert(!same_key(gp[i], gp[k0])) by {
                            if i < k0 {
                            } else {
                                assert(!same_key(gp[k0], gp[i]));
                            }
                        }
                        let lp = labels_of_key(prev, gp[i].word, gp[i].kana, gp[i].pitch);
                        assert(lp + e =~= lp);
                    }
                },
                None => {
                    if i < gp.len() {
                        assert(g[i] == gp[i]);
                        assert(!same_key(gp[i], x));
                        let lp = labels_of_key(prev, gp[i].word, gp[i].kana, gp[i].pitch);
                        assert(lp + e =~= lp);
                    } else {
                        assert(i == gp.len());
                        assert forall|k: int| 0 <= k < prev.len() implies !((#[trigger] prev[k]).word == x.word
                            && prev[k].kana == x.kana && prev[k].pitch == x.pitch) by {
                            if prev[k].word == x.word && prev[k].kana == x.kana && prev[k].pitch == x.pitch {
                                let j = choose|j: int| 0 <= j < gp.len() && same_key(gp[j], prev[k]);
                                assert(same_key(gp[j], x));
                            }
                        }
                        lemma_labels_none(prev, x.word, x.kana, x.pitch);
                        assert(e + x.tags =~= x.tags);
                    }
                },
            }
        }
    }
}

/// The position of the group with identity `(word, kana, pitch)`.
fn find_group(groups: &Vec<BasicWordInfo>, x: &BasicWordInfo) -> (r: Option<usize>)
    requires
        groups_wf(info_rows(groups@)),
    ensures
        match r {
            Some(i) => key_index(info_rows(groups@), x@) == Some(i as int),
            None => key_index(info_rows(groups@), x@) is None,
        },
{
    let ghost g = info_rows(groups@);
    let mut i: usize = 0;
    while i < groups.len()
        invariant
            g == info_rows(groups@),
            groups_wf(g),
            i <= groups@.len(),
            forall|k: int| 0 <= k < i ==> !same_key(#[trigger] g[k], x@),
        decreases groups@.len() - i,
    {
        let e = &groups[i];
        if e.word == x.word && e.kana == x.kana && e.pitch == x.pitch {
            assert(same_key(g[i as int], x@));
            let ghost c = choose|j: int| 0 <= j < g.len() && same_key(g[j], x@);
            assert(c == i) by {
                if c > i {
                    assert(!same_key(g[i as int], g[c]));
                }
            }
            return Some(i);
        }
        i += 1;
    }
    None
}

/// A copy of a list of labels.
fn copy_labels(v: &Vec<String>) -> (r: Vec<String>)
    ensures
        texts(r@) == texts(v@),
{
    let mut r: Vec<String> = Vec::new();
    let mut i: usize = 0;
    while i < v.len()
        invariant
            i <= v@.len(),
            r@.len() == i,
            texts(r@) == texts(v@).subrange(0, i as int),
        decreases v@.len() - i,
    {
        let ghost before = r@;
        let c = v[i].clone();
        r.push(c);
        assert(r@ == before.push(c));
        assert(c@ == v@[i as int]@);
        assert(r@.len() == i + 1);
        assert forall|k: int| 0 <= k < i + 1 implies texts(r@)[k] == texts(v@).subrange(0, i as int + 1)[k] by {
            if k < i {
                assert(texts(before)[k] == texts(v@).subrange(0, i as int)[k]);
            }
        }
        assert(texts(r@) =~= texts(v@).subrange(0, i as int + 1));
        i += 1;
    }
    assert(texts(v@).subrange(0, v@.len() as int) =~= texts(v@));
    r
}

/// Collapses a batch into one entry per identity `(word, kana, pitch)`, in order of first
/// appearance, with the labels of all its occurrences unioned without repetition.
pub fn group_words(words: &Vec<BasicWordInfo>) -> (r: Vec<BasicWordInfo>)
    ensures
        info_rows(r@) == group_spec(info_rows(words@)),
        groups_wf(info_rows(r@)),
{
    let mut groups: Vec<BasicWordInfo> = Vec::new();
    let mut i: usize = 0;
    assert(info_rows(groups@) =~= Seq::<InfoRow>::empty());
    assert(info_rows(words@).subrange(0, 0) =~= Seq::<InfoRow>::empty());
    while i < words.len()
        invariant
            i <= words@.len(),
            info_rows(groups@) == group_spec(info_rows(words@).subrange(0, i as int)),
            groups_wf(info_rows(groups@)),
        decreases words@.len() - i,
    {
        let x = &words[i];
        let ghost pre = info_rows(words@).subrange(0, i as int + 1);
        assert(pre.drop_last() =~= info_rows(words@).subrange(0, i as int));
        assert(pre.last() == x@);
        let ghost g0 = info_rows(groups@);
        proof {
            lemma_add_wf(g0, x@);
        }
        match find_group(&groups, x) {
            Some(k) => {
                let mut tags = copy_labels(&groups[k].part_of_speech);
                union_into(&mut tags, &x.part_of_speech);
                let e = BasicWordInfo {
                    word: groups[k].word.clone(),
                    kana: groups[k].kana.clone(),
                    pitch: groups[k].pitch.clone(),
                    part_of_speech: tags,
                };
                groups.set(k, e);
                assert(info_rows(groups@) =~= add_to_groups(g0, x@));
            },
            None => {
                let mut tags: Vec<String> = Vec::new();
                assert(texts(tags@) =~= Seq::<Seq<char>>::empty());
                union_into(&mut tags, &x.part_of_speech);
                let e = BasicWordInfo {
                    word: x.word.clone(),
                    kana: x.kana.clone(),
                    pitch: x.pitch.clone(),
                    part_of_speech: tags,
                };
                groups.push(e);
                assert(info_rows(groups@) =~= add_to_groups(g0, x@));
            },
        }
        i += 1;
    }
    assert(info_rows(words@).subrange(0, words@.len() as int) =~= info_rows(words@));
    groups
}

/// What a group needs, given the stored record of its surface form and reading.
#[derive(Debug, Clone, PartialEq, Eq)]
pub enum GroupAction {
    /// Nothing is stored for it: analyse it and insert it.
    Analyze,
    /// The record with the group's identity holds another tag set: update that record in
    /// place, without analysing again.
    Update { id: i64, pitch: String, part_of_speech: String },
    /// The stored record already has this pitch and tag set.
    Skip,
}

/// What `group` needs against one stored record: nothing when it has the group's pitch and
/// tag set, otherwise an update of that record to the group's pitch and tag set.
pub open spec fn against_record(group: InfoRow, e: WordRow, r: GroupAction) -> bool {
    let pos = join_with(group.tags, tag_separator());
    if e.pitch == group.pitch && e.part_of_speech == pos {
        r == GroupAction::Skip
    } else {
        match r {
            GroupAction::Update { id, pitch, part_of_speech } => id == e.id && pitch@ == group.pitch
                && part_of_speech@ == pos,
            _ => false,
        }
    }
}

/// Decides what `group` needs, given the stored record with its full identity
/// `(word, kana, pitch)`, if any: analysis and insertion of a new record when there is none
/// (a record of the same word and reading at another pitch is a distinct identity and is
/// left alone), nothing when it holds the group's tag set, and an update of its tag set in
/// place otherwise.
pub fn classify_group(group: &BasicWordInfo, exact: &Option<JapaneseWord>) -> (r: GroupAction)
    ensures
        match exact {
            Some(e) => against_record(group@, e@, r),
            None => r == GroupAction::Analyze,
        },
{
    match exact {
        None => GroupAction::Analyze,
        Some(stored) => {
            let pos = join_tags(&group.part_of_speech);
            if stored.pitch == group.pitch && stored.part_of_speech == pos {
                GroupAction::Skip
            } else {
                GroupAction::Update { id: stored.id, pitch: group.pitch.clone(), part_of_speech: pos }
            }
        },
    }
}

/// The record to store for an analysed group: its identity, its labels in stored form, and
/// the analysis text.
pub fn word_analysis_of(group: &BasicWordInfo, analysis: String) -> (r: WordAnalysis)
    ensures
        r@ == (AnalysisRow {
            word: group.word@,
            kana: group.kana@,
            pitch: group.pitch@,
            part_of_speech: join_with(group@.tags, tag_separator()),
            analysis: analysis@,
        }),
{
    WordAnalysis {
        word: group.word.clone(),
        kana: group.kana.clone(),
        pitch: group.pitch.clone(),
        part_of_speech: join_tags(&group.part_of_speech),
        analysis,
    }
}

/// The record to store for group `g` analysed as `analysis`.
pub open spec fn record_of(g: InfoRow, analysis: Seq<char>) -> AnalysisRow {
    AnalysisRow {
        word: g.word,
        kana: g.kana,
        pitch: g.pitch,
        part_of_speech: join_with(g.tags, tag_separator()),
        analysis,
    }
}

/// The records of groups analysed as `analyses`, one per group, in order.
pub open spec fn records_of(groups: Seq<InfoRow>, analyses: Seq<Seq<char>>) -> Seq<AnalysisRow> {
    Seq::new(groups.len(), |i: int| record_of(groups[i], analyses[i]))
}

/// The records of a batch of analysed groups: for each success, in order, the record of the
/// group at the success's own index with that analysis; and the report of the batch.
pub fn analysed_records<E>(groups: &Vec<BasicWordInfo>, results: Vec<Result<String, E>>) -> (r: (
    Vec<WordAnalysis>,
    BatchReport<E>,
))
    requires
        results@.len() == groups@.len(),
    ensures
        r.0@.len() == successes(results@).len(),
        forall|j: int|
            0 <= j < r.0@.len() ==> {
                let (i, a) = successes(results@)[j];
                &&& (i as int) < groups@.len()
                &&& results@[i as int] == Ok::<String, E>(a)
                &&& (#[trigger] r.0@[j])@ == record_of(groups@[i as int]@, a@)
            },
        r.1.failures@ == failures(results@),
        r.1.attempted == results@.len(),
        r.1.succeeded == r.0@.len(),
        r.1.failed == failures(results@).len(),
{
    let ghost all = results@;
    let _total = results.len();
    proof {
        lemma_successes_indices(all);
    }
    let (oks, report) = summarize(results);
    let mut out: Vec<WordAnalysis> = Vec::new();
    let mut j: usize = 0;
    while j < oks.len()
        invariant
            oks@ == successes(all),
            all.len() == groups@.len(),
            j <= oks@.len(),
            out@.len() == j,
            forall|q: int| 0 <= q < oks@.len() ==> (#[trigger] oks@[q]).0 < all.len() && all[oks@[q].0 as int] == Ok::<String, E>(oks@[q].1),
            forall|q: int| 0 <= q < j ==> (#[trigger] out@[q])@ == record_of(groups@[oks@[q].0 as int]@, oks@[q].1@),
        decreases oks@.len() - j,
    {
        let i = oks[j].0;
        let a = oks[j].1.clone();
        assert(oks@[j as int].0 < all.len());
        let w = word_analysis_of(&groups[i], a);
        out.push(w);
        j += 1;
    }
    (out, report)
}

/// Groups of a batch, none of them stored, each analysed by its own call: saving their
/// records appends exactly one new record per group, in order, with the group's identity and
/// tag set and the analysis of that group's own call.
pub proof fn lemma_analysed_groups_stored(
    rows: Seq<WordRow>,
    next_id: int,
    groups: Seq<InfoRow>,
    analyses: Seq<Seq<char>>,
    now: Seq<char>,
)
    requires
        rows_wf(rows, next_id),
        groups_wf(groups),
        analyses.len() == groups.len(),
        forall|k: int|
            0 <= k < groups.len() ==> identity_index(rows, (#[trigger] groups[k]).word, groups[k].kana, groups[k].pitch)
                is None,
        next_id + groups.len() <= i64::MAX,
    ensures
        ({
            let (r, n, res) = save_effect(rows, next_id, records_of(groups, analyses), now);
            &&& res == Ok::<Seq<UpsertOutcome>, StoreError>(inserted_outcomes(groups.len()))
            &&& rows_wf(r, n)
            &&& r.len() == rows.len() + groups.len()
            &&& r.subrange(0, rows.len() as int) == rows
            &&& forall|i: int|
                0 <= i < groups.len() ==> {
                    let row = #[trigger] r[rows.len() + i];
                    &&& row.id == next_id + i
                    &&& has_identity(row, groups[i].word, groups[i].kana, groups[i].pitch)
                    &&& row.part_of_speech == join_with(groups[i].tags, tag_separator())
                    &&& row.analysis == analyses[i]
                }
        }),
{
    let items = records_of(groups, analyses);
    assert forall|i: int, j: int| 0 <= i < j < items.len() implies !(items[i].word == items[j].word
        && items[i].kana == items[j].kana && items[i].pitch == items[j].pitch) by {
        assert(!same_key(groups[i], groups[j]));
    }
    assert forall|k: int| 0 <= k < items.len() implies identity_index(rows, (#[trigger] items[k]).word, items[k].kana, items[k].pitch) is None by {
        assert(items[k].word == groups[k].word);
    }
    lemma_save_fresh(rows, next_id, items, now);
    lemma_save_holds(rows, next_id, items, now);
    let r = rows + fresh_rows(next_id, items, now);
    assert(r.subrange(0, rows.len() as int) =~= rows);
    assert forall|i: int| 0 <= i < groups.len() implies {
        let row = #[trigger] r[rows.len() + i];
        &&& row.id == next_id + i
        &&& has_identity(row, groups[i].word, groups[i].kana, groups[i].pitch)
        &&& row.part_of_speech == join_with(groups[i].tags, tag_separator())
        &&& row.analysis == analyses[i]
    } by {
        assert(r[rows.len() + i] == fresh_rows(next_id, items, now)[i]);
    }
}

/// The records of a batch of analysed grammar points: for each success, in order, the
/// expression and reading of the point at the success's own index with that analysis; and
/// the report of the batch.
pub fn analysed_grammar<E>(items: &Vec<BasicGrammarInfo>, results: Vec<Result<String, E>>) -> (r: (
    Vec<GrammarAnalysis>,
    BatchReport<E>,
))
    requires
        results@.len() == items@.len(),
    ensures
        r.0@.len() == successes(results@).len(),
        forall|j: int|
            0 <= j < r.0@.len() ==> {
                let (i, a) = successes(results@)[j];
                &&& (i as int) < items@.len()
                &&& results@[i as int] == Ok::<String, E>(a)
                &&& (#[trigger] r.0@[j]).grammar@ == items@[i as int].grammar@
                &&& r.0@[j].kana@ == items@[i as int].kana@
                &&& r.0@[j].analysis@ == a@
            },
        r.1.failures@ == failures(results@),
        r.1.attempted == results@.len(),
        r.1.succeeded == r.0@.len(),
        r.1.failed == failures(results@).len(),
{
    let ghost all = results@;
    let _total = results.len();
    proof {
        lemma_successes_indices(all);
    }
    let (oks, report) = summarize(results);
    let mut out: Vec<GrammarAnalysis> = Vec::new();
    let mut j: usize = 0;
    while j < oks.len()
        invariant
            oks@ == successes(all),
            all.len() == items@.len(),
            j <= oks@.len(),
            out@.len() == j,
            forall|q: int| 0 <= q < oks@.len() ==> (#[trigger] oks@[q]).0 < all.len() && all[oks@[q].0 as int] == Ok::<String, E>(oks@[q].1),
            forall|q: int|
                0 <= q < j ==> (#[trigger] out@[q]).grammar@ == items@[oks@[q].0 as int].grammar@ && out@[q].kana@
                    == items@[oks@[q].0 as int].kana@ && out@[q].analysis@ == oks@[q].1@,
        decreases oks@.len() - j,
    {
        let i = oks[j].0;
        assert(oks@[j as int].0 < all.len());
        let g = GrammarAnalysis {
            grammar: items[i].grammar.clone(),
            kana: items[i].kana.clone(),
            analysis: oks[j].1.clone(),
        };
        out.push(g);
        j += 1;
    }
    (out, report)
}

/// The new stored tag set after a fresh reading of a word's labels: none when the reading
/// gave no label or gives the tag set already stored.
pub fn pos_refresh(stored: &String, fresh: &Vec<String>) -> (r: Option<String>)
    ensures
        fresh@.len() == 0 ==> r is None,
        fresh@.len() > 0 ==> ({
            let j = join_with(texts(fresh@), tag_separator());
            if j == stored@ {
                r is None
            } else {
                r is Some && r->0@ == j
            }
        }),
{
    if fresh.len() == 0 {
        return None;
    }
    let j = join_tags(fresh);
    if j == *stored {
        None
    } else {
        Some(j)
    }
}

/// The analysis to write after a fresh analysis of a stored word: none when it is the
/// stored text already.
pub fn analysis_refresh(stored: &String, fresh: String) -> (r: Option<String>)
    ensures
        fresh@ == stored@ ==> r is None,
        fresh@ != stored@ ==> r is Some && r->0@ == fresh@,
{
    if fresh == *stored {
        None
    } else {
        Some(fresh)
    }
}

/// The labels of an answer's label list, in order, leaving out entries that are not text.
pub open spec fn present_labels(items: Seq<Option<String>>) -> Seq<Seq<char>>
    decreases items.len(),
{
    if items.len() == 0 {
        Seq::empty()
    } else {
        let rest = present_labels(items.drop_last());
        match items.last() {
            Some(t) => rest.push(t@),
            None => rest,
        }
    }
}

/// The labels that a re-reading of a word's parts of speech gave, from the answer's label
/// list (each entry text or not): an error when the answer has no such list.
pub fn labels_from_answer(field: Option<Vec<Option<String>>>) -> (r: Result<Vec<String>, DecodeError>)
    ensures
        match field {
            None => r == Err::<Vec<String>, DecodeError>(DecodeError::MissingLabels),
            Some(items) => r is Ok && texts(r->Ok_0@) == present_labels(items@),
        },
{
    let items = match field {
        None => {
            return Err(DecodeError::MissingLabels);
        },
        Some(items) => items,
    };
    let mut out: Vec<String> = Vec::new();
    let mut i: usize = 0;
    assert(items@.subrange(0, 0) =~= Seq::<Option<String>>::empty());
    assert(texts(out@) =~= Seq::<Seq<char>>::empty());
    while i < items.len()
        invariant
            i <= items@.len(),
            texts(out@) == present_labels(items@.subrange(0, i as int)),
        decreases items@.len() - i,
    {
        let ghost pre = items@.subrange(0, i as int + 1);
        assert(pre.drop_last() =~= items@.subrange(0, i as int));
        assert(pre.last() == items@[i as int]);
        match &items[i] {
            Some(t) => {
                let ghost before = out@;
                let c = t.clone();
                out.push(c);
                assert(texts(out@) =~= texts(before).push(c@));
            },
            None => {},
        }
        i += 1;
    }
    assert(items@.subrange(0, items@.len() as int) =~= items@);
    Ok(out)
}

/// The id and text of each update.
pub open spec fn update_views(v: Seq<(i64, String)>) -> Seq<(i64, Seq<char>)> {
    v.map_values(|p: (i64, String)| (p.0, p.1@))
}

/// For each success `(i, a)` of a re-analysis batch over `words`, in order, the update of
/// word `i`'s record to `a` when `a` differs from its stored analysis.
pub open spec fn changed_analyses(words: Seq<JapaneseWord>, oks: Seq<(usize, String)>) -> Seq<(i64, Seq<char>)>
    decreases oks.len(),
{
    if oks.len() == 0 {
        Seq::empty()
    } else {
        let rest = changed_analyses(words, oks.drop_last());
        let (i, a) = oks.last();
        if (i as int) < words.len() && a@ != words[i as int].analysis@ {
            rest.push((words[i as int].id, a@))
        } else {
            rest
        }
    }
}

/// The analysis writes after re-analysing `words`, the result of word `i` at index `i`:
/// for each success whose text differs from the stored one, that word's id and the new text;
/// and the report of the batch.
pub fn analysis_updates<E>(words: &Vec<JapaneseWord>, results: Vec<Result<String, E>>) -> (r: (
    Vec<(i64, String)>,
    BatchReport<E>,
))
    requires
        results@.len() == words@.len(),
    ensures
        update_views(r.0@) == changed_analyses(words@, successes(results@)),
        r.1.failures@ == failures(results@),
        r.1.attempted == results@.len(),
        r.1.succeeded == successes(results@).len(),
        r.1.failed == failures(results@).len(),
{
    let ghost all = results@;
    let _total = results.len();
    proof {
        lemma_successes_indices(all);
    }
    let (oks, report) = summarize(results);
    let mut out: Vec<(i64, String)> = Vec::new();
    let mut j: usize = 0;
    assert(oks@.subrange(0, 0) =~= Seq::<(usize, String)>::empty());
    assert(update_views(out@) =~= Seq::<(i64, Seq<char>)>::empty());
    while j < oks.len()
        invariant
            oks@ == successes(all),
            all.len() == words@.len(),
            j <= oks@.len(),
            forall|q: int| 0 <= q < oks@.len() ==> (#[trigger] oks@[q]).0 < all.len(),
            update_views(out@) == changed_analyses(words@, oks@.subrange(0, j as int)),
        decreases oks@.len() - j,
    {
        let ghost pre = oks@.subrange(0, j as int + 1);
        assert(pre.drop_last() =~= oks@.subrange(0, j as int));
        assert(pre.last() == oks@[j as int]);
        let i = oks[j].0;
        assert(oks@[j as int].0 < all.len());
        let w = &words[i];
        let ghost before = out@;
        match analysis_refresh(&w.analysis, oks[j].1.clone()) {
            Some(a) => {
                out.push((w.id, a));
                assert(update_views(out@) =~= update_views(before).push((w.id, oks@[j as int].1@)));
            },
            None => {},
        }
        j += 1;
    }
    assert(oks@.subrange(0, oks@.len() as int) =~= oks@);
    (out, report)
}

} // verus!
