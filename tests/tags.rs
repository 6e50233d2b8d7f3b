use anki_creator::tags::{join_tags, merge_tags, split_tags, union_into};

fn strings(v: &[&str]) -> Vec<String> {
    v.iter().map(|s| s.to_string()).collect()
}

#[test]
fn union_of_tag_sets_is_duplicate_free_and_ordered() {
    let a = strings(&["名词"]);
    let b = strings(&["名词", "他动词"]);
    assert_eq!(merge_tags(&a, &b), strings(&["名词", "他动词"]));
}

#[test]
fn union_keeps_first_appearance_order() {
    let a = strings(&["他动词", "名词"]);
    let b = strings(&["自动词", "名词", "他动词", "自动词"]);
    assert_eq!(merge_tags(&a, &b), strings(&["他动词", "名词", "自动词"]));
}

#[test]
fn union_into_empty_removes_repeats() {
    let mut acc: Vec<String> = Vec::new();
    union_into(&mut acc, &strings(&["副词", "副词", "名词"]));
    assert_eq!(acc, strings(&["副词", "名词"]));
}

#[test]
fn join_and_split_tags() {
    let tags = strings(&["自动词", "他动词"]);
    let joined = join_tags(&tags);
    assert_eq!(joined, "自动词｜他动词");
    assert_eq!(split_tags(&joined), tags);
}

#[test]
fn join_of_no_tags_is_empty_and_split_of_empty_is_one_piece() {
    assert_eq!(join_tags(&Vec::new()), "");
    assert_eq!(split_tags(""), strings(&[""]));
    assert_eq!(split_tags("名词｜"), strings(&["名词", ""]));
}
