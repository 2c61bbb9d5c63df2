use gitkview::oid::Oid;
use gitkview::refs::{collect_refs, ref_class, RefClass, RefEntry};

fn oid(n: u8) -> Oid {
    Oid { bytes: [n; 20] }
}

fn entry(target: Option<Oid>, shorthand: &str, name: &str) -> RefEntry {
    RefEntry {
        target,
        shorthand: Some(shorthand.to_string()),
        name: Some(name.to_string()),
    }
}

fn labels(entries: Vec<RefEntry>, head: Option<Oid>, oid: Oid) -> Vec<(String, RefClass)> {
    collect_refs(&entries, head, oid).into_iter().map(|l| (l.name, l.class)).collect()
}

fn label(name: &str, class: RefClass) -> (String, RefClass) {
    (name.to_string(), class)
}

fn some_entries() -> Vec<RefEntry> {
    vec![
        entry(Some(oid(1)), "main", "refs/heads/main"),
        entry(Some(oid(1)), "upstream/main", "refs/remotes/upstream/main"),
        entry(Some(oid(1)), "v1", "refs/tags/v1"),
        entry(Some(oid(1)), "origin/fix", "refs/heads/origin/fix"),
        entry(Some(oid(1)), "stash", "refs/stash"),
        entry(Some(oid(2)), "other", "refs/heads/other"),
        entry(None, "origin/HEAD", "refs/remotes/origin/HEAD"),
    ]
}

#[test]
fn branches_remotes_and_tags_are_labels() {
    let expected = vec![
        label("main", RefClass::Branch),
        label("upstream/main", RefClass::Remote),
        label("v1", RefClass::Tag),
        label("origin/fix", RefClass::Branch),
    ];
    assert_eq!(labels(some_entries(), None, oid(1)), expected);
    assert_eq!(labels(some_entries(), Some(oid(2)), oid(1)), expected);
    assert!(labels(some_entries(), None, oid(3)).is_empty());
}

#[test]
fn head_comes_first() {
    let entries = vec![entry(Some(oid(1)), "main", "refs/heads/main")];
    assert_eq!(
        labels(entries, Some(oid(1)), oid(1)),
        vec![label("HEAD", RefClass::Head), label("main", RefClass::Branch)]
    );
    assert_eq!(labels(vec![], Some(oid(1)), oid(1)), vec![label("HEAD", RefClass::Head)]);
}

#[test]
fn head_is_not_repeated() {
    let entries = vec![
        entry(Some(oid(1)), "main", "refs/heads/main"),
        entry(Some(oid(1)), "HEAD", "refs/heads/HEAD"),
    ];
    assert_eq!(
        labels(entries, Some(oid(1)), oid(1)),
        vec![label("main", RefClass::Branch), label("HEAD", RefClass::Branch)]
    );
}

#[test]
fn references_without_a_text_name_are_no_labels() {
    let entries = vec![
        RefEntry { target: Some(oid(1)), shorthand: None, name: Some("refs/heads/a".to_string()) },
        RefEntry { target: Some(oid(1)), shorthand: Some("b".to_string()), name: None },
    ];
    assert!(labels(entries, None, oid(1)).is_empty());
}

#[test]
fn look_of_labels() {
    assert_eq!(ref_class("refs/heads/main"), RefClass::Branch);
    assert_eq!(ref_class("refs/heads/origin/main"), RefClass::Branch);
    assert_eq!(ref_class("refs/remotes/origin/main"), RefClass::Remote);
    assert_eq!(ref_class("refs/remotes/upstream/main"), RefClass::Remote);
    assert_eq!(ref_class("refs/tags/v1"), RefClass::Tag);
    assert_eq!(ref_class("refs/tags"), RefClass::Branch);
    assert_eq!(ref_class(""), RefClass::Branch);
    assert_eq!(RefClass::Head.css_class(), "ref-head");
    assert_eq!(RefClass::Remote.css_class(), "ref-remote");
    assert_eq!(RefClass::Tag.css_class(), "ref-tag");
    assert_eq!(RefClass::Branch.css_class(), "ref-branch");
}
