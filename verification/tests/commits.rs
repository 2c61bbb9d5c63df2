use gitkview::commits::{load_commits, CommitLoader, FoundCommit, WalkStep, MAX_COMMITS};
use gitkview::listing::{commit_at, commit_row, row_with_date};
use gitkview::oid::Oid;
use gitkview::refs::{RefClass, RefLabel};

fn oid(n: u8) -> Oid {
    Oid { bytes: [n; 20] }
}

fn label(name: &str, class: RefClass) -> RefLabel {
    RefLabel { name: name.to_string(), class }
}

fn found(n: u8) -> FoundCommit {
    FoundCommit {
        summary: Some(format!("commit {}", n)),
        author: Some("A U Thor".to_string()),
        time: n as i64,
        parents: vec![oid(n + 1)],
        refs: vec![label("main", RefClass::Branch)],
    }
}

fn step(n: u8) -> WalkStep {
    WalkStep { oid: oid(n), found: Some(found(n)) }
}

fn ids(walk: Vec<WalkStep>, max: usize) -> Vec<u8> {
    load_commits(walk, max).iter().map(|c| c.oid.bytes[0]).collect()
}

#[test]
fn commits_come_in_the_order_of_the_walk() {
    assert_eq!(ids(vec![step(3), step(1), step(2)], 10), vec![3, 1, 2]);
}

#[test]
fn each_commit_comes_once() {
    assert_eq!(ids(vec![step(1), step(2), step(1), step(2)], 10), vec![1, 2]);
}

#[test]
fn commits_that_are_not_found_are_skipped() {
    let walk = vec![
        step(1),
        WalkStep { oid: oid(2), found: None },
        step(3),
        step(2),
    ];
    // The walk comes by 2 a second time, but it is looked up only once.
    assert_eq!(ids(walk, 10), vec![1, 3]);
}

#[test]
fn walk_stops_at_the_maximum() {
    assert_eq!(ids(vec![step(1), step(2), step(3)], 2), vec![1, 2]);
    assert_eq!(ids(vec![step(1), step(2), step(3)], 3), vec![1, 2, 3]);
}

#[test]
fn maximum_of_zero_still_lists_one() {
    assert_eq!(ids(vec![step(1), step(2)], 0), vec![1]);
    assert!(ids(vec![], 0).is_empty());
}

#[test]
fn loader_asks_for_each_id_once() {
    let mut loader = CommitLoader::new(2);
    assert!(loader.wants(oid(1)));
    assert!(!loader.wants(oid(1)));
    assert!(!loader.add(oid(1), found(1)));
    assert!(loader.wants(oid(2)));
    assert!(loader.add(oid(2), found(2)));
    let commits = loader.into_commits();
    assert_eq!(commits.len(), 2);
    assert_eq!(commits[1].summary, "commit 2");
    assert_eq!(commits[1].author, "A U Thor");
    assert_eq!(commits[1].time, 2);
    assert!(commits[1].parents == vec![oid(3)]);
    assert_eq!(commits[1].refs.len(), 1);
    assert_eq!(commits[1].refs[0].name, "main");
    assert_eq!(commits[1].refs[0].class, RefClass::Branch);
}

#[test]
fn missing_text_is_empty() {
    let mut loader = CommitLoader::new(MAX_COMMITS);
    loader.add(
        oid(1),
        FoundCommit { summary: None, author: None, time: 0, parents: vec![], refs: vec![] },
    );
    let commits = loader.into_commits();
    assert_eq!(commits[0].summary, "");
    assert_eq!(commits[0].author, "");
}

#[test]
fn list_holds_two_thousand() {
    assert_eq!(MAX_COMMITS, 2000);
}

#[test]
fn row_of_a_commit() {
    let mut loader = CommitLoader::new(1);
    let mut f = found(1);
    f.time = 1431648000;
    f.refs = vec![
        label("HEAD", RefClass::Head),
        label("upstream/main", RefClass::Remote),
        label("origin/fix", RefClass::Branch),
        label("v1", RefClass::Tag),
    ];
    loader.add(oid(1), f);
    let commits = loader.into_commits();
    let row = commit_row(&commits[0]);
    assert_eq!(row.summary, "commit 1");
    assert_eq!(row.author, "A U Thor");
    assert_eq!(row.date, "2015-05-15 00:00");
    let labels: Vec<(&str, RefClass)> =
        row.labels.iter().map(|l| (l.name.as_str(), l.class)).collect();
    assert_eq!(
        labels,
        vec![
            ("HEAD", RefClass::Head),
            ("upstream/main", RefClass::Remote),
            ("origin/fix", RefClass::Branch),
            ("v1", RefClass::Tag),
        ]
    );
    assert_eq!(row_with_date(&commits[0], Some("today".to_string())).date, "today");
    assert_eq!(row_with_date(&commits[0], None).date, "");
}

#[test]
fn time_without_a_date_has_no_label() {
    let mut loader = CommitLoader::new(1);
    let mut f = found(1);
    f.time = i64::MAX;
    loader.add(oid(1), f);
    assert_eq!(commit_row(&loader.into_commits()[0]).date, "");
}

#[test]
fn commit_of_a_row() {
    let commits = load_commits(vec![step(1), step(2)], 10);
    assert!(commit_at(&commits, 0).unwrap().oid == oid(1));
    assert!(commit_at(&commits, 1).unwrap().oid == oid(2));
    assert!(commit_at(&commits, 2).is_none());
    assert!(commit_at(&commits, -1).is_none());
}
