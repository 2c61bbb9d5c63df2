//! The rows of the commit list.

use vstd::prelude::*;

use crate::commits::{or_empty, CommitInfo};
use crate::dates::{date_to_the_minute, has_date, utc_text};
use crate::refs::{label_views, option_view, RefLabel};

verus! {

/// What the list shows of a commit, from left to right, right of the graph.
pub struct CommitRow {
    pub labels: Vec<RefLabel>,
    pub summary: String,
    pub author: String,
    pub date: String,
}

/// Whether `row` shows `commit` with the date `date`.
pub open spec fn shows(row: CommitRow, commit: CommitInfo, date: Seq<char>) -> bool {
    &&& label_views(row.labels@) == label_views(commit.refs@)
    &&& row.summary@ == commit.summary@
    &&& row.author@ == commit.author@
    &&& row.date@ == date
}

/// The row of a commit whose date is `date`.
pub fn row_with_date(commit: &CommitInfo, date: Option<String>) -> (row: CommitRow)
    ensures
        shows(row, *commit, or_empty(option_view(date))),
{
    let mut labels: Vec<RefLabel> = Vec::new();
    assert(label_views(labels@) =~= label_views(commit.refs@).take(0));
    for i in 0..commit.refs.len()
        invariant
            label_views(labels@) == label_views(commit.refs@).take(i as int),
    {
        let label = &commit.refs[i];
        let copy = RefLabel { name: label.name.clone(), class: label.class };
        assert(copy@ == label_views(commit.refs@)[i as int]);
        let ghost before = labels@;
        labels.push(copy);
        assert(label_views(labels@) =~= label_views(before).push(copy@));
        assert(label_views(labels@) =~= label_views(commit.refs@).take(i + 1));
    }
    assert(label_views(labels@) =~= label_views(commit.refs@));
    let date = match date {
        Some(d) => d,
        None => String::new(),
    };
    CommitRow { labels, summary: commit.summary.clone(), author: commit.author.clone(), date }
}

/// The date that the list shows for a time: nothing for a time without a date.
pub open spec fn listed_date(time: i64) -> Seq<char> {
    if has_date(time) {
        utc_text(time, "%Y-%m-%d %H:%M"@)
    } else {
        Seq::empty()
    }
}

/// The row of a commit.
pub fn commit_row(commit: &CommitInfo) -> (row: CommitRow)
    ensures
        shows(row, *commit, listed_date(commit.time)),
{
    row_with_date(commit, date_to_the_minute(commit.time))
}

/// The commit in the row with the number `index`; none where there is no such row.
pub fn commit_at(commits: &Vec<CommitInfo>, index: i32) -> (r: Option<&CommitInfo>)
    ensures
        match r {
            Some(commit) => 0 <= index < commits.len() && *commit == commits@[index as int],
            None => index < 0 || index >= commits.len(),
        },
{
    if index >= 0 && (index as usize) < commits.len() {
        Some(&commits[index as usize])
    } else {
        None
    }
}

/// A row shows all of the commit: its summary and its author as they are, and its
/// labels in their order.
pub proof fn law_row_shows_the_commit(row: CommitRow, commit: CommitInfo, date: Seq<char>)
    requires
        shows(row, commit, date),
    ensures
        row.summary@ == commit.summary@,
        row.author@ == commit.author@,
        row.date@ == date,
        row.labels@.len() == commit.refs@.len(),
        forall|k: int|
            0 <= k < row.labels@.len() ==> (#[trigger] row.labels@[k]).name@
                == commit.refs@[k].name@ && row.labels@[k].class == commit.refs@[k].class,
{
    assert(label_views(row.labels@).len() == row.labels@.len());
    assert(label_views(commit.refs@).len() == commit.refs@.len());
    assert forall|k: int| 0 <= k < row.labels@.len() implies (#[trigger] row.labels@[k]).name@
        == commit.refs@[k].name@ && row.labels@[k].class == commit.refs@[k].class by {
        assert(label_views(row.labels@)[k] == label_views(commit.refs@)[k]);
    }
}

/// The list shows the date to the minute of every time that has a date.
pub proof fn law_listed_date(time: i64)
    ensures
        has_date(time) ==> listed_date(time) == utc_text(time, "%Y-%m-%d %H:%M"@),
        !has_date(time) ==> listed_date(time).len() == 0,
{
}

} // verus!
