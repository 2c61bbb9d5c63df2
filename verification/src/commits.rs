//! Commits, and how the walk over the history is turned into a list of them.

use vstd::prelude::*;

use crate::oid::{find_oid, Oid};
use crate::refs::{label_views, option_view, LabelView, RefLabel};
use crate::seqs::{are_places, lemma_members_last, lemma_push_place};

verus! {

/// How many commits the list holds at most.
pub const MAX_COMMITS: usize = 2000;

/// One commit of the list.
#[derive(Clone)]
pub struct CommitInfo {
    pub oid: Oid,
    pub summary: String,
    pub author: String,
    /// Seconds since the Unix epoch.
    pub time: i64,
    pub parents: Vec<Oid>,
    /// The labels of the commit.
    pub refs: Vec<RefLabel>,
}

/// The mathematical content of a `CommitInfo`.
#[verifier::ext_equal]
pub struct CommitView {
    pub oid: Oid,
    pub summary: Seq<char>,
    pub author: Seq<char>,
    pub time: i64,
    pub parents: Seq<Oid>,
    pub refs: Seq<LabelView>,
}

impl View for CommitInfo {
    type V = CommitView;

    open spec fn view(&self) -> CommitView {
        CommitView {
            oid: self.oid,
            summary: self.summary@,
            author: self.author@,
            time: self.time,
            parents: self.parents@,
            refs: label_views(self.refs@),
        }
    }
}

/// The contents of a list of commits.
pub open spec fn commit_views(commits: Seq<CommitInfo>) -> Seq<CommitView> {
    commits.map_values(|c: CommitInfo| c@)
}

/// What a lookup of a commit found.
pub struct FoundCommit {
    /// The first paragraph of the message, where that is text.
    pub summary: Option<String>,
    /// The name of the author, where that is text.
    pub author: Option<String>,
    pub time: i64,
    pub parents: Vec<Oid>,
    pub refs: Vec<RefLabel>,
}

/// The mathematical content of a `FoundCommit`.
pub struct FoundView {
    pub summary: Option<Seq<char>>,
    pub author: Option<Seq<char>>,
    pub time: i64,
    pub parents: Seq<Oid>,
    pub refs: Seq<LabelView>,
}

impl View for FoundCommit {
    type V = FoundView;

    open spec fn view(&self) -> FoundView {
        FoundView {
            summary: option_view(self.summary),
            author: option_view(self.author),
            time: self.time,
            parents: self.parents@,
            refs: label_views(self.refs@),
        }
    }
}

/// An optional text, or none.
pub open spec fn or_empty(text: Option<Seq<char>>) -> Seq<char> {
    match text {
        Some(t) => t,
        None => Seq::empty(),
    }
}

/// The list entry of the commit `oid`.
pub open spec fn entry_of(oid: Oid, found: FoundView) -> CommitView {
    CommitView {
        oid,
        summary: or_empty(found.summary),
        author: or_empty(found.author),
        time: found.time,
        parents: found.parents,
        refs: found.refs,
    }
}

/// The text, or an empty one.
fn unwrap_text(text: Option<String>) -> (r: String)
    ensures
        r@ == or_empty(option_view(text)),
{
    match text {
        Some(t) => t,
        None => String::new(),
    }
}

/// Collects the commits that a walk over the history comes by.
///
/// For each id of the walk, `wants` says whether to look the commit up; `add`
/// takes what the lookup found and says whether the walk can stop.
pub struct CommitLoader {
    max: usize,
    seen: Vec<Oid>,
    commits: Vec<CommitInfo>,
}

/// The mathematical content of a `CommitLoader`.
#[verifier::ext_equal]
pub struct LoaderView {
    /// How many commits are enough.
    pub max: usize,
    /// The ids that the walk came by, each once.
    pub seen: Seq<Oid>,
    pub commits: Seq<CommitView>,
}

impl View for CommitLoader {
    type V = LoaderView;

    closed spec fn view(&self) -> LoaderView {
        LoaderView { max: self.max, seen: self.seen@, commits: commit_views(self.commits@) }
    }
}

impl LoaderView {
    /// The loader after the walk came by `oid`.
    pub open spec fn after_id(self, oid: Oid) -> LoaderView {
        if self.seen.contains(oid) {
            self
        } else {
            LoaderView { seen: self.seen.push(oid), ..self }
        }
    }

    /// The loader after a lookup of `oid`.
    pub open spec fn after_lookup(self, oid: Oid, found: FoundView) -> LoaderView {
        LoaderView { commits: self.commits.push(entry_of(oid, found)), ..self }
    }

    /// Whether the commits are enough. The question is asked after a commit came in.
    pub open spec fn is_full(self) -> bool {
        self.commits.len() >= self.max
    }
}

impl CommitLoader {
    /// A loader without commits, for which `max` commits are enough.
    pub fn new(max: usize) -> (loader: CommitLoader)
        ensures
            loader@ == (LoaderView { max, seen: Seq::empty(), commits: Seq::empty() }),
    {
        let loader = CommitLoader { max, seen: Vec::new(), commits: Vec::new() };
        assert(loader@.commits =~= Seq::empty());
        loader
    }

    /// The walk comes by `oid`. Says whether to look it up: only the first time.
    pub fn wants(&mut self, oid: Oid) -> (r: bool)
        ensures
            r == !old(self)@.seen.contains(oid),
            final(self)@ == old(self)@.after_id(oid),
    {
        match find_oid(&self.seen, oid) {
            Some(_) => false,
            None => {
                self.seen.push(oid);
                true
            },
        }
    }

    /// The lookup of `oid` found a commit. Says whether the commits are enough.
    pub fn add(&mut self, oid: Oid, found: FoundCommit) -> (full: bool)
        ensures
            final(self)@ == old(self)@.after_lookup(oid, found@),
            full == final(self)@.is_full(),
    {
        let commit = CommitInfo {
            oid,
            summary: unwrap_text(found.summary),
            author: unwrap_text(found.author),
            time: found.time,
            parents: found.parents,
            refs: found.refs,
        };
        let ghost before = self.commits@;
        self.commits.push(commit);
        assert(commit_views(self.commits@) =~= commit_views(before).push(entry_of(oid, found@)));
        self.commits.len() >= self.max
    }

    /// The commits that came in, in the order of the walk.
    pub fn into_commits(self) -> (commits: Vec<CommitInfo>)
        ensures
            commit_views(commits@) == self@.commits,
    {
        self.commits
    }
}

/// One step of a walk: an id, and what looking it up finds.
pub struct WalkStep {
    pub oid: Oid,
    pub found: Option<FoundCommit>,
}

/// The mathematical content of a `WalkStep`.
pub struct StepView {
    pub oid: Oid,
    pub found: Option<FoundView>,
}

impl View for WalkStep {
    type V = StepView;

    open spec fn view(&self) -> StepView {
        StepView {
            oid: self.oid,
            found: match self.found {
                Some(f) => Some(f@),
                None => None,
            },
        }
    }
}

/// The contents of a walk.
pub open spec fn step_views(walk: Seq<WalkStep>) -> Seq<StepView> {
    walk.map_values(|s: WalkStep| s@)
}

/// Whether the walk comes by `oid`.
pub open spec fn comes_by(walk: Seq<StepView>, oid: Oid) -> bool {
    exists|i: int| 0 <= i < walk.len() && (#[trigger] walk[i]).oid == oid
}

/// The commits of a walk: those found where the walk comes by their id for the
/// first time, in the order of the walk.
pub open spec fn commits_of(walk: Seq<StepView>) -> Seq<CommitView>
    decreases walk.len(),
{
    if walk.len() == 0 {
        Seq::empty()
    } else {
        let before = commits_of(walk.drop_last());
        let step = walk.last();
        if step.found is Some && !comes_by(walk.drop_last(), step.oid) {
            before.push(entry_of(step.oid, step.found->0))
        } else {
            before
        }
    }
}

/// The number of commits that are enough: `max`, but at least one, since the
/// walk is stopped only after a commit came in.
pub open spec fn enough(max: usize) -> int {
    if max == 0 {
        1
    } else {
        max as int
    }
}

/// The commits that are loaded from a walk: its first ones, up to what is enough.
pub open spec fn loaded(walk: Seq<StepView>, max: usize) -> Seq<CommitView> {
    let commits = commits_of(walk);
    if commits.len() <= enough(max) {
        commits
    } else {
        commits.take(enough(max))
    }
}

/// A walk that is longer has the same first commits.
proof fn lemma_commits_of_prefix(walk: Seq<StepView>, n: int)
    requires
        0 <= n <= walk.len(),
    ensures
        commits_of(walk.take(n)).len() <= commits_of(walk).len(),
        commits_of(walk).take(commits_of(walk.take(n)).len() as int) == commits_of(walk.take(n)),
    decreases walk.len(),
{
    let part = commits_of(walk.take(n));
    if n == walk.len() {
        assert(walk.take(n) =~= walk);
        assert(part.take(part.len() as int) =~= part);
    } else {
        let less = walk.drop_last();
        lemma_commits_of_prefix(less, n);
        assert(less.take(n) =~= walk.take(n));
        assert(commits_of(walk).take(part.len() as int) =~= commits_of(less).take(
            part.len() as int,
        ));
    }
}

/// Loads commits from a walk whose lookups are made already.
pub fn load_commits(walk: Vec<WalkStep>, max: usize) -> (commits: Vec<CommitInfo>)
    ensures
        commit_views(commits@) == loaded(step_views(walk@), max),
{
    let ghost steps = step_views(walk@);
    let mut loader = CommitLoader::new(max);
    assert(steps.take(0) =~= Seq::<StepView>::empty());
    for step in it: walk
        invariant
            it.seq() == walk@,
            steps == step_views(walk@),
            loader@.max == max,
            loader@.commits == commits_of(steps.take(it.index() as int)),
            loader@.commits.len() == 0 || loader@.commits.len() < max,
            forall|oid: Oid| #[trigger]
                loader@.seen.contains(oid) <==> comes_by(steps.take(it.index() as int), oid),
    {
        let ghost i = it.index() as int;
        let ghost walked = steps.take(i);
        let ghost longer = steps.take(i + 1);
        proof {
            assert(longer.drop_last() =~= walked);
            assert(longer.last() == step@);
            lemma_comes_by(longer);
            lemma_members_last(loader@.seen.push(step.oid));
            assert(loader@.seen.push(step.oid).drop_last() =~= loader@.seen);
        }
        if loader.wants(step.oid) {
            if let Some(found) = step.found {
                if loader.add(step.oid, found) {
                    proof {
                        lemma_commits_of_prefix(steps, i + 1);
                    }
                    return loader.into_commits();
                }
            }
        }
    }
    assert(steps.take(steps.len() as int) =~= steps);
    loader.into_commits()
}

/// The last step adds its id to those that the walk comes by.
proof fn lemma_comes_by(walk: Seq<StepView>)
    requires
        walk.len() > 0,
    ensures
        forall|oid: Oid| #[trigger]
            comes_by(walk, oid) <==> comes_by(walk.drop_last(), oid) || oid == walk.last().oid,
{
    let less = walk.drop_last();
    assert forall|oid: Oid| #[trigger] comes_by(walk, oid) <==> comes_by(less, oid) || oid
        == walk.last().oid by {
        if comes_by(walk, oid) {
            let i = choose|i: int| 0 <= i < walk.len() && (#[trigger] walk[i]).oid == oid;
            if i < less.len() {
                assert(less[i].oid == oid);
            }
        }
        if comes_by(less, oid) {
            let i = choose|i: int| 0 <= i < less.len() && (#[trigger] less[i]).oid == oid;
            assert(walk[i].oid == oid);
        }
        if oid == walk.last().oid {
            assert(walk[walk.len() - 1].oid == oid);
        }
    }
}

/// The walk comes by each of its commits.
proof fn lemma_commits_come_up(walk: Seq<StepView>, i: int)
    requires
        0 <= i < commits_of(walk).len(),
    ensures
        comes_by(walk, commits_of(walk)[i].oid),
    decreases walk.len(),
{
    let less = walk.drop_last();
    lemma_comes_by(walk);
    if i < commits_of(less).len() {
        lemma_commits_come_up(less, i);
    }
}

/// No commit is listed twice.
pub proof fn law_no_commit_twice(walk: Seq<StepView>, max: usize, i: int, j: int)
    requires
        0 <= i < j < loaded(walk, max).len(),
    ensures
        loaded(walk, max)[i].oid != loaded(walk, max)[j].oid,
{
    lemma_commits_are_distinct(walk, i, j);
}

proof fn lemma_commits_are_distinct(walk: Seq<StepView>, i: int, j: int)
    requires
        0 <= i < j < commits_of(walk).len(),
    ensures
        commits_of(walk)[i].oid != commits_of(walk)[j].oid,
    decreases walk.len(),
{
    let less = walk.drop_last();
    if j < commits_of(less).len() {
        lemma_commits_are_distinct(less, i, j);
    } else {
        lemma_commits_come_up(less, i);
    }
}

/// At most `max` commits are listed, or one where `max` is zero.
pub proof fn law_at_most_enough(walk: Seq<StepView>, max: usize)
    ensures
        loaded(walk, max).len() <= enough(max),
        commits_of(walk).len() >= enough(max) ==> loaded(walk, max).len() == enough(max),
{
}

/// Where there is room for all, every commit that was found when the walk first
/// came by it is listed, as it was found.
pub proof fn law_every_found_commit_is_listed(walk: Seq<StepView>, max: usize, i: int)
    requires
        0 <= i < walk.len(),
        walk[i].found is Some,
        !comes_by(walk.take(i), walk[i].oid),
        commits_of(walk).len() <= enough(max),
    ensures
        loaded(walk, max).contains(entry_of(walk[i].oid, walk[i].found->0)),
{
    let longer = walk.take(i + 1);
    let commit = entry_of(walk[i].oid, walk[i].found->0);
    assert(longer.drop_last() =~= walk.take(i));
    assert(longer.last() == walk[i]);
    lemma_commits_of_prefix(walk, i + 1);
    let n = commits_of(longer).len() as int;
    assert(commits_of(longer)[n - 1] == commit);
    assert(commits_of(walk).take(n)[n - 1] == commits_of(walk)[n - 1]);
}

/// The walk remembers each id once, whatever it comes by.
pub proof fn law_ids_are_seen_once(loader: LoaderView, oid: Oid)
    requires
        loader.seen.no_duplicates(),
    ensures
        loader.after_id(oid).seen.no_duplicates(),
        loader.after_id(oid).seen.contains(oid),
        loader.after_id(oid).after_id(oid) == loader.after_id(oid),
{
    if !loader.seen.contains(oid) {
        assert(loader.seen.push(oid)[loader.seen.len() as int] == oid);
    }
}

/// The content of a commit is what its fields hold.
pub proof fn law_content_of_a_commit(commit: CommitInfo)
    ensures
        commit@.oid == commit.oid,
        commit@.summary == commit.summary@,
        commit@.author == commit.author@,
        commit@.time == commit.time,
        commit@.parents == commit.parents@,
        commit@.refs.len() == commit.refs@.len(),
        forall|k: int|
            0 <= k < commit.refs@.len() ==> (#[trigger] commit@.refs[k]).name
                == commit.refs@[k].name@ && commit@.refs[k].class == commit.refs@[k].class,
{
    assert(label_views(commit.refs@).len() == commit.refs@.len());
}

/// The content of what a lookup found is what its fields hold.
pub proof fn law_content_of_a_found_commit(found: FoundCommit)
    ensures
        found.summary matches Some(text) ==> found@.summary == Some(text@),
        found.summary is None ==> found@.summary is None,
        found.author matches Some(text) ==> found@.author == Some(text@),
        found.author is None ==> found@.author is None,
        found@.time == found.time,
        found@.parents == found.parents@,
        found@.refs.len() == found.refs@.len(),
        forall|k: int|
            0 <= k < found.refs@.len() ==> (#[trigger] found@.refs[k]).name == found.refs@[k].name@
                && found@.refs[k].class == found.refs@[k].class,
{
    assert(label_views(found.refs@).len() == found.refs@.len());
}

/// The contents of a list of commits, and of a walk, are those of their elements.
pub proof fn law_contents_of_lists(commits: Seq<CommitInfo>, walk: Seq<WalkStep>, i: int)
    ensures
        commit_views(commits).len() == commits.len(),
        0 <= i < commits.len() ==> commit_views(commits)[i] == commits[i]@,
        step_views(walk).len() == walk.len(),
        0 <= i < walk.len() ==> {
            &&& step_views(walk)[i].oid == walk[i].oid
            &&& walk[i].found matches Some(found) ==> step_views(walk)[i].found == Some(found@)
            &&& walk[i].found is None ==> step_views(walk)[i].found is None
        },
{
}

/// Whether a commit carries what its lookup found, field by field: its summary
/// and author are those found where they are text, and empty where they are not.
spec fn carries(commit: CommitView, found: FoundView) -> bool {
    &&& found.summary matches Some(text) ==> commit.summary == text
    &&& found.summary is None ==> commit.summary.len() == 0
    &&& found.author matches Some(text) ==> commit.author == text
    &&& found.author is None ==> commit.author.len() == 0
    &&& commit.time == found.time
    &&& commit.parents == found.parents
    &&& commit.refs == found.refs
}

/// Whether the walk comes by the id of step `i` there for the first time, and the
/// lookup finds a commit.
spec fn is_news(walk: Seq<StepView>, i: int) -> bool {
    &&& walk[i].found is Some
    &&& forall|h: int| 0 <= h < i ==> (#[trigger] walk[h]).oid != walk[i].oid
}

/// The steps that the commits of a walk come from.
proof fn lemma_steps_of_commits(walk: Seq<StepView>) -> (at: Seq<int>)
    ensures
        are_places(at, walk.len() as int),
        at.len() == commits_of(walk).len(),
        forall|i: int| 0 <= i < walk.len() ==> (#[trigger] at.contains(i) <==> is_news(walk, i)),
        forall|k: int|
            0 <= k < at.len() ==> commits_of(walk)[k].oid == walk[#[trigger] at[k]].oid && carries(
                commits_of(walk)[k],
                walk[at[k]].found->0,
            ),
    decreases walk.len(),
{
    if walk.len() == 0 {
        Seq::empty()
    } else {
        let less = walk.drop_last();
        let n = less.len() as int;
        let before = lemma_steps_of_commits(less);
        lemma_push_place(before, n);
        assert(comes_by(less, walk[n].oid) <==> exists|h: int|
            0 <= h < n && (#[trigger] walk[h]).oid == walk[n].oid) by {
            if comes_by(less, walk[n].oid) {
                let h = choose|h: int|
                    0 <= h < less.len() && (#[trigger] less[h]).oid == walk[n].oid;
                assert(walk[h].oid == walk[n].oid);
            }
            if exists|h: int| 0 <= h < n && (#[trigger] walk[h]).oid == walk[n].oid {
                let h = choose|h: int| 0 <= h < n && (#[trigger] walk[h]).oid == walk[n].oid;
                assert(less[h].oid == walk[n].oid);
            }
        }
        let at = if is_news(walk, n) {
            before.push(n)
        } else {
            before
        };
        assert forall|i: int| 0 <= i < n implies (is_news(walk, i) <==> is_news(less, i)) by {
            assert forall|h: int| 0 <= h < i implies less[h] == walk[h] by {}
        }
        assert forall|i: int| 0 <= i < walk.len() implies (#[trigger] at.contains(i) <==> is_news(
            walk,
            i,
        )) by {
            if i < n {
                assert(before.contains(i) <==> is_news(less, i));
            }
        }
        assert forall|k: int| 0 <= k < at.len() implies commits_of(walk)[k].oid
            == walk[#[trigger] at[k]].oid && carries(commits_of(walk)[k], walk[at[k]].found->0) by {
            if k < before.len() {
                assert(before[k] == at[k]);
                assert(commits_of(walk)[k] == commits_of(less)[k]);
                assert(walk[at[k]] == less[before[k]]);
            }
        }
        at
    }
}

/// The list is made from the steps `at` of the walk, in their order: those where
/// the walk comes by an id for the first time and the lookup finds a commit. Each
/// commit carries what its lookup found, field by field. All such steps are listed
/// where they are at most `max`, or one where `max` is zero; where they are more,
/// the list holds the first of them, as many as that.
pub proof fn law_list_of_the_walk(walk: Seq<StepView>, max: usize) -> (at: Seq<int>)
    ensures
        are_places(at, walk.len() as int),
        loaded(walk, max).len() == at.len(),
        forall|k: int|
            0 <= k < at.len() ==> {
                let commit = loaded(walk, max)[k];
                let step = walk[#[trigger] at[k]];
                &&& step.found matches Some(found)
                &&& commit.oid == step.oid
                &&& found.summary matches Some(text) ==> commit.summary == text
                &&& found.summary is None ==> commit.summary.len() == 0
                &&& found.author matches Some(text) ==> commit.author == text
                &&& found.author is None ==> commit.author.len() == 0
                &&& commit.time == found.time
                &&& commit.parents == found.parents
                &&& commit.refs == found.refs
            },
        forall|k: int, h: int|
            0 <= k < at.len() && 0 <= h < at[k] ==> (#[trigger] walk[h]).oid
                != walk[#[trigger] at[k]].oid,
        at.len() <= max || max == 0 && at.len() <= 1,
        forall|i: int|
            0 <= i < walk.len() && walk[i].found is Some && (forall|h: int|
                0 <= h < i ==> (#[trigger] walk[h]).oid != walk[i].oid) && !#[trigger] at.contains(i)
                ==> at.len() >= max && at.len() > 0 && at.last() < i,
{
    let all = lemma_steps_of_commits(walk);
    let n = loaded(walk, max).len() as int;
    let at = all.take(n);
    assert forall|k: int| 0 <= k < at.len() implies is_news(walk, #[trigger] at[k])
        && loaded(walk, max)[k].oid == walk[at[k]].oid && carries(
        loaded(walk, max)[k],
        walk[at[k]].found->0,
    ) by {
        assert(at[k] == all[k]);
        assert(all.contains(all[k]));
    }
    assert forall|i: int|
        0 <= i < walk.len() && is_news(walk, i) && !#[trigger] at.contains(i) implies at.len() >= max
        && at.len() > 0 && at.last() < i by {
        assert(all.contains(i));
        let k = choose|k: int| 0 <= k < all.len() && all[k] == i;
        if k < n {
            assert(at[k] == i);
        }
        assert(all[n - 1] < all[k]);
    }
    at
}

/// Taking in what a lookup found keeps the list and adds one commit at its end,
/// which carries what was found.
pub proof fn law_lookup_adds_a_commit(loader: LoaderView, oid: Oid, found: FoundView)
    ensures
        ({
            let after = loader.after_lookup(oid, found);
            &&& after.max == loader.max
            &&& after.seen == loader.seen
            &&& after.commits.len() == loader.commits.len() + 1
            &&& after.commits.drop_last() == loader.commits
            &&& after.commits.last().oid == oid
            &&& found.summary matches Some(text) ==> after.commits.last().summary == text
            &&& found.summary is None ==> after.commits.last().summary.len() == 0
            &&& found.author matches Some(text) ==> after.commits.last().author == text
            &&& found.author is None ==> after.commits.last().author.len() == 0
            &&& after.commits.last().time == found.time
            &&& after.commits.last().parents == found.parents
            &&& after.commits.last().refs == found.refs
        }),
{
    assert(loader.after_lookup(oid, found).commits.drop_last() =~= loader.commits);
}

/// Coming by an id adds it to those seen, and leaves the list as it is; the list
/// is full exactly when it holds `max` commits or more.
pub proof fn law_ids_are_remembered(loader: LoaderView, oid: Oid, x: Oid)
    ensures
        loader.after_id(oid).seen.contains(x) <==> loader.seen.contains(x) || x == oid,
        loader.after_id(oid).commits == loader.commits,
        loader.after_id(oid).max == loader.max,
        loader.is_full() <==> loader.max <= loader.commits.len(),
{
    let more = loader.seen.push(oid);
    assert(more.drop_last() =~= loader.seen);
    lemma_members_last(more);
}

} // verus!
