//! Layout of the commit graph in lanes.

use vstd::prelude::*;

use crate::commits::{commit_views, CommitInfo, CommitView};
use crate::oid::Oid;
use crate::seqs::{lemma_members_last, lemma_position, lemma_position_is, position};

verus! {

/// One row of the graph.
#[derive(Clone)]
pub struct GraphRow {
    /// Column of the commit's node.
    pub node_col: usize,
    /// Columns of the other lanes that waited for the commit. They converge: they
    /// come from above and end at the node.
    pub converging: Vec<usize>,
    /// (from_col, to_col, color_col): lines from this row to the next.
    /// from_col: where the line starts
    /// to_col: where the line ends
    /// color_col: the column of the lane whose color the line takes
    pub lines: Vec<(usize, usize, usize)>,
    pub num_cols: usize,
}

/// A line from one row to the next.
pub struct Line {
    pub from: int,
    pub to: int,
    pub color: int,
}

/// The mathematical content of a `GraphRow`.
#[verifier::ext_equal]
pub struct RowView {
    pub node_col: int,
    pub converging: Seq<int>,
    pub lines: Seq<Line>,
    pub num_cols: int,
}

/// The content of a line as a `GraphRow` holds it.
pub open spec fn line_view(line: (usize, usize, usize)) -> Line {
    Line { from: line.0 as int, to: line.1 as int, color: line.2 as int }
}

/// The contents of the lines of a `GraphRow`.
pub open spec fn lines_view(lines: Seq<(usize, usize, usize)>) -> Seq<Line> {
    lines.map_values(|l: (usize, usize, usize)| line_view(l))
}

/// Numbers as mathematical integers.
pub open spec fn ints(s: Seq<usize>) -> Seq<int> {
    s.map_values(|n: usize| n as int)
}

impl View for GraphRow {
    type V = RowView;

    open spec fn view(&self) -> RowView {
        RowView {
            node_col: self.node_col as int,
            converging: ints(self.converging@),
            lines: lines_view(self.lines@),
            num_cols: self.num_cols as int,
        }
    }
}

/// Whether a commit of the list has the id `oid`.
pub open spec fn is_listed(commits: Seq<CommitView>, oid: Oid) -> bool {
    exists|i: int| 0 <= i < commits.len() && (#[trigger] commits[i]).oid == oid
}

/// The parents of a commit that the list shows, in their order.
pub open spec fn shown_parents(commits: Seq<CommitView>, parents: Seq<Oid>) -> Seq<Oid> {
    parents.filter(|p: Oid| is_listed(commits, p))
}

/// The lanes of the row of `oid`. A lane is a slot: it waits for one commit or is
/// empty. A commit that no lane waits for opens a lane on the right.
pub open spec fn row_lanes(lanes: Seq<Option<Oid>>, oid: Oid) -> Seq<Option<Oid>> {
    if lanes.contains(Some(oid)) {
        lanes
    } else {
        lanes.push(Some(oid))
    }
}

/// The lanes that pass the node of `oid` by, each in its column: those that
/// waited for `oid` end.
pub open spec fn passing_lanes(lanes: Seq<Option<Oid>>, oid: Oid) -> Seq<Option<Oid>> {
    row_lanes(lanes, oid).map_values(
        |lane: Option<Oid>|
            if lane == Some(oid) {
                None
            } else {
                lane
            },
    )
}

/// The lanes below the node before any additional parent opened one: the first
/// parent continues in the node's column.
pub open spec fn lanes_with_first(
    lanes: Seq<Option<Oid>>,
    oid: Oid,
    parents: Seq<Oid>,
) -> Seq<Option<Oid>> {
    let passing = passing_lanes(lanes, oid);
    if parents.len() > 0 {
        passing.update(position(lanes, Some(oid)), Some(parents[0]))
    } else {
        passing
    }
}

/// Opens a lane for `oid` in the first empty slot, on the right where there is none.
pub open spec fn fill_slot(lanes: Seq<Option<Oid>>, oid: Oid) -> Seq<Option<Oid>> {
    let slot = position(lanes, None);
    if slot < lanes.len() {
        lanes.update(slot, Some(oid))
    } else {
        lanes.push(Some(oid))
    }
}

/// Opens a lane for each parent that no lane waits for yet.
pub open spec fn open_lanes(lanes: Seq<Option<Oid>>, parents: Seq<Oid>) -> Seq<Option<Oid>>
    decreases parents.len(),
{
    if parents.len() == 0 {
        lanes
    } else {
        let before = open_lanes(lanes, parents.drop_last());
        if before.contains(Some(parents.last())) {
            before
        } else {
            fill_slot(before, parents.last())
        }
    }
}

/// The lanes below the row of `oid`, with the slots that its row leaves empty.
pub open spec fn lanes_below(
    lanes: Seq<Option<Oid>>,
    oid: Oid,
    parents: Seq<Oid>,
) -> Seq<Option<Oid>> {
    open_lanes(lanes_with_first(lanes, oid, parents), parents)
}

/// Lanes without the empty slots on the right.
pub open spec fn trimmed(lanes: Seq<Option<Oid>>) -> Seq<Option<Oid>>
    decreases lanes.len(),
{
    if lanes.len() > 0 && lanes.last() is None {
        trimmed(lanes.drop_last())
    } else {
        lanes
    }
}

/// The lanes above the row that follows the row of `oid`.
pub open spec fn next_lanes(
    lanes: Seq<Option<Oid>>,
    oid: Oid,
    parents: Seq<Oid>,
) -> Seq<Option<Oid>> {
    trimmed(lanes_below(lanes, oid, parents))
}

/// The first `n` columns.
pub open spec fn columns(n: nat) -> Seq<int> {
    Seq::new(n, |col: int| col)
}

/// The columns of the lanes that are not empty.
pub open spec fn live_columns(lanes: Seq<Option<Oid>>) -> Seq<int> {
    columns(lanes.len()).filter(|col: int| lanes[col] is Some)
}

/// The columns, besides the node's, of the lanes that waited for `oid`.
pub open spec fn converging_columns(lanes: Seq<Option<Oid>>, oid: Oid) -> Seq<int> {
    let all = row_lanes(lanes, oid);
    columns(all.len()).filter(
        |col: int| all[col] == Some(oid) && col != position(lanes, Some(oid)),
    )
}

/// The line of the passing lane in column `col`: straight down.
pub open spec fn passing_line(col: int) -> Line {
    Line { from: col, to: col, color: col }
}

/// Whether parent `j`, an additional one, opens a lane.
pub open spec fn opens_lane(passing: Seq<Option<Oid>>, parents: Seq<Oid>, j: int) -> bool {
    j > 0 && !passing.contains(Some(parents[j])) && !parents.take(j).contains(parents[j])
}

/// The line from the node in column `node_col` to parent `j`: straight down to
/// the first parent, to the lane that waits for the parent otherwise. It has the
/// color of the node's lane unless it opens a lane.
pub open spec fn parent_line(
    node_col: int,
    passing: Seq<Option<Oid>>,
    below: Seq<Option<Oid>>,
    parents: Seq<Oid>,
    j: int,
) -> Line {
    if j == 0 {
        passing_line(node_col)
    } else {
        let to = position(below, Some(parents[j]));
        Line {
            from: node_col,
            to,
            color: if opens_lane(passing, parents, j) {
                to
            } else {
                node_col
            },
        }
    }
}

/// The lines out of the row of `oid`: those of the passing lanes from left to
/// right, then those to the parents.
pub open spec fn row_lines(lanes: Seq<Option<Oid>>, oid: Oid, parents: Seq<Oid>) -> Seq<Line> {
    let node_col = position(lanes, Some(oid));
    let passing = passing_lanes(lanes, oid);
    let below = lanes_below(lanes, oid, parents);
    live_columns(passing).map_values(|col: int| passing_line(col)) + Seq::new(
        parents.len(),
        |j: int| parent_line(node_col, passing, below, parents, j),
    )
}

/// The larger of two numbers.
pub open spec fn max_int(a: int, b: int) -> int {
    if a < b {
        b
    } else {
        a
    }
}

/// The row of `oid`, whose shown parents are `parents`, below `lanes`.
pub open spec fn row_below(lanes: Seq<Option<Oid>>, oid: Oid, parents: Seq<Oid>) -> RowView {
    RowView {
        node_col: position(lanes, Some(oid)),
        converging: converging_columns(lanes, oid),
        lines: row_lines(lanes, oid, parents),
        num_cols: max_int(
            row_lanes(lanes, oid).len() as int,
            next_lanes(lanes, oid, parents).len() as int,
        ),
    }
}

/// The lanes above row `i`, from left to right.
pub open spec fn lanes_above(commits: Seq<CommitView>, i: int) -> Seq<Option<Oid>>
    decreases i,
{
    if i <= 0 {
        Seq::empty()
    } else {
        next_lanes(
            lanes_above(commits, i - 1),
            commits[i - 1].oid,
            shown_parents(commits, commits[i - 1].parents),
        )
    }
}

/// Row `i` of the graph.
pub open spec fn graph_row(commits: Seq<CommitView>, i: int) -> RowView {
    row_below(
        lanes_above(commits, i),
        commits[i].oid,
        shown_parents(commits, commits[i].parents),
    )
}

/// The node stands in the first lane that waits for its commit.
pub(crate) proof fn lemma_row_lanes(lanes: Seq<Option<Oid>>, oid: Oid)
    ensures
        0 <= position(lanes, Some(oid)) < row_lanes(lanes, oid).len(),
        row_lanes(lanes, oid)[position(lanes, Some(oid))] == Some(oid),
        forall|col: int|
            0 <= col < lanes.len() ==> row_lanes(lanes, oid)[col] == #[trigger] lanes[col],
        !lanes.contains(Some(oid)) ==> position(lanes, Some(oid)) == lanes.len(),
{
    lemma_position(lanes, Some(oid));
}

/// What the passing lanes wait for.
pub(crate) proof fn lemma_passing_lanes(lanes: Seq<Option<Oid>>, oid: Oid)
    ensures
        passing_lanes(lanes, oid).len() == row_lanes(lanes, oid).len(),
        passing_lanes(lanes, oid)[position(lanes, Some(oid))] is None,
        forall|x: Oid| #[trigger]
            passing_lanes(lanes, oid).contains(Some(x)) <==> lanes.contains(Some(x)) && x != oid,
{
    lemma_row_lanes(lanes, oid);
    let all = row_lanes(lanes, oid);
    let passing = passing_lanes(lanes, oid);
    assert forall|x: Oid| #[trigger] passing.contains(Some(x)) <==> lanes.contains(Some(x)) && x
        != oid by {
        if passing.contains(Some(x)) {
            let c = choose|c: int| 0 <= c < passing.len() && passing[c] == Some(x);
            assert(all[c] == Some(x));
            assert(x != oid);
            assert(lanes[c] == Some(x));
        }
        if lanes.contains(Some(x)) && x != oid {
            let c = choose|c: int| 0 <= c < lanes.len() && lanes[c] == Some(x);
            assert(all[c] == lanes[c]);
            assert(passing[c] == Some(x));
        }
    }
}

/// Filling an empty slot.
pub(crate) proof fn lemma_fill_slot(lanes: Seq<Option<Oid>>, oid: Oid)
    requires
        !lanes.contains(Some(oid)),
    ensures
        position(fill_slot(lanes, oid), Some(oid)) == position(lanes, None),
        lanes.len() <= fill_slot(lanes, oid).len() <= lanes.len() + 1,
        0 <= position(lanes, None) < fill_slot(lanes, oid).len(),
        fill_slot(lanes, oid)[position(lanes, None)] == Some(oid),
        forall|col: int|
            0 <= col < lanes.len() && (#[trigger] lanes[col]) is Some ==> fill_slot(lanes, oid)[col]
                == lanes[col],
        forall|x: Oid| #[trigger]
            fill_slot(lanes, oid).contains(Some(x)) <==> lanes.contains(Some(x)) || x == oid,
        forall|x: Oid|
            lanes.contains(Some(x)) ==> #[trigger] position(fill_slot(lanes, oid), Some(x))
                == position(lanes, Some(x)),
{
    let slot = position(lanes, None);
    let filled = fill_slot(lanes, oid);
    lemma_position(lanes, None);
    assert(filled[slot] == Some(oid));
    assert forall|c: int| 0 <= c < lanes.len() && c != slot implies filled[c] == lanes[c] by {}
    assert forall|c: int| 0 <= c < slot implies filled[c] != Some(oid) by {
        assert(lanes.contains(lanes[c]));
    }
    lemma_position_is(filled, Some(oid), slot);
    assert forall|x: Oid| #[trigger] filled.contains(Some(x)) <==> lanes.contains(Some(x)) || x
        == oid by {
        if filled.contains(Some(x)) {
            let c = choose|c: int| 0 <= c < filled.len() && filled[c] == Some(x);
            if c != slot {
                assert(lanes[c] == Some(x));
            }
        }
        if lanes.contains(Some(x)) {
            let c = choose|c: int| 0 <= c < lanes.len() && lanes[c] == Some(x);
            assert(filled[c] == Some(x));
        }
    }
    assert forall|x: Oid| lanes.contains(Some(x)) implies #[trigger] position(filled, Some(x))
        == position(lanes, Some(x)) by {
        lemma_position(lanes, Some(x));
        let p = position(lanes, Some(x));
        assert(filled[p] == Some(x));
        assert(x != oid);
        lemma_position_is(filled, Some(x), p);
    }
}

/// Opening lanes leaves the lanes that are there alone.
pub(crate) proof fn lemma_open_lanes(lanes: Seq<Option<Oid>>, parents: Seq<Oid>)
    ensures
        open_lanes(lanes, parents).len() >= lanes.len(),
        forall|col: int|
            0 <= col < lanes.len() && (#[trigger] lanes[col]) is Some ==> open_lanes(
                lanes,
                parents,
            )[col] == lanes[col],
        forall|x: Oid| #[trigger]
            open_lanes(lanes, parents).contains(Some(x)) <==> lanes.contains(Some(x))
                || parents.contains(x),
    decreases parents.len(),
{
    if parents.len() > 0 {
        let before = open_lanes(lanes, parents.drop_last());
        lemma_open_lanes(lanes, parents.drop_last());
        lemma_members_last(parents);
        if !before.contains(Some(parents.last())) {
            lemma_fill_slot(before, parents.last());
            let after = open_lanes(lanes, parents);
            assert forall|col: int| 0 <= col < lanes.len() && (
            #[trigger] lanes[col]) is Some implies after[col] == lanes[col] by {
                assert(before[col] == lanes[col]);
            }
        }
    }
}

/// Trimming takes away empty slots only.
pub(crate) proof fn lemma_trimmed(lanes: Seq<Option<Oid>>)
    ensures
        trimmed(lanes).len() <= lanes.len(),
        trimmed(lanes) == lanes.take(trimmed(lanes).len() as int),
        forall|col: int|
            0 <= col < lanes.len() && (#[trigger] lanes[col]) is Some ==> col < trimmed(lanes).len(),
        trimmed(lanes).len() > 0 ==> trimmed(lanes).last() is Some,
        forall|x: Oid| #[trigger] trimmed(lanes).contains(Some(x)) <==> lanes.contains(Some(x)),
    decreases lanes.len(),
{
    if lanes.len() > 0 && lanes.last() is None {
        let less = lanes.drop_last();
        lemma_trimmed(less);
        assert(less.take(trimmed(less).len() as int) =~= lanes.take(trimmed(less).len() as int));
        assert forall|col: int| 0 <= col < lanes.len() && (
        #[trigger] lanes[col]) is Some implies col < trimmed(lanes).len() by {
            assert(less[col] == lanes[col]);
        }
        lemma_members_last(lanes);
    } else {
        assert(lanes.take(lanes.len() as int) =~= lanes);
    }
}

/// The lanes below a row hold the passing lanes in their columns, the first
/// parent in the node's column, and every parent.
pub(crate) proof fn lemma_lanes_below(lanes: Seq<Option<Oid>>, oid: Oid, parents: Seq<Oid>)
    ensures
        ({
            let below = lanes_below(lanes, oid, parents);
            let passing = passing_lanes(lanes, oid);
            let node_col = position(lanes, Some(oid));
            &&& below.len() >= passing.len()
            &&& 0 <= node_col < below.len()
            &&& parents.len() > 0 ==> below[node_col] == Some(parents[0])
            &&& forall|col: int|
                0 <= col < passing.len() && (#[trigger] passing[col]) is Some ==> below[col]
                    == passing[col]
            &&& forall|x: Oid| #[trigger]
                below.contains(Some(x)) <==> passing.contains(Some(x)) || parents.contains(x)
        }),
{
    let passing = passing_lanes(lanes, oid);
    let node_col = position(lanes, Some(oid));
    let first = lanes_with_first(lanes, oid, parents);
    let below = lanes_below(lanes, oid, parents);
    lemma_row_lanes(lanes, oid);
    lemma_passing_lanes(lanes, oid);
    lemma_open_lanes(first, parents);
    assert forall|col: int| 0 <= col < passing.len() && (
    #[trigger] passing[col]) is Some implies first[col] == passing[col] by {}
    assert forall|x: Oid| #[trigger] first.contains(Some(x)) <==> passing.contains(Some(x)) || (
    parents.len() > 0 && x == parents[0]) by {
        if first.contains(Some(x)) {
            let c = choose|c: int| 0 <= c < first.len() && first[c] == Some(x);
            if c != node_col {
                assert(passing[c] == Some(x));
            }
        }
        if passing.contains(Some(x)) {
            let c = choose|c: int| 0 <= c < passing.len() && passing[c] == Some(x);
            assert(first[c] == Some(x));
        }
        if parents.len() > 0 && x == parents[0] {
            assert(first[node_col] == Some(x));
        }
    }
    if parents.len() > 0 {
        assert(first[node_col] == Some(parents[0]));
        assert(parents.contains(parents[0]));
    }
}

/// What one more parent does to the lanes below and to the lines.
proof fn lemma_add_parent(lanes: Seq<Option<Oid>>, oid: Oid, parents: Seq<Oid>, p: Oid)
    ensures
        ({
            let col = position(lanes, Some(oid));
            let below = lanes_below(lanes, oid, parents);
            let lines = row_lines(lanes, oid, parents);
            let more = parents.push(p);
            if parents.len() == 0 {
                &&& col < below.len()
                &&& lanes_below(lanes, oid, more) == below.update(col, Some(p))
                &&& row_lines(lanes, oid, more) == lines.push(passing_line(col))
            } else if below.contains(Some(p)) {
                &&& lanes_below(lanes, oid, more) == below
                &&& row_lines(lanes, oid, more) == lines.push(
                    Line { from: col, to: position(below, Some(p)), color: col },
                )
            } else {
                &&& lanes_below(lanes, oid, more) == fill_slot(below, p)
                &&& row_lines(lanes, oid, more) == lines.push(
                    Line { from: col, to: position(below, None), color: position(below, None) },
                )
            }
        }),
{
    let col = position(lanes, Some(oid));
    let passing = passing_lanes(lanes, oid);
    let below = lanes_below(lanes, oid, parents);
    let lines = row_lines(lanes, oid, parents);
    let more = parents.push(p);
    let below2 = lanes_below(lanes, oid, more);
    let lines2 = row_lines(lanes, oid, more);
    lemma_row_lanes(lanes, oid);
    lemma_passing_lanes(lanes, oid);
    lemma_lanes_below(lanes, oid, parents);
    assert(more.drop_last() =~= parents);
    assert(more.last() == p);
    if parents.len() == 0 {
        assert(parents =~= Seq::<Oid>::empty());
        let first = passing.update(col, Some(p));
        assert(lanes_with_first(lanes, oid, more) == first);
        assert(open_lanes(first, more.drop_last()) == first);
        assert(first[col] == Some(p));
        assert(first.contains(Some(p)));
        assert(below == passing);
        assert(lines2 =~= lines.push(passing_line(col)));
    } else {
        assert(more[0] == parents[0]);
        assert(lanes_with_first(lanes, oid, more) == lanes_with_first(lanes, oid, parents));
        assert(more.take(parents.len() as int) =~= parents);
        let added = if below.contains(Some(p)) {
            Line { from: col, to: position(below, Some(p)), color: col }
        } else {
            Line { from: col, to: position(below, None), color: position(below, None) }
        };
        if !below.contains(Some(p)) {
            lemma_fill_slot(below, p);
            assert(below2 == fill_slot(below, p));
        } else {
            assert(below2 == below);
        }
        let longer = lines.push(added);
        let n = live_columns(passing).len();
        assert(lines2.len() == longer.len());
        assert forall|k: int| 0 <= k < lines2.len() implies lines2[k] == longer[k] by {
            if k < n {
            } else if k < n + parents.len() {
                let j = k - n;
                assert(parents.contains(parents[j]));
                assert(below.contains(Some(parents[j])));
                assert(more[j] == parents[j]);
                assert(more.take(j) =~= parents.take(j));
            } else {
                assert(lines2[k] == parent_line(col, passing, below2, more, parents.len() as int));
            }
        }
        assert(lines2 =~= longer);
    }
}

/// Whether a commit of the list has the id `oid`.
fn lists(commits: &[CommitInfo], oid: Oid) -> (r: bool)
    ensures
        r == is_listed(commit_views(commits@), oid),
{
    for i in 0..commits.len()
        invariant
            forall|j: int| 0 <= j < i ==> commits@[j].oid != oid,
    {
        if commits[i].oid == oid {
            assert(commit_views(commits@)[i as int].oid == oid);
            return true;
        }
    }
    assert forall|j: int| 0 <= j < commits.len() implies (#[trigger] commit_views(
        commits@,
    )[j]).oid != oid by {
        assert(commits@[j].oid != oid);
    }
    false
}

/// Whether a lane waits for `oid`.
fn waits_for(lane: &Option<Oid>, oid: Oid) -> (r: bool)
    ensures
        r == (*lane == Some(oid)),
{
    match lane {
        Some(o) => *o == oid,
        None => false,
    }
}

/// The first lane that waits for `oid`.
fn find_lane(lanes: &Vec<Option<Oid>>, oid: Oid) -> (r: Option<usize>)
    ensures
        match r {
            Some(col) => col == position(lanes@, Some(oid)) && col < lanes.len(),
            None => position(lanes@, Some(oid)) == lanes.len(),
        },
        r is Some <==> lanes@.contains(Some(oid)),
{
    proof {
        lemma_position(lanes@, Some(oid));
    }
    for col in 0..lanes.len()
        invariant
            forall|c: int| 0 <= c < col ==> lanes@[c] != Some(oid),
    {
        if waits_for(&lanes[col], oid) {
            proof {
                lemma_position_is(lanes@, Some(oid), col as int);
            }
            return Some(col);
        }
    }
    None
}

/// Opens a lane for `oid` in the first empty slot, on the right where there is
/// none, and says in which column.
fn fill(lanes: &mut Vec<Option<Oid>>, oid: Oid) -> (col: usize)
    ensures
        final(lanes)@ == fill_slot(old(lanes)@, oid),
        col == position(old(lanes)@, None),
{
    let count: usize = lanes.len();
    let mut col: usize = 0;
    while col < count && lanes[col].is_some()
        invariant
            count == lanes.len(),
            col <= count,
            forall|c: int| 0 <= c < col ==> lanes@[c] is Some,
        decreases count - col,
    {
        col += 1;
    }
    proof {
        lemma_position_is(lanes@, None, col as int);
    }
    if col < count {
        lanes.set(col, Some(oid));
    } else {
        lanes.push(Some(oid));
    }
    col
}

/// Takes away the empty slots on the right.
fn trim(lanes: &mut Vec<Option<Oid>>)
    ensures
        final(lanes)@ == trimmed(old(lanes)@),
{
    while lanes.len() > 0 && lanes[lanes.len() - 1].is_none()
        invariant
            trimmed(lanes@) == trimmed(old(lanes)@),
        decreases lanes.len(),
    {
        let ghost before = lanes@;
        lanes.pop();
        assert(lanes@ =~= before.drop_last());
    }
}

/// Lays out the row of one commit below `lanes`, and moves `lanes` on to the
/// next row.
fn layout_row(
    lanes: &mut Vec<Option<Oid>>,
    commits: &[CommitInfo],
    commit: &CommitInfo,
) -> (row: GraphRow)
    ensures
        row@ == row_below(
            old(lanes)@,
            commit.oid,
            shown_parents(commit_views(commits@), commit.parents@),
        ),
        final(lanes)@ == next_lanes(
            old(lanes)@,
            commit.oid,
            shown_parents(commit_views(commits@), commit.parents@),
        ),
{
    let ghost above = lanes@;
    let ghost list = commit_views(commits@);
    proof {
        lemma_row_lanes(above, commit.oid);
        lemma_passing_lanes(above, commit.oid);
    }
    // The first lane that waits for this commit, or a new one on the right.
    let node_col: usize = match find_lane(lanes, commit.oid) {
        Some(col) => col,
        None => {
            lanes.push(Some(commit.oid));
            lanes.len() - 1
        },
    };
    let num_cols_before: usize = lanes.len();
    let ghost all = row_lanes(above, commit.oid);
    let ghost passing = passing_lanes(above, commit.oid);
    assert(lanes@ == all);

    // The lanes that waited for the commit end at its node, the others go on.
    let mut next: Vec<Option<Oid>> = Vec::new();
    let mut converging: Vec<usize> = Vec::new();
    let mut lines: Vec<(usize, usize, usize)> = Vec::new();
    let ghost live = |col: int| passing[col] is Some;
    let ghost ends = |col: int|
        all[col] == Some(commit.oid) && col != position(above, Some(commit.oid));
    assert(columns(0) =~= Seq::<int>::empty());
    assert(ints(converging@) =~= columns(0).filter(ends)) by {
        reveal(Seq::filter);
    }
    assert(lines_view(lines@) =~= columns(0).filter(live).map_values(|c: int| passing_line(c))) by {
        reveal(Seq::filter);
    }
    for col in 0..lanes.len()
        invariant
            lanes@ == all,
            all == row_lanes(above, commit.oid),
            passing == passing_lanes(above, commit.oid),
            node_col == position(above, Some(commit.oid)),
            live == (|c: int| passing[c] is Some),
            ends == (|c: int|
                all[c] == Some(commit.oid) && c != position(above, Some(commit.oid))),
            next@ == passing.take(col as int),
            ints(converging@) == columns(col as nat).filter(ends),
            lines_view(lines@) == columns(col as nat).filter(live).map_values(
                |c: int| passing_line(c),
            ),
    {
        let ghost converging_before = converging@;
        let ghost lines_before = lines@;
        proof {
            reveal(Seq::filter);
            assert(columns((col + 1) as nat).drop_last() =~= columns(col as nat));
            assert(columns((col + 1) as nat).last() == col);
            lemma_row_lanes(above, commit.oid);
        }
        if waits_for(&lanes[col], commit.oid) {
            next.push(None);
            if col != node_col {
                converging.push(col);
                assert(ints(converging@) =~= ints(converging_before).push(col as int));
            }
        } else {
            next.push(lanes[col]);
            if lanes[col].is_some() {
                lines.push((col, col, col));
                assert(lines_view(lines@) =~= lines_view(lines_before).push(
                    passing_line(col as int),
                ));
            }
        }
        assert(next@ =~= passing.take(col + 1));
        assert(lines_view(lines@) =~= columns((col + 1) as nat).filter(live).map_values(
            |c: int| passing_line(c),
        ));
    }
    assert(next@ =~= passing);
    let ghost none = Seq::<Oid>::empty();
    assert(ints(converging@) == converging_columns(above, commit.oid));
    assert(lines_view(lines@) =~= row_lines(above, commit.oid, none));

    // The lane of the commit splits up into its parents.
    let mut first_parent: bool = true;
    assert(commit.parents@.take(0) =~= none);
    assert(shown_parents(list, none) =~= none) by {
        reveal(Seq::filter);
    }
    for i in 0..commit.parents.len()
        invariant
            list == commit_views(commits@),
            node_col == position(above, Some(commit.oid)),
            next@ == lanes_below(
                above,
                commit.oid,
                shown_parents(list, commit.parents@.take(i as int)),
            ),
            lines_view(lines@) == row_lines(
                above,
                commit.oid,
                shown_parents(list, commit.parents@.take(i as int)),
            ),
            first_parent == (shown_parents(list, commit.parents@.take(i as int)).len() == 0),
    {
        let parent: Oid = commit.parents[i];
        let ghost shown = shown_parents(list, commit.parents@.take(i as int));
        proof {
            reveal(Seq::filter);
            assert(commit.parents@.take(i + 1).drop_last() =~= commit.parents@.take(i as int));
            assert(commit.parents@.take(i + 1).last() == parent);
            lemma_add_parent(above, commit.oid, shown, parent);
        }
        if lists(commits, parent) {
            assert(shown_parents(list, commit.parents@.take(i + 1)) == shown.push(parent));
            if first_parent {
                // The first parent continues in the node's column.
                next.set(node_col, Some(parent));
                lines.push((node_col, node_col, node_col));
            } else {
                match find_lane(&next, parent) {
                    Some(existing) => {
                        // A lane waits for this parent already: lead to it.
                        lines.push((node_col, existing, node_col));
                    },
                    None => {
                        let target_col: usize = fill(&mut next, parent);
                        lines.push((node_col, target_col, target_col));
                    },
                }
            }
            assert(lines_view(lines@) =~= row_lines(above, commit.oid, shown.push(parent)));
            first_parent = false;
        }
    }
    assert(commit.parents@.take(commit.parents@.len() as int) =~= commit.parents@);
    trim(&mut next);
    let num_cols: usize = if num_cols_before < next.len() {
        next.len()
    } else {
        num_cols_before
    };
    *lanes = next;
    GraphRow { node_col, converging, lines, num_cols }
}

/// Lays out the commits in lanes, one row for each.
pub fn layout_graph(commits: &[CommitInfo]) -> (rows: Vec<GraphRow>)
    ensures
        rows.len() == commits.len(),
        forall|i: int|
            0 <= i < rows.len() ==> (#[trigger] rows@[i])@ == graph_row(commit_views(commits@), i),
{
    // What each lane waits for.
    let mut lanes: Vec<Option<Oid>> = Vec::new();
    let mut rows: Vec<GraphRow> = Vec::new();
    for i in 0..commits.len()
        invariant
            rows.len() == i,
            lanes@ == lanes_above(commit_views(commits@), i as int),
            forall|k: int|
                0 <= k < i ==> (#[trigger] rows@[k])@ == graph_row(commit_views(commits@), k),
    {
        let commit = &commits[i];
        assert(commit_views(commits@)[i as int] == commit@);
        let row = layout_row(&mut lanes, commits, commit);
        rows.push(row);
    }
    rows
}

} // verus!
