//! What holds of every commit graph that `layout_graph` lays out.

use vstd::prelude::*;

use crate::commits::CommitView;
use crate::graph::{
    columns, converging_columns, graph_row, ints, is_listed, lanes_above, lanes_below,
    lanes_with_first, lemma_fill_slot, lemma_lanes_below, lemma_open_lanes, lemma_passing_lanes,
    lemma_row_lanes, lemma_trimmed, lines_view, live_columns, next_lanes, open_lanes, opens_lane,
    parent_line, passing_lanes, passing_line, row_lanes, row_lines, shown_parents, trimmed,
    GraphRow, Line, RowView,
};
use crate::oid::Oid;
use crate::seqs::{
    are_places, lemma_filter_members, lemma_filter_places, lemma_position, position,
};

verus! {

/// The parents of commit `i` that the list shows.
pub open spec fn parents_of(commits: Seq<CommitView>, i: int) -> Seq<Oid> {
    shown_parents(commits, commits[i].parents)
}

/// The lanes that pass the node of row `i` by.
pub open spec fn passing_at(commits: Seq<CommitView>, i: int) -> Seq<Option<Oid>> {
    passing_lanes(lanes_above(commits, i), commits[i].oid)
}

/// A shown parent is a parent that is listed.
proof fn lemma_parents_of(commits: Seq<CommitView>, i: int)
    ensures
        forall|p: Oid| #[trigger]
            parents_of(commits, i).contains(p) <==> commits[i].parents.contains(p) && is_listed(
                commits,
                p,
            ),
{
    lemma_filter_members(commits[i].parents, |p: Oid| is_listed(commits, p));
}

/// Which columns have a passing lane.
pub(crate) proof fn lemma_live_columns(lanes: Seq<Option<Oid>>)
    ensures
        forall|col: int| #[trigger]
            live_columns(lanes).contains(col) <==> 0 <= col < lanes.len() && lanes[col] is Some,
{
    let all = columns(lanes.len());
    lemma_filter_members(all, |col: int| lanes[col] is Some);
    assert forall|col: int| 0 <= col < lanes.len() implies all.contains(col) by {
        assert(all[col] == col);
    }
}

/// Which lanes converge at a node.
proof fn lemma_converging_columns(lanes: Seq<Option<Oid>>, oid: Oid)
    ensures
        forall|col: int| #[trigger]
            converging_columns(lanes, oid).contains(col) <==> 0 <= col < lanes.len() && lanes[col]
                == Some(oid) && col != position(lanes, Some(oid)),
{
    let all = row_lanes(lanes, oid);
    let cols = columns(all.len());
    lemma_row_lanes(lanes, oid);
    lemma_filter_members(
        cols,
        |col: int| all[col] == Some(oid) && col != position(lanes, Some(oid)),
    );
    assert forall|col: int| #[trigger] converging_columns(lanes, oid).contains(col) <==> 0 <= col
        < lanes.len() && lanes[col] == Some(oid) && col != position(lanes, Some(oid)) by {
        if 0 <= col < lanes.len() {
            assert(cols[col] == col);
            assert(all[col] == lanes[col]);
        }
    }
}

/// The lanes above row `i + 1`: the passing lanes of row `i` in their columns,
/// and its parents.
proof fn lemma_next(commits: Seq<CommitView>, i: int)
    requires
        0 <= i < commits.len(),
    ensures
        ({
            let lanes = lanes_above(commits, i);
            let oid = commits[i].oid;
            let parents = parents_of(commits, i);
            let below = lanes_below(lanes, oid, parents);
            let next = lanes_above(commits, i + 1);
            &&& next == trimmed(below)
            &&& forall|col: int|
                0 <= col < below.len() && (#[trigger] below[col]) is Some ==> col < next.len()
                    && next[col] == below[col]
            &&& forall|x: Oid| #[trigger]
                next.contains(Some(x)) <==> (lanes.contains(Some(x)) && x != oid)
                    || parents.contains(x)
        }),
{
    let below = lanes_below(
        lanes_above(commits, i),
        commits[i].oid,
        parents_of(commits, i),
    );
    lemma_passing_lanes(lanes_above(commits, i), commits[i].oid);
    lemma_lanes_below(lanes_above(commits, i), commits[i].oid, parents_of(commits, i));
    lemma_trimmed(below);
    assert forall|col: int| 0 <= col < below.len() && (#[trigger] below[col]) is Some implies col
        < trimmed(below).len() && trimmed(below)[col] == below[col] by {
        assert(trimmed(below)[col] == below.take(trimmed(below).len() as int)[col]);
    }
}

/// Whether commit `k` is the last one above row `i` that made a lane wait for
/// `oid`: `oid` is its parent and did not come up since.
pub open spec fn awaits_since(commits: Seq<CommitView>, oid: Oid, k: int, i: int) -> bool {
    &&& 0 <= k < i
    &&& commits[k].parents.contains(oid)
    &&& forall|m: int| k < m < i ==> (#[trigger] commits[m]).oid != oid
}

/// A lane above row `i` waits for a commit exactly when the commit is listed, is
/// the parent of a commit above, and did not come up in between.
pub proof fn law_lane_waits_for_parent(commits: Seq<CommitView>, i: int, oid: Oid)
    requires
        0 <= i <= commits.len(),
    ensures
        lanes_above(commits, i).contains(Some(oid)) <==> is_listed(commits, oid) && exists|k: int|
            awaits_since(commits, oid, k, i),
    decreases i,
{
    if i > 0 {
        let h = i - 1;
        law_lane_waits_for_parent(commits, h, oid);
        lemma_next(commits, h);
        lemma_parents_of(commits, h);
        if lanes_above(commits, i).contains(Some(oid)) {
            if parents_of(commits, h).contains(oid) {
                assert(awaits_since(commits, oid, h, i));
            } else {
                let k = choose|k: int| awaits_since(commits, oid, k, h);
                assert(awaits_since(commits, oid, k, i));
            }
        }
        if is_listed(commits, oid) && exists|k: int| awaits_since(commits, oid, k, i) {
            let k = choose|k: int| awaits_since(commits, oid, k, i);
            if k < h {
                assert(awaits_since(commits, oid, k, h));
                assert(commits[h].oid != oid);
            }
        }
    }
}

/// There is no empty slot on the right.
pub proof fn law_last_lane_is_live(commits: Seq<CommitView>, i: int)
    requires
        0 <= i <= commits.len(),
        lanes_above(commits, i).len() > 0,
    ensures
        lanes_above(commits, i).last() is Some,
{
    if i > 0 {
        lemma_trimmed(
            lanes_below(
                lanes_above(commits, i - 1),
                commits[i - 1].oid,
                parents_of(commits, i - 1),
            ),
        );
    }
}

/// The lines of a row, each with the lane that it leads to.
pub(crate) proof fn lemma_line(commits: Seq<CommitView>, i: int, l: int)
    requires
        0 <= i < commits.len(),
        0 <= l < graph_row(commits, i).lines.len(),
    ensures
        ({
            let row = graph_row(commits, i);
            let line = row.lines[l];
            let lanes = lanes_above(commits, i);
            let next = lanes_above(commits, i + 1);
            let passing = passing_at(commits, i);
            let parents = parents_of(commits, i);
            let n = live_columns(passing).len();
            &&& 0 <= line.to < next.len()
            &&& row.lines.len() == n + parents.len()
            &&& l < n ==> {
                &&& line == passing_line(live_columns(passing)[l])
                &&& line.from != row.node_col
                &&& 0 <= line.from < lanes.len()
                &&& lanes[line.from] is Some
                &&& next[line.to] == lanes[line.from]
            }
            &&& l >= n ==> {
                &&& line == parent_line(
                    row.node_col,
                    passing,
                    lanes_below(lanes, commits[i].oid, parents),
                    parents,
                    l - n,
                )
                &&& line.from == row.node_col
                &&& next[line.to] == Some(parents[l - n])
            }
        }),
{
    let lanes = lanes_above(commits, i);
    let oid = commits[i].oid;
    let row = graph_row(commits, i);
    let parents = parents_of(commits, i);
    let passing = passing_at(commits, i);
    let below = lanes_below(lanes, oid, parents);
    let n = live_columns(passing).len();
    lemma_next(commits, i);
    lemma_row_lanes(lanes, oid);
    lemma_passing_lanes(lanes, oid);
    lemma_lanes_below(lanes, oid, parents);
    lemma_live_columns(passing);
    if l < n {
        let col = live_columns(passing)[l];
        assert(live_columns(passing).contains(col));
        assert(row.lines[l] == passing_line(col));
        assert(below[col] == passing[col]);
        if col >= lanes.len() {
            assert(row_lanes(lanes, oid)[col] == Some(oid));
        }
    } else {
        let j = l - n;
        assert(parents.contains(parents[j]));
        assert(below.contains(Some(parents[j])));
        lemma_position(below, Some(parents[j]));
        if j > 0 {
            assert(below[position(below, Some(parents[j]))] is Some);
        }
    }
}

/// A row is wide enough: its node, the lanes that come and go, the ends of its
/// lines and the columns that give them their colors lie within its columns.
pub proof fn law_row_holds_its_lines(commits: Seq<CommitView>, i: int)
    requires
        0 <= i < commits.len(),
    ensures
        ({
            let row = graph_row(commits, i);
            &&& 0 <= row.node_col < row.num_cols
            &&& lanes_above(commits, i).len() <= row.num_cols
            &&& lanes_above(commits, i + 1).len() <= row.num_cols
            &&& forall|k: int|
                0 <= k < row.converging.len() ==> 0 <= #[trigger] row.converging[k] < row.num_cols
            &&& forall|l: int|
                0 <= l < row.lines.len() ==> {
                    &&& 0 <= (#[trigger] row.lines[l]).from < row.num_cols
                    &&& 0 <= row.lines[l].to < lanes_above(commits, i + 1).len()
                    &&& 0 <= row.lines[l].color < row.num_cols
                }
        }),
{
    let lanes = lanes_above(commits, i);
    let row = graph_row(commits, i);
    lemma_row_lanes(lanes, commits[i].oid);
    lemma_converging_columns(lanes, commits[i].oid);
    assert forall|k: int| 0 <= k < row.converging.len() implies 0 <= #[trigger] row.converging[k]
        < row.num_cols by {
        assert(row.converging.contains(row.converging[k]));
    }
    assert forall|l: int| 0 <= l < row.lines.len() implies {
        &&& 0 <= (#[trigger] row.lines[l]).from < row.num_cols
        &&& 0 <= row.lines[l].to < lanes_above(commits, i + 1).len()
        &&& 0 <= row.lines[l].color < row.num_cols
    } by {
        lemma_line(commits, i, l);
    }
}

/// Every lane but the commit's own goes straight down: no lane ever leaves its
/// column.
pub proof fn law_other_lanes_go_straight(commits: Seq<CommitView>, i: int, l: int)
    requires
        0 <= i < commits.len(),
        0 <= l < graph_row(commits, i).lines.len(),
        graph_row(commits, i).lines[l].from != graph_row(commits, i).node_col,
    ensures
        graph_row(commits, i).lines[l].to == graph_row(commits, i).lines[l].from,
{
    lemma_line(commits, i, l);
}

/// Every line leads to the lane that waits for its commit: a passing lane's
/// line to the lane that goes on waiting for the same commit, the node's lines
/// to lanes that wait for its parents.
pub proof fn law_lines_lead_to_their_commit(commits: Seq<CommitView>, i: int, l: int)
    requires
        0 <= i < commits.len(),
        0 <= l < graph_row(commits, i).lines.len(),
    ensures
        ({
            let row = graph_row(commits, i);
            let line = row.lines[l];
            let lanes = lanes_above(commits, i);
            let next = lanes_above(commits, i + 1);
            &&& 0 <= line.to < next.len()
            &&& next[line.to] is Some
            &&& line.from == row.node_col ==> parents_of(commits, i).contains(next[line.to]->0)
            &&& line.from != row.node_col ==> 0 <= line.from < lanes.len() && next[line.to]
                == lanes[line.from]
        }),
{
    lemma_line(commits, i, l);
    let parents = parents_of(commits, i);
    let n = live_columns(passing_at(commits, i)).len();
    if l >= n {
        assert(parents.contains(parents[l - n]));
    }
}

/// A row draws the line `(from, to)`.
pub open spec fn draws(row: RowView, from: int, to: int) -> bool {
    exists|l: int|
        0 <= l < row.lines.len() && (#[trigger] row.lines[l]).from == from && row.lines[l].to == to
}

/// A lane that waits for another commit than that of row `i` passes the row in
/// its column, and is drawn.
pub proof fn law_passing_lane_is_drawn(commits: Seq<CommitView>, i: int, col: int)
    requires
        0 <= i < commits.len(),
        0 <= col < lanes_above(commits, i).len(),
        lanes_above(commits, i)[col] is Some,
        lanes_above(commits, i)[col] != Some(commits[i].oid),
    ensures
        col < lanes_above(commits, i + 1).len(),
        lanes_above(commits, i + 1)[col] == lanes_above(commits, i)[col],
        draws(graph_row(commits, i), col, col),
{
    let lanes = lanes_above(commits, i);
    let oid = commits[i].oid;
    let row = graph_row(commits, i);
    let passing = passing_at(commits, i);
    let live = live_columns(passing);
    lemma_next(commits, i);
    lemma_row_lanes(lanes, oid);
    lemma_lanes_below(lanes, oid, parents_of(commits, i));
    lemma_live_columns(passing);
    assert(row_lanes(lanes, oid)[col] == lanes[col]);
    assert(passing[col] == lanes[col]);
    assert(live.contains(col));
    let l = choose|l: int| 0 <= l < live.len() && live[l] == col;
    assert(row.lines[l] == passing_line(col));
}

/// Every listed parent of commit `i` is connected: a line leads from the node to
/// a lane that waits for the parent.
pub proof fn law_parent_is_connected(commits: Seq<CommitView>, i: int, parent: Oid)
    requires
        0 <= i < commits.len(),
        commits[i].parents.contains(parent),
        is_listed(commits, parent),
    ensures
        exists|to: int|
            0 <= to < lanes_above(commits, i + 1).len() && lanes_above(commits, i + 1)[to] == Some(
                parent,
            ) && #[trigger] draws(graph_row(commits, i), graph_row(commits, i).node_col, to),
{
    let row = graph_row(commits, i);
    let parents = parents_of(commits, i);
    lemma_parents_of(commits, i);
    assert(parents.contains(parent));
    let j = choose|j: int| 0 <= j < parents.len() && parents[j] == parent;
    let l = live_columns(passing_at(commits, i)).len() + j;
    assert(row.lines.len() == live_columns(passing_at(commits, i)).len() + parents.len());
    lemma_line(commits, i, l);
    assert(draws(row, row.node_col, row.lines[l].to));
}

/// All lanes that wait for commit `i` reach it in its row: one leads straight to
/// the node, the others converge there, and no other lane does.
pub proof fn law_lanes_converge(commits: Seq<CommitView>, i: int, col: int)
    requires
        0 <= i < commits.len(),
    ensures
        ({
            let lanes = lanes_above(commits, i);
            let row = graph_row(commits, i);
            let waits = 0 <= col < lanes.len() && lanes[col] == Some(commits[i].oid);
            &&& waits ==> col == row.node_col || row.converging.contains(col)
            &&& row.converging.contains(col) ==> waits && col != row.node_col
            &&& lanes.contains(Some(commits[i].oid)) && col == row.node_col ==> waits
        }),
{
    let lanes = lanes_above(commits, i);
    lemma_converging_columns(lanes, commits[i].oid);
    lemma_position(lanes, Some(commits[i].oid));
}

/// The line from a commit to its parent is drawn without a gap: it leaves the
/// node of commit `i` for some column, each row in between hands it on straight
/// down, and it ends at the parent, commit `j`: the column is that of its node or
/// of a lane that converges there.
pub proof fn law_edge_reaches_parent(commits: Seq<CommitView>, i: int, j: int)
    requires
        0 <= i < j < commits.len(),
        commits[i].parents.contains(commits[j].oid),
        forall|m: int| i < m < j ==> (#[trigger] commits[m]).oid != commits[j].oid,
    ensures
        exists|col: int|
            {
                &&& #[trigger] draws(graph_row(commits, i), graph_row(commits, i).node_col, col)
                &&& forall|k: int| i < k < j ==> #[trigger] draws(graph_row(commits, k), col, col)
                &&& col == graph_row(commits, j).node_col || graph_row(
                    commits,
                    j,
                ).converging.contains(col)
            },
{
    let oid = commits[j].oid;
    assert(is_listed(commits, oid));
    law_parent_is_connected(commits, i, oid);
    let col = choose|to: int|
        0 <= to < lanes_above(commits, i + 1).len() && lanes_above(commits, i + 1)[to] == Some(oid)
            && #[trigger] draws(graph_row(commits, i), graph_row(commits, i).node_col, to);
    assert forall|k: int| i < k < j implies #[trigger] draws(graph_row(commits, k), col, col) by {
        lemma_lane_stays(commits, i + 1, k, col);
        law_passing_lane_is_drawn(commits, k, col);
    }
    lemma_lane_stays(commits, i + 1, j, col);
    law_lanes_converge(commits, j, col);
}

/// A lane stays in its column until its commit comes up.
pub(crate) proof fn lemma_lane_stays(commits: Seq<CommitView>, i: int, j: int, col: int)
    requires
        0 <= i <= j <= commits.len(),
        0 <= col < lanes_above(commits, i).len(),
        lanes_above(commits, i)[col] is Some,
        forall|m: int|
            i <= m < j ==> Some((#[trigger] commits[m]).oid) != lanes_above(commits, i)[col],
    ensures
        col < lanes_above(commits, j).len(),
        lanes_above(commits, j)[col] == lanes_above(commits, i)[col],
    decreases j - i,
{
    if i < j {
        let h = j - 1;
        lemma_lane_stays(commits, i, h, col);
        assert(Some(commits[h].oid) != lanes_above(commits, i)[col]);
        law_passing_lane_is_drawn(commits, h, col);
    }
}

/// The first parent always continues in the node's column.
pub proof fn law_first_parent_keeps_column(commits: Seq<CommitView>, i: int)
    requires
        0 <= i < commits.len(),
        parents_of(commits, i).len() > 0,
    ensures
        ({
            let row = graph_row(commits, i);
            let next = lanes_above(commits, i + 1);
            &&& row.node_col < next.len()
            &&& next[row.node_col] == Some(parents_of(commits, i)[0])
            &&& exists|l: int|
                0 <= l < row.lines.len() && #[trigger] row.lines[l] == (Line {
                    from: row.node_col,
                    to: row.node_col,
                    color: row.node_col,
                })
        }),
{
    let row = graph_row(commits, i);
    let l = live_columns(passing_at(commits, i)).len() as int;
    assert(row.lines.len() == l + parents_of(commits, i).len());
    lemma_line(commits, i, l);
    assert(row.lines[l] == passing_line(row.node_col));
}

/// An additional parent that no lane waits for opens one in the first slot that
/// is empty below the node, or on the right where none is, and its line has the
/// color of that column.
pub proof fn law_additional_parent_fills_empty_slot(commits: Seq<CommitView>, i: int, j: int)
    requires
        0 <= i < commits.len(),
        0 <= j < parents_of(commits, i).len(),
        opens_lane(passing_at(commits, i), parents_of(commits, i), j),
    ensures
        ({
            let parents = parents_of(commits, i);
            let line = graph_row(commits, i).lines[live_columns(passing_at(commits, i)).len() + j];
            let before = open_lanes(
                lanes_with_first(lanes_above(commits, i), commits[i].oid, parents),
                parents.take(j),
            );
            &&& line.to == position(before, None)
            &&& line.color == line.to
            &&& line.to != graph_row(commits, i).node_col
            &&& lanes_above(commits, i + 1)[line.to] == Some(parents[j])
        }),
{
    let lanes = lanes_above(commits, i);
    let oid = commits[i].oid;
    let parents = parents_of(commits, i);
    let row = graph_row(commits, i);
    let passing = passing_at(commits, i);
    let first = lanes_with_first(lanes, oid, parents);
    let before = open_lanes(first, parents.take(j));
    let with = open_lanes(first, parents.take(j + 1));
    let below = lanes_below(lanes, oid, parents);
    let l = live_columns(passing).len() + j;
    lemma_line(commits, i, l);
    lemma_row_lanes(lanes, oid);
    lemma_passing_lanes(lanes, oid);
    lemma_open_lanes(first, parents.take(j));
    assert(parents.take(j + 1).drop_last() =~= parents.take(j));
    assert(parents.take(j + 1).last() == parents[j]);
    assert(parents.take(j)[0] == parents[0]);
    assert(!before.contains(Some(parents[j]))) by {
        if first.contains(Some(parents[j])) {
            let c = choose|c: int| 0 <= c < first.len() && first[c] == Some(parents[j]);
            if c == row.node_col {
                assert(parents.take(j).contains(parents[0]));
            } else {
                assert(passing[c] == Some(parents[j]));
            }
        }
    }
    lemma_fill_slot(before, parents[j]);
    assert(with.contains(Some(parents[j]))) by {
        assert(with[position(before, None)] == Some(parents[j]));
    }
    lemma_open_keeps_positions(first, parents, j + 1, parents[j]);
    lemma_position(before, None);
    assert(first[row.node_col] == Some(parents[0]));
    assert(before[row.node_col] is Some);
}

/// Opening lanes for more parents moves no lane.
proof fn lemma_open_keeps_positions(lanes: Seq<Option<Oid>>, parents: Seq<Oid>, j: int, oid: Oid)
    requires
        0 <= j <= parents.len(),
        open_lanes(lanes, parents.take(j)).contains(Some(oid)),
    ensures
        open_lanes(lanes, parents).contains(Some(oid)),
        position(open_lanes(lanes, parents), Some(oid)) == position(
            open_lanes(lanes, parents.take(j)),
            Some(oid),
        ),
    decreases parents.len(),
{
    if j == parents.len() {
        assert(parents.take(j) =~= parents);
    } else {
        let less = parents.drop_last();
        assert(less.take(j) =~= parents.take(j));
        lemma_open_keeps_positions(lanes, less, j, oid);
        let before = open_lanes(lanes, less);
        if !before.contains(Some(parents.last())) {
            lemma_fill_slot(before, parents.last());
        }
    }
}

/// A commit without a shown parent ends its lane: no line leaves its node.
pub proof fn law_root_ends_its_lane(commits: Seq<CommitView>, i: int)
    requires
        0 <= i < commits.len(),
        parents_of(commits, i).len() == 0,
    ensures
        forall|l: int|
            0 <= l < graph_row(commits, i).lines.len() ==> (#[trigger] graph_row(
                commits,
                i,
            ).lines[l]).from != graph_row(commits, i).node_col,
{
    assert forall|l: int| 0 <= l < graph_row(commits, i).lines.len() implies (
    #[trigger] graph_row(commits, i).lines[l]).from != graph_row(commits, i).node_col by {
        lemma_line(commits, i, l);
    }
}

/// A line of the row above ends in column `col` exactly when a lane comes from
/// above in that column.
pub proof fn law_lane_is_drawn_from_above(commits: Seq<CommitView>, i: int, col: int)
    requires
        0 < i < commits.len(),
    ensures
        (exists|l: int|
            0 <= l < graph_row(commits, i - 1).lines.len() && (#[trigger] graph_row(
                commits,
                i - 1,
            ).lines[l]).to == col) <==> 0 <= col < lanes_above(commits, i).len() && lanes_above(
            commits,
            i,
        )[col] is Some,
{
    let h = i - 1;
    let row = graph_row(commits, h);
    let lanes = lanes_above(commits, h);
    let oid = commits[h].oid;
    let parents = parents_of(commits, h);
    let next = lanes_above(commits, i);
    if exists|l: int| 0 <= l < row.lines.len() && (#[trigger] row.lines[l]).to == col {
        let l = choose|l: int| 0 <= l < row.lines.len() && (#[trigger] row.lines[l]).to == col;
        lemma_line(commits, h, l);
    }
    if 0 <= col < next.len() && next[col] is Some {
        lemma_below_is_drawn(commits, h, col);
    }
}

/// Every lane below row `i` has a line that ends there, and the first such line
/// has the color of the column.
pub(crate) proof fn lemma_below_is_drawn(commits: Seq<CommitView>, i: int, col: int)
    requires
        0 <= i < commits.len(),
        0 <= col < lanes_above(commits, i + 1).len(),
        lanes_above(commits, i + 1)[col] is Some,
    ensures
        exists|l: int|
            0 <= l < graph_row(commits, i).lines.len() && (#[trigger] graph_row(
                commits,
                i,
            ).lines[l]).to == col && graph_row(commits, i).lines[l].color == col,
{
    let row = graph_row(commits, i);
    let lanes = lanes_above(commits, i);
    let oid = commits[i].oid;
    let parents = parents_of(commits, i);
    let passing = passing_at(commits, i);
    let below = lanes_below(lanes, oid, parents);
    let n = live_columns(passing).len();
    lemma_trimmed(below);
    assert(trimmed(below)[col] == below.take(trimmed(below).len() as int)[col]);
    assert(below[col] is Some);
    lemma_row_lanes(lanes, oid);
    lemma_passing_lanes(lanes, oid);
    lemma_live_columns(passing);
    if col < passing.len() && passing[col] is Some {
        let live = live_columns(passing);
        assert(live.contains(col));
        let l = choose|l: int| 0 <= l < live.len() && live[l] == col;
        assert(row.lines[l] == passing_line(col));
    } else if col == row.node_col {
        if parents.len() == 0 {
            assert(below == passing);
        }
        assert(row.lines[n as int] == passing_line(col));
    } else {
        let first = lanes_with_first(lanes, oid, parents);
        if col < first.len() {
            assert(first[col] is None);
        }
        let j = lemma_opened_by(first, parents, col);
        assert(opens_lane(passing, parents, j)) by {
            if passing.contains(Some(parents[j])) {
                let c = choose|c: int| 0 <= c < passing.len() && passing[c] == Some(parents[j]);
                assert(first[c] == Some(parents[j]));
            }
            if j == 0 {
                assert(first[row.node_col] == Some(parents[0]));
            }
        }
        assert(row.lines[n + j] == parent_line(row.node_col, passing, below, parents, j));
    }
}

/// A lane that was opened was opened by some parent.
proof fn lemma_opened_by(lanes: Seq<Option<Oid>>, parents: Seq<Oid>, col: int) -> (j: int)
    requires
        0 <= col < open_lanes(lanes, parents).len(),
        open_lanes(lanes, parents)[col] is Some,
        col >= lanes.len() || lanes[col] is None,
    ensures
        0 <= j < parents.len(),
        position(open_lanes(lanes, parents), Some(parents[j])) == col,
        !lanes.contains(Some(parents[j])),
        !parents.take(j).contains(parents[j]),
    decreases parents.len(),
{
    let less = parents.drop_last();
    let last = parents.last();
    let before = open_lanes(lanes, less);
    lemma_open_lanes(lanes, less);
    lemma_position(before, None);
    if !before.contains(Some(last)) {
        lemma_fill_slot(before, last);
    }
    if !before.contains(Some(last)) && col == position(before, None) {
        assert(parents.take(parents.len() - 1) =~= less);
        parents.len() - 1
    } else {
        assert(col < before.len() && before[col] is Some);
        let j = lemma_opened_by(lanes, less, col);
        assert(less.take(j) =~= parents.take(j));
        assert(less.contains(less[j]));
        assert(before.contains(Some(less[j])));
        j
    }
}

/// A line of the row above ends at the node of commit `i` exactly when a lane
/// waited for the commit.
pub proof fn law_incoming_line(commits: Seq<CommitView>, i: int)
    requires
        0 < i < commits.len(),
    ensures
        (exists|l: int|
            0 <= l < graph_row(commits, i - 1).lines.len() && (#[trigger] graph_row(
                commits,
                i - 1,
            ).lines[l]).to == graph_row(commits, i).node_col) <==> lanes_above(
            commits,
            i,
        ).contains(Some(commits[i].oid)),
{
    lemma_position(lanes_above(commits, i), Some(commits[i].oid));
    law_lane_is_drawn_from_above(commits, i, graph_row(commits, i).node_col);
}

/// Children before parents, each commit once.
pub open spec fn is_history(commits: Seq<CommitView>) -> bool {
    &&& forall|i: int, j: int|
        0 <= i < j < commits.len() ==> (#[trigger] commits[i]).oid != (#[trigger] commits[j]).oid
    &&& forall|i: int, j: int|
        0 <= i < commits.len() && 0 <= j < commits.len() && (#[trigger] commits[i]).parents.contains(
            (#[trigger] commits[j]).oid,
        ) ==> i < j
}

/// In a history every lane leads to a commit further down, so none is left over
/// below the last row.
pub proof fn law_no_lane_is_left_over(commits: Seq<CommitView>, i: int)
    requires
        is_history(commits),
        0 <= i <= commits.len(),
    ensures
        forall|oid: Oid| #[trigger]
            lanes_above(commits, i).contains(Some(oid)) ==> exists|j: int|
                i <= j < commits.len() && (#[trigger] commits[j]).oid == oid,
        i == commits.len() ==> lanes_above(commits, i).len() == 0,
{
    assert forall|oid: Oid| #[trigger] lanes_above(commits, i).contains(
        Some(oid),
    ) implies exists|j: int| i <= j < commits.len() && (#[trigger] commits[j]).oid == oid by {
        law_lane_waits_for_parent(commits, i, oid);
        let k = choose|k: int| awaits_since(commits, oid, k, i);
        let j = choose|j: int| 0 <= j < commits.len() && (#[trigger] commits[j]).oid == oid;
        assert(commits[k].parents.contains(commits[j].oid));
        assert(k < j);
        if j < i {
            assert(commits[j].oid != oid);
        }
    }
    let lanes = lanes_above(commits, i);
    if i == commits.len() && lanes.len() > 0 {
        law_last_lane_is_live(commits, i);
        let oid = lanes.last()->0;
        assert(lanes[lanes.len() - 1] == Some(oid));
        assert(lanes.contains(Some(oid)));
    }
}

/// A history in which every commit has the next one as its only parent is one
/// straight lane.
pub proof fn law_linear_history_is_one_lane(commits: Seq<CommitView>, i: int)
    requires
        0 <= i < commits.len(),
        is_history(commits),
        forall|k: int|
            0 <= k < commits.len() - 1 ==> (#[trigger] commits[k]).parents == seq![
                commits[k + 1].oid,
            ],
    ensures
        graph_row(commits, i).node_col == 0,
        graph_row(commits, i).num_cols == 1,
        i < commits.len() - 1 ==> graph_row(commits, i).lines == seq![
            Line { from: 0, to: 0, color: 0 },
        ],
        i > 0 ==> lanes_above(commits, i) == seq![Some(commits[i].oid)],
    decreases i,
{
    if i > 0 {
        law_linear_history_is_one_lane(commits, i - 1);
        lemma_linear_step(commits, i - 1);
    }
    lemma_linear_step(commits, i);
}

/// One row of a linear history.
proof fn lemma_linear_step(commits: Seq<CommitView>, i: int)
    requires
        0 <= i < commits.len(),
        is_history(commits),
        i < commits.len() - 1 ==> commits[i].parents == seq![commits[i + 1].oid],
        lanes_above(commits, i) == Seq::<Option<Oid>>::empty() || lanes_above(commits, i) == seq![
            Some(commits[i].oid),
        ],
    ensures
        graph_row(commits, i).node_col == 0,
        graph_row(commits, i).num_cols == 1,
        i < commits.len() - 1 ==> graph_row(commits, i).lines == seq![
            Line { from: 0, to: 0, color: 0 },
        ],
        i < commits.len() - 1 ==> lanes_above(commits, i + 1) == seq![Some(commits[i + 1].oid)],
{
    let lanes = lanes_above(commits, i);
    let oid = commits[i].oid;
    let parents = parents_of(commits, i);
    let none = Seq::<Oid>::empty();
    let passing = passing_lanes(lanes, oid);
    reveal(Seq::filter);
    if lanes == seq![Some(oid)] {
        assert(lanes[0] == Some(oid));
    }
    assert(row_lanes(lanes, oid) =~= seq![Some(oid)]);
    assert(position(lanes, Some(oid)) == 0);
    assert(passing =~= seq![None::<Oid>]);
    assert(live_columns(passing) =~= Seq::<int>::empty()) by {
        lemma_live_columns(passing);
        if live_columns(passing).len() > 0 {
            assert(live_columns(passing).contains(live_columns(passing)[0]));
        }
    }
    if i < commits.len() - 1 {
        let below = commits[i + 1].oid;
        assert(is_listed(commits, below));
        assert(commits[i].parents.drop_last() =~= none);
        assert(parents =~= seq![below]);
        assert(lanes_with_first(lanes, oid, parents) =~= seq![Some(below)]);
        assert(parents.drop_last() =~= none);
        assert(seq![Some(below)][0] == Some(below));
        assert(open_lanes(seq![Some(below)], none) == seq![Some(below)]);
        assert(lanes_below(lanes, oid, parents) =~= seq![Some(below)]);
        assert(next_lanes(lanes, oid, parents) =~= seq![Some(below)]);
        assert(row_lines(lanes, oid, parents) =~= seq![Line { from: 0, to: 0, color: 0 }]);
    } else {
        lemma_parents_of(commits, i);
        assert(parents =~= none) by {
            if parents.len() > 0 {
                assert(parents.contains(parents[0]));
                let j = choose|j: int|
                    0 <= j < commits.len() && (#[trigger] commits[j]).oid == parents[0];
                assert(commits[i].parents.contains(commits[j].oid));
                assert(i < j);
            }
        }
        assert(lanes_below(lanes, oid, parents) =~= passing);
        assert(passing.drop_last() =~= Seq::<Option<Oid>>::empty());
        assert(trimmed(passing.drop_last()).len() == 0);
        assert(trimmed(passing).len() == 0);
    }
}

/// The content of a row is what its fields hold.
pub proof fn law_content_of_a_row(row: GraphRow)
    ensures
        row@.node_col == row.node_col,
        row@.num_cols == row.num_cols,
        row@.converging.len() == row.converging@.len(),
        forall|k: int|
            0 <= k < row.converging@.len() ==> #[trigger] row@.converging[k] == row.converging@[k],
        row@.lines.len() == row.lines@.len(),
        forall|l: int|
            0 <= l < row.lines@.len() ==> {
                &&& (#[trigger] row@.lines[l]).from == row.lines@[l].0
                &&& row@.lines[l].to == row.lines@[l].1
                &&& row@.lines[l].color == row.lines@[l].2
            },
{
    assert(lines_view(row.lines@).len() == row.lines@.len());
    assert(ints(row.converging@).len() == row.converging@.len());
}

/// The node stands in the first lane that waits for the commit. Where none does,
/// it opens a lane right of all others. No lane is there above the first row.
pub proof fn law_node_of_a_row(commits: Seq<CommitView>, i: int)
    requires
        0 <= i < commits.len(),
    ensures
        ({
            let lanes = lanes_above(commits, i);
            let node = graph_row(commits, i).node_col;
            &&& i == 0 ==> lanes.len() == 0
            &&& lanes.contains(Some(commits[i].oid)) ==> {
                &&& 0 <= node < lanes.len()
                &&& lanes[node] == Some(commits[i].oid)
                &&& forall|c: int| 0 <= c < node ==> #[trigger] lanes[c] != Some(commits[i].oid)
            }
            &&& !lanes.contains(Some(commits[i].oid)) ==> node == lanes.len()
        }),
{
    lemma_position(lanes_above(commits, i), Some(commits[i].oid));
}

/// The lanes that converge are all the others that wait for the commit, from left
/// to right.
pub proof fn law_converging_lanes_of_a_row(commits: Seq<CommitView>, i: int)
    requires
        0 <= i < commits.len(),
    ensures
        ({
            let lanes = lanes_above(commits, i);
            let row = graph_row(commits, i);
            &&& are_places(row.converging, lanes.len() as int)
            &&& forall|c: int|
                0 <= c < lanes.len() ==> (row.converging.contains(c) <==> #[trigger] lanes[c]
                    == Some(commits[i].oid) && c != row.node_col)
        }),
{
    let lanes = lanes_above(commits, i);
    let oid = commits[i].oid;
    let all = row_lanes(lanes, oid);
    let keep = |col: int| all[col] == Some(oid) && col != position(lanes, Some(oid));
    let cols = columns(all.len());
    let row = graph_row(commits, i);
    let at = lemma_filter_places(cols, keep);
    lemma_converging_columns(lanes, oid);
    assert(row.converging =~= at) by {
        assert forall|k: int| 0 <= k < at.len() implies row.converging[k] == at[k] by {
            assert(cols.filter(keep)[k] == cols[at[k]]);
        }
    }
    assert forall|k: int| 0 <= k < row.converging.len() implies 0 <= #[trigger] row.converging[k]
        < lanes.len() by {
        assert(row.converging.contains(row.converging[k]));
    }
}

/// The columns of the lanes that pass a row, from left to right.
proof fn lemma_passing_columns(commits: Seq<CommitView>, i: int) -> (cols: Seq<int>)
    requires
        0 <= i < commits.len(),
    ensures
        ({
            let lanes = lanes_above(commits, i);
            &&& cols == live_columns(passing_at(commits, i))
            &&& are_places(cols, lanes.len() as int)
            &&& forall|c: int|
                0 <= c < lanes.len() ==> (cols.contains(c) <==> #[trigger] lanes[c] is Some
                    && lanes[c] != Some(commits[i].oid))
        }),
{
    let lanes = lanes_above(commits, i);
    let oid = commits[i].oid;
    let passing = passing_at(commits, i);
    let live = live_columns(passing);
    let keep = |col: int| passing[col] is Some;
    let all = columns(passing.len());
    let at = lemma_filter_places(all, keep);
    lemma_row_lanes(lanes, oid);
    lemma_passing_lanes(lanes, oid);
    lemma_live_columns(passing);
    assert(live =~= at) by {
        assert forall|k: int| 0 <= k < at.len() implies live[k] == at[k] by {
            assert(all.filter(keep)[k] == all[at[k]]);
        }
    }
    assert forall|k: int| 0 <= k < live.len() implies 0 <= #[trigger] live[k] < lanes.len() by {
        assert(live.contains(live[k]));
    }
    assert forall|c: int| 0 <= c < lanes.len() implies (live.contains(c) <==> #[trigger] lanes[c] is Some
        && lanes[c] != Some(oid)) by {
        assert(row_lanes(lanes, oid)[c] == lanes[c]);
    }
    live
}

/// The listed parents of a commit, in the order in which the commit names them.
pub proof fn law_parents_in_order(commits: Seq<CommitView>, i: int) -> (at: Seq<int>)
    requires
        0 <= i < commits.len(),
    ensures
        are_places(at, commits[i].parents.len() as int),
        forall|j: int|
            0 <= j < commits[i].parents.len() ==> (#[trigger] at.contains(j) <==> exists|m: int|
                0 <= m < commits.len() && (#[trigger] commits[m]).oid == commits[i].parents[j]),
        parents_of(commits, i).len() == at.len(),
        forall|k: int|
            0 <= k < at.len() ==> parents_of(commits, i)[k] == commits[i].parents[#[trigger] at[k]],
{
    let keep = |p: Oid| is_listed(commits, p);
    let at = lemma_filter_places(commits[i].parents, keep);
    assert forall|j: int| 0 <= j < commits[i].parents.len() implies (#[trigger] at.contains(j)
        <==> exists|m: int|
        0 <= m < commits.len() && (#[trigger] commits[m]).oid == commits[i].parents[j]) by {
        assert(at.contains(j) <==> keep(commits[i].parents[j]));
    }
    at
}

/// The line to the listed parent with the number `j`, which the commit names at
/// place `at[j]`.
proof fn lemma_parent_line(commits: Seq<CommitView>, i: int, at: Seq<int>, j: int)
    requires
        0 <= i < commits.len(),
        are_places(at, commits[i].parents.len() as int),
        parents_of(commits, i).len() == at.len(),
        forall|k: int|
            0 <= k < at.len() ==> parents_of(commits, i)[k] == commits[i].parents[#[trigger] at[k]],
        forall|k: int|
            0 <= k < commits[i].parents.len() ==> (#[trigger] at.contains(k) <==> is_listed(
                commits,
                commits[i].parents[k],
            )),
        0 <= j < at.len(),
    ensures
        ({
            let row = graph_row(commits, i);
            let lanes = lanes_above(commits, i);
            let next = lanes_above(commits, i + 1);
            let oid = commits[i].oid;
            let p = commits[i].parents[at[j]];
            let line = row.lines[live_columns(passing_at(commits, i)).len() + j];
            let waited = p != oid && lanes.contains(Some(p)) || commits[i].parents.take(
                at[j],
            ).contains(p);
            &&& line.from == row.node_col
            &&& 0 <= line.to < next.len()
            &&& next[line.to] == Some(p)
            &&& j == 0 ==> line.to == row.node_col && line.color == row.node_col
            &&& j > 0 ==> forall|c: int| 0 <= c < line.to ==> #[trigger] next[c] != Some(p)
            &&& j > 0 && waited ==> line.color == row.node_col
            &&& j > 0 && !waited ==> line.color == line.to && line.to != row.node_col
        }),
{
    let row = graph_row(commits, i);
    let lanes = lanes_above(commits, i);
    let next = lanes_above(commits, i + 1);
    let oid = commits[i].oid;
    let parents = commits[i].parents;
    let shown = parents_of(commits, i);
    let passing = passing_at(commits, i);
    let below = lanes_below(lanes, oid, shown);
    let p = parents[at[j]];
    let l = live_columns(passing).len() + j;
    lemma_next(commits, i);
    lemma_passing_lanes(lanes, oid);
    lemma_trimmed(below);
    assert(row.lines.len() == live_columns(passing).len() + shown.len());
    lemma_line(commits, i, l);
    assert(shown[j] == p);
    assert(shown.take(j).contains(p) <==> parents.take(at[j]).contains(p)) by {
        if shown.take(j).contains(p) {
            let h = choose|h: int| 0 <= h < j && shown.take(j)[h] == p;
            assert(at[h] < at[j]);
            assert(parents.take(at[j])[at[h]] == p);
        }
        if parents.take(at[j]).contains(p) {
            let e = choose|e: int| 0 <= e < at[j] && parents.take(at[j])[e] == p;
            assert(at.contains(at[j]));
            assert(at.contains(e));
            let h = choose|h: int| 0 <= h < at.len() && at[h] == e;
            if h > j {
                assert(at[j] < at[h]);
            }
            assert(shown.take(j)[h] == p);
        }
    }
    if j > 0 {
        let to = row.lines[l].to;
        lemma_position(below, Some(p));
        assert(to == position(below, Some(p)));
        assert forall|c: int| 0 <= c < to implies #[trigger] next[c] != Some(p) by {
            assert(next[c] == below.take(next.len() as int)[c]);
        }
        if opens_lane(passing, shown, j) {
            law_additional_parent_fills_empty_slot(commits, i, j);
        }
    }
}

/// The lines out of row `i`. First come those of the lanes that wait for another
/// commit, in the columns `cols` from left to right, each straight down in the
/// color of its column. Then comes one line for each listed parent, in the order
/// `at` in which the commit names them. It leaves the node and ends in a lane that
/// waits for the parent: for the first one in the node's own column, for the others
/// in the leftmost such lane. It has the color of the node's column, unless no lane
/// waited for the parent before: then it opens the lane, in the lane's color.
pub proof fn law_lines_of_a_row(commits: Seq<CommitView>, i: int) -> (r: (Seq<int>, Seq<int>))
    requires
        0 <= i < commits.len(),
    ensures
        are_places(r.0, lanes_above(commits, i).len() as int),
        forall|c: int|
            0 <= c < lanes_above(commits, i).len() ==> (#[trigger] r.0.contains(c) <==> {
                &&& lanes_above(commits, i)[c] is Some
                &&& lanes_above(commits, i)[c] != Some(commits[i].oid)
            }),
        are_places(r.1, commits[i].parents.len() as int),
        forall|j: int|
            0 <= j < commits[i].parents.len() ==> (#[trigger] r.1.contains(j) <==> exists|m: int|
                0 <= m < commits.len() && (#[trigger] commits[m]).oid == commits[i].parents[j]),
        graph_row(commits, i).lines.len() == r.0.len() + r.1.len(),
        forall|l: int|
            0 <= l < r.0.len() ==> graph_row(commits, i).lines[l] == (Line {
                from: #[trigger] r.0[l],
                to: r.0[l],
                color: r.0[l],
            }),
        forall|l: int|
            r.0.len() <= l < graph_row(commits, i).lines.len() ==> {
                let line = #[trigger] graph_row(commits, i).lines[l];
                let next = lanes_above(commits, i + 1);
                let lanes = lanes_above(commits, i);
                let node = graph_row(commits, i).node_col;
                let place = r.1[l - r.0.len()];
                let p = commits[i].parents[place];
                let waited = p != commits[i].oid && lanes.contains(Some(p))
                    || commits[i].parents.take(place).contains(p);
                &&& line.from == node
                &&& 0 <= line.to < next.len()
                &&& next[line.to] == Some(p)
                &&& l == r.0.len() ==> line.to == node && line.color == node
                &&& l > r.0.len() && waited ==> line.color == node
                &&& l > r.0.len() && !waited ==> line.color == line.to && line.to != node
            },
        forall|l: int, c: int|
            r.0.len() < l < graph_row(commits, i).lines.len() && 0 <= c < (#[trigger] graph_row(
                commits,
                i,
            ).lines[l]).to ==> #[trigger] lanes_above(commits, i + 1)[c] != Some(
                commits[i].parents[r.1[l - r.0.len()]],
            ),
{
    let row = graph_row(commits, i);
    let cols = lemma_passing_columns(commits, i);
    let at = law_parents_in_order(commits, i);
    assert(row.lines.len() == cols.len() + at.len());
    assert forall|l: int| 0 <= l < cols.len() implies row.lines[l] == (Line {
        from: #[trigger] cols[l],
        to: cols[l],
        color: cols[l],
    }) by {
        lemma_line(commits, i, l);
    }
    assert forall|l: int| cols.len() <= l < row.lines.len() implies {
        let line = #[trigger] row.lines[l];
        let next = lanes_above(commits, i + 1);
        let lanes = lanes_above(commits, i);
        let node = row.node_col;
        let place = at[l - cols.len()];
        let p = commits[i].parents[place];
        let waited = p != commits[i].oid && lanes.contains(Some(p)) || commits[i].parents.take(
            place,
        ).contains(p);
        &&& line.from == node
        &&& 0 <= line.to < next.len()
        &&& next[line.to] == Some(p)
        &&& l == cols.len() ==> line.to == node && line.color == node
        &&& l > cols.len() && waited ==> line.color == node
        &&& l > cols.len() && !waited ==> line.color == line.to && line.to != node
    } by {
        lemma_parent_line(commits, i, at, l - cols.len());
    }
    assert forall|l: int, c: int|
        cols.len() < l < row.lines.len() && 0 <= c < (
        #[trigger] row.lines[l]).to implies #[trigger] lanes_above(commits, i + 1)[c] != Some(
        commits[i].parents[at[l - cols.len()]],
    ) by {
        lemma_parent_line(commits, i, at, l - cols.len());
    }
    (cols, at)
}

/// Opening lanes for more parents leaves the lanes that are there alone.
proof fn lemma_open_keeps(lanes: Seq<Option<Oid>>, parents: Seq<Oid>, j: int)
    requires
        0 <= j <= parents.len(),
    ensures
        open_lanes(lanes, parents).len() >= open_lanes(lanes, parents.take(j)).len(),
        forall|c: int|
            0 <= c < open_lanes(lanes, parents.take(j)).len() && (#[trigger] open_lanes(
                lanes,
                parents.take(j),
            )[c]) is Some ==> open_lanes(lanes, parents)[c] == open_lanes(lanes, parents.take(j))[c],
    decreases parents.len(),
{
    if j == parents.len() {
        assert(parents.take(j) =~= parents);
    } else {
        let less = parents.drop_last();
        assert(less.take(j) =~= parents.take(j));
        lemma_open_keeps(lanes, less, j);
        let before = open_lanes(lanes, less);
        let part = open_lanes(lanes, parents.take(j));
        if !before.contains(Some(parents.last())) {
            lemma_fill_slot(before, parents.last());
        }
        assert forall|c: int| 0 <= c < part.len() && (
        #[trigger] part[c]) is Some implies open_lanes(lanes, parents)[c] == part[c] by {
            assert(before[c] == part[c]);
        }
    }
}

/// A lane that is opened has no empty slot left of it, nor had any before the
/// parents after it opened theirs.
proof fn lemma_opened_in_order(commits: Seq<CommitView>, i: int, j: int, k: int)
    requires
        0 <= i < commits.len(),
        0 <= j < k <= parents_of(commits, i).len(),
        opens_lane(passing_at(commits, i), parents_of(commits, i), j),
    ensures
        ({
            let shown = parents_of(commits, i);
            let first = lanes_with_first(lanes_above(commits, i), commits[i].oid, shown);
            let to = graph_row(commits, i).lines[live_columns(passing_at(commits, i)).len() + j].to;
            let later = open_lanes(first, shown.take(k));
            &&& 0 <= to < later.len()
            &&& forall|c: int| 0 <= c <= to ==> (#[trigger] later[c]) is Some
        }),
{
    let shown = parents_of(commits, i);
    let first = lanes_with_first(lanes_above(commits, i), commits[i].oid, shown);
    let to = graph_row(commits, i).lines[live_columns(passing_at(commits, i)).len() + j].to;
    let before = open_lanes(first, shown.take(j));
    let with = open_lanes(first, shown.take(j + 1));
    let later = open_lanes(first, shown.take(k));
    law_additional_parent_fills_empty_slot(commits, i, j);
    lemma_position(before, None);
    assert(shown.take(j + 1).drop_last() =~= shown.take(j));
    assert(shown.take(j + 1).last() == shown[j]);
    assert(!before.contains(Some(shown[j]))) by {
        lemma_not_waited_for(commits, i, j);
    }
    lemma_fill_slot(before, shown[j]);
    assert(shown.take(k).take(j + 1) =~= shown.take(j + 1));
    lemma_open_keeps(first, shown.take(k), j + 1);
    assert forall|c: int| 0 <= c <= to implies (#[trigger] later[c]) is Some by {
        if c < to {
            assert(before[c] is Some);
        }
        assert(with[c] is Some);
    }
}

/// No lane waits for a parent that opens one before it does.
proof fn lemma_not_waited_for(commits: Seq<CommitView>, i: int, j: int)
    requires
        0 <= i < commits.len(),
        0 <= j < parents_of(commits, i).len(),
        opens_lane(passing_at(commits, i), parents_of(commits, i), j),
    ensures
        ({
            let shown = parents_of(commits, i);
            let first = lanes_with_first(lanes_above(commits, i), commits[i].oid, shown);
            !open_lanes(first, shown.take(j)).contains(Some(shown[j]))
        }),
{
    let lanes = lanes_above(commits, i);
    let oid = commits[i].oid;
    let shown = parents_of(commits, i);
    let passing = passing_at(commits, i);
    let first = lanes_with_first(lanes, oid, shown);
    lemma_row_lanes(lanes, oid);
    lemma_passing_lanes(lanes, oid);
    lemma_open_lanes(first, shown.take(j));
    if first.contains(Some(shown[j])) {
        let c = choose|c: int| 0 <= c < first.len() && first[c] == Some(shown[j]);
        if c == graph_row(commits, i).node_col {
            assert(shown.take(j)[0] == shown[0]);
            assert(shown.take(j).contains(shown[0]));
        } else {
            assert(passing[c] == Some(shown[j]));
        }
    }
}

/// The lanes below row `i`. A lane that waits for another commit stays as it is.
/// Any other lane there is one that a line from the node reaches in the lane's own
/// color: the node's column, for the first parent, or a lane that the line opens. A
/// line that opens a lane does so in the first empty slot: none is left of it, and
/// the lane that a later line opens stands further right. No empty slot stands last.
pub proof fn law_lanes_below_a_row(commits: Seq<CommitView>, i: int)
    requires
        0 <= i < commits.len(),
    ensures
        ({
            let row = graph_row(commits, i);
            let lanes = lanes_above(commits, i);
            let next = lanes_above(commits, i + 1);
            let oid = commits[i].oid;
            &&& forall|c: int|
                0 <= c < lanes.len() && (#[trigger] lanes[c]) is Some && lanes[c] != Some(oid)
                    ==> c < next.len() && next[c] == lanes[c]
            &&& forall|c: int|
                0 <= c < next.len() && (#[trigger] next[c]) is Some ==> {
                    ||| c < lanes.len() && lanes[c] == next[c] && lanes[c] != Some(oid)
                    ||| exists|l: int|
                        {
                            &&& 0 <= l < row.lines.len()
                            &&& (#[trigger] row.lines[l]).from == row.node_col
                            &&& row.lines[l].to == c
                            &&& row.lines[l].color == c
                        }
                }
            &&& forall|l: int|
                {
                    &&& 0 <= l < row.lines.len()
                    &&& (#[trigger] row.lines[l]).from == row.node_col
                    &&& row.lines[l].to != row.node_col
                    &&& row.lines[l].color == row.lines[l].to
                } ==> {
                    &&& forall|c: int| 0 <= c < row.lines[l].to ==> (#[trigger] next[c]) is Some
                    &&& row.lines[l].to < lanes.len() ==> lanes[row.lines[l].to] is None
                        || lanes[row.lines[l].to] == Some(oid)
                }
            &&& forall|l: int, m: int|
                {
                    &&& 0 <= l < m < row.lines.len()
                    &&& (#[trigger] row.lines[l]).from == row.node_col
                    &&& row.lines[l].to != row.node_col
                    &&& row.lines[l].color == row.lines[l].to
                    &&& (#[trigger] row.lines[m]).from == row.node_col
                    &&& row.lines[m].to != row.node_col
                    &&& row.lines[m].color == row.lines[m].to
                } ==> row.lines[l].to < row.lines[m].to
            &&& next.len() > 0 ==> next.last() is Some
        }),
{
    let row = graph_row(commits, i);
    let lanes = lanes_above(commits, i);
    let next = lanes_above(commits, i + 1);
    let oid = commits[i].oid;
    let shown = parents_of(commits, i);
    let passing = passing_at(commits, i);
    let first = lanes_with_first(lanes, oid, shown);
    let below = lanes_below(lanes, oid, shown);
    let n = live_columns(passing).len();
    lemma_next(commits, i);
    lemma_trimmed(below);
    lemma_row_lanes(lanes, oid);
    lemma_passing_lanes(lanes, oid);
    assert forall|c: int|
        0 <= c < lanes.len() && (#[trigger] lanes[c]) is Some && lanes[c] != Some(oid) implies c
        < next.len() && next[c] == lanes[c] by {
        law_passing_lane_is_drawn(commits, i, c);
    }
    assert forall|c: int| 0 <= c < next.len() && (#[trigger] next[c]) is Some implies {
        ||| c < lanes.len() && lanes[c] == next[c] && lanes[c] != Some(oid)
        ||| exists|l: int|
            {
                &&& 0 <= l < row.lines.len()
                &&& (#[trigger] row.lines[l]).from == row.node_col
                &&& row.lines[l].to == c
                &&& row.lines[l].color == c
            }
    } by {
        lemma_below_is_drawn(commits, i, c);
        let l = choose|l: int|
            0 <= l < row.lines.len() && (#[trigger] row.lines[l]).to == c && row.lines[l].color
                == c;
        lemma_line(commits, i, l);
        if l < n {
            assert(live_columns(passing).contains(live_columns(passing)[l]));
            lemma_live_columns(passing);
            assert(passing[c] is Some);
            assert(row_lanes(lanes, oid)[c] == lanes[c]);
        }
    }
    assert forall|l: int|
        {
            &&& 0 <= l < row.lines.len()
            &&& (#[trigger] row.lines[l]).from == row.node_col
            &&& row.lines[l].to != row.node_col
            &&& row.lines[l].color == row.lines[l].to
        } implies {
        &&& forall|c: int| 0 <= c < row.lines[l].to ==> (#[trigger] next[c]) is Some
        &&& row.lines[l].to < lanes.len() ==> lanes[row.lines[l].to] is None
            || lanes[row.lines[l].to] == Some(oid)
    } by {
        lemma_line(commits, i, l);
        let j = l - n;
        let to = row.lines[l].to;
        let last = shown.len() as int;
        lemma_opened_in_order(commits, i, j, last);
        assert(shown.take(last) =~= shown);
        assert forall|c: int| 0 <= c < to implies (#[trigger] next[c]) is Some by {
            assert(below[c] is Some);
        }
        law_additional_parent_fills_empty_slot(commits, i, j);
        let before = open_lanes(first, shown.take(j));
        lemma_position(before, None);
        lemma_open_lanes(first, shown.take(j));
        if to < lanes.len() && lanes[to] is Some && lanes[to] != Some(oid) {
            assert(row_lanes(lanes, oid)[to] == lanes[to]);
            assert(passing[to] == lanes[to]);
            assert(first[to] is Some);
            assert(before[to] is Some);
        }
    }
    assert forall|l: int, m: int|
        {
            &&& 0 <= l < m < row.lines.len()
            &&& (#[trigger] row.lines[l]).from == row.node_col
            &&& row.lines[l].to != row.node_col
            &&& row.lines[l].color == row.lines[l].to
            &&& (#[trigger] row.lines[m]).from == row.node_col
            &&& row.lines[m].to != row.node_col
            &&& row.lines[m].color == row.lines[m].to
        } implies row.lines[l].to < row.lines[m].to by {
        lemma_line(commits, i, l);
        lemma_line(commits, i, m);
        lemma_opened_in_order(commits, i, l - n, m - n);
        law_additional_parent_fills_empty_slot(commits, i, m - n);
        let before = open_lanes(first, shown.take(m - n));
        lemma_position(before, None);
    }
}

/// A row is as wide as its widest part: the lanes above with the node, or the
/// lanes below.
pub proof fn law_width_of_a_row(commits: Seq<CommitView>, i: int)
    requires
        0 <= i < commits.len(),
    ensures
        ({
            let row = graph_row(commits, i);
            let above = lanes_above(commits, i).len();
            let below = lanes_above(commits, i + 1).len();
            &&& above <= row.num_cols
            &&& row.node_col < row.num_cols
            &&& below <= row.num_cols
            &&& row.num_cols == above || row.num_cols == row.node_col + 1 || row.num_cols == below
        }),
{
    lemma_row_lanes(lanes_above(commits, i), commits[i].oid);
}

/// The first parent that a commit names continues in the commit's column, where it
/// is listed.
pub proof fn law_first_named_parent_keeps_column(commits: Seq<CommitView>, i: int)
    requires
        0 <= i < commits.len(),
        commits[i].parents.len() > 0,
        exists|m: int| 0 <= m < commits.len() && (#[trigger] commits[m]).oid == commits[i].parents[0],
    ensures
        ({
            let node = graph_row(commits, i).node_col;
            &&& 0 <= node < lanes_above(commits, i + 1).len()
            &&& lanes_above(commits, i + 1)[node] == Some(commits[i].parents[0])
            &&& graph_row(commits, i).lines.contains(Line { from: node, to: node, color: node })
        }),
{
    let at = law_parents_in_order(commits, i);
    assert(at.contains(0));
    let k = choose|k: int| 0 <= k < at.len() && at[k] == 0;
    assert(k == 0) by {
        if k > 0 {
            assert(at[0] < at[k]);
        }
    }
    lemma_row_lanes(lanes_above(commits, i), commits[i].oid);
    law_first_parent_keeps_column(commits, i);
}

} // verus!
