//! Colors of the lanes.
//!
//! A color is the number of a column. A lane has the color of the column that it
//! was opened in, and keeps it until it reaches its commit.

use vstd::prelude::*;

use crate::commits::CommitView;
use crate::graph::{graph_row, lanes_above, passing_line};
use crate::graph_laws::{
    law_lanes_converge, law_passing_lane_is_drawn, lemma_below_is_drawn, lemma_lane_stays,
};

verus! {

/// The colors that the lanes take in turn.
pub open spec fn graph_colors() -> Seq<Seq<char>> {
    seq![
        "#cba6f7"@,
        "#94e2d5"@,
        "#f9e2af"@,
        "#a6e3a1"@,
        "#f5c2e7"@,
        "#89b4fa"@,
        "#fab387"@,
        "#89dceb"@,
    ]
}

/// The color of a column.
pub fn color_for_col(col: usize) -> (color: &'static str)
    ensures
        color@ == graph_colors()[col as int % 8],
{
    match col % 8 {
        0 => "#cba6f7",
        1 => "#94e2d5",
        2 => "#f9e2af",
        3 => "#a6e3a1",
        4 => "#f5c2e7",
        5 => "#89b4fa",
        6 => "#fab387",
        _ => "#89dceb",
    }
}

/// Each lane below row `i` is reached by a line in the lane's color.
pub proof fn law_lane_begins_in_its_color(commits: Seq<CommitView>, i: int, col: int)
    requires
        0 <= i < commits.len(),
        0 <= col < lanes_above(commits, i + 1).len(),
        lanes_above(commits, i + 1)[col] is Some,
    ensures
        exists|l: int|
            {
                &&& 0 <= l < graph_row(commits, i).lines.len()
                &&& (#[trigger] graph_row(commits, i).lines[l]).to == col
                &&& graph_row(commits, i).lines[l].color == col
            },
{
    lemma_below_is_drawn(commits, i, col);
}

/// A lane keeps its color: the lane in column `col` above row `i` is drawn in
/// the column's color, straight down, in every row until its commit comes up in
/// row `j`, and ends there in the same column, at the node or converging on it.
pub proof fn law_lane_keeps_color(commits: Seq<CommitView>, i: int, j: int, col: int)
    requires
        0 <= i <= j < commits.len(),
        0 <= col < lanes_above(commits, i).len(),
        lanes_above(commits, i)[col] == Some(commits[j].oid),
        forall|m: int| i <= m < j ==> (#[trigger] commits[m]).oid != commits[j].oid,
    ensures
        forall|k: int|
            i <= k < j ==> (#[trigger] graph_row(commits, k)).lines.contains(passing_line(col)),
        graph_row(commits, j).node_col == col || graph_row(commits, j).converging.contains(col),
{
    assert forall|k: int| i <= k < j implies (#[trigger] graph_row(commits, k)).lines.contains(
        passing_line(col),
    ) by {
        lemma_lane_stays(commits, i, k, col);
        law_passing_lane_is_drawn(commits, k, col);
    }
    lemma_lane_stays(commits, i, j, col);
    law_lanes_converge(commits, j, col);
}

/// The palette has eight colors, all of them different.
pub proof fn law_palette(a: int, b: int)
    requires
        0 <= a < b < 8,
    ensures
        graph_colors().len() == 8,
        graph_colors()[a] != graph_colors()[b],
{
    reveal_strlit("#cba6f7");
    reveal_strlit("#94e2d5");
    reveal_strlit("#f9e2af");
    reveal_strlit("#a6e3a1");
    reveal_strlit("#f5c2e7");
    reveal_strlit("#89b4fa");
    reveal_strlit("#fab387");
    reveal_strlit("#89dceb");
    let x = graph_colors()[a];
    let y = graph_colors()[b];
    assert(x[1] != y[1] || x[2] != y[2] || x[3] != y[3] || x[4] != y[4]);
}

} // verus!
