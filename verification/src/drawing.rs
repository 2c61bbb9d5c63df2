//! What is drawn in each row of the graph.

use vstd::prelude::*;

use crate::commits::CommitView;
use crate::graph::{graph_row, lanes_above, line_view, GraphRow};
use crate::graph_laws::{law_incoming_line, law_lanes_converge, lemma_line};

verus! {

/// One element of a row's drawing. Columns count from the left; a color is the
/// number of a column.
#[derive(Clone, Copy, Debug, PartialEq, Eq, Structural)]
pub enum Stroke {
    /// A lane that runs straight through the row.
    Lane { col: usize, color: usize },
    /// The node's own lane: straight, with a gap around the dot.
    NodeLane { col: usize, color: usize },
    /// The node's own lane where it begins at the node: from below the dot to the
    /// bottom of the row.
    NodeStart { col: usize, color: usize },
    /// A curve from the middle of the row to another column of the next row.
    Curve { from: usize, to: usize, color: usize },
    /// A curve from the top of another column to the dot.
    Converge { from: usize, to: usize, color: usize },
    /// The line from the top of the row to the dot.
    Incoming { col: usize, color: usize },
    /// The commit's dot.
    Dot { col: usize, color: usize },
}

impl Stroke {
    /// How opaque the stroke is, in percent: lanes that run straight stand back
    /// behind curves, the dot covers all.
    pub fn opacity(self) -> (percent: u8)
        ensures
            percent == (match self {
                Stroke::Lane { .. } | Stroke::NodeLane { .. } | Stroke::NodeStart { .. } => 50u8,
                Stroke::Curve { .. } | Stroke::Converge { .. } | Stroke::Incoming { .. } => 70u8,
                Stroke::Dot { .. } => 100u8,
            }),
    {
        match self {
            Stroke::Lane { .. } | Stroke::NodeLane { .. } | Stroke::NodeStart { .. } => 50,
            Stroke::Curve { .. } | Stroke::Converge { .. } | Stroke::Incoming { .. } => 70,
            Stroke::Dot { .. } => 100,
        }
    }
}

/// How a line of a row is drawn, where `reached` says whether a line from above
/// ends at the row's node.
pub open spec fn line_stroke(row: GraphRow, reached: bool, l: int) -> Stroke {
    let (from, to, color) = row.lines@[l];
    if from != to {
        Stroke::Curve { from, to, color }
    } else if from != row.node_col {
        Stroke::Lane { col: from, color }
    } else if reached {
        Stroke::NodeLane { col: from, color }
    } else {
        Stroke::NodeStart { col: from, color }
    }
}

/// How the lane in column `col`, which converges at the row's node, is drawn.
pub open spec fn converging_stroke(row: GraphRow, col: usize) -> Stroke {
    Stroke::Converge { from: col, to: row.node_col, color: col }
}

/// Whether a line of the row above ends at the node of row `i`.
pub open spec fn has_incoming(rows: Seq<GraphRow>, i: int) -> bool {
    i > 0 && exists|l: int|
        0 <= l < rows[i - 1].lines.len() && (#[trigger] rows[i - 1].lines@[l]).1 == rows[i].node_col
}

/// The drawing of row `i`: its lines, the lanes that converge, the line into the
/// dot, the dot.
pub open spec fn row_strokes(rows: Seq<GraphRow>, i: int) -> Seq<Stroke> {
    let row = rows[i];
    let col = row.node_col;
    let reached = has_incoming(rows, i);
    Seq::new(row.lines@.len(), |l: int| line_stroke(row, reached, l)) + row.converging@.map_values(
        |c: usize| converging_stroke(row, c),
    ) + (if reached {
        seq![Stroke::Incoming { col, color: col }]
    } else {
        Seq::empty()
    }) + seq![Stroke::Dot { col, color: col }]
}

/// Whether a line of `row` ends in column `col`.
fn leads_to(row: &GraphRow, col: usize) -> (r: bool)
    ensures
        r == exists|l: int| 0 <= l < row.lines.len() && (#[trigger] row.lines@[l]).1 == col,
{
    for l in 0..row.lines.len()
        invariant
            forall|k: int| 0 <= k < l ==> (#[trigger] row.lines@[k]).1 != col,
    {
        if row.lines[l].1 == col {
            return true;
        }
    }
    false
}

/// Draws row `i`.
fn draw_row(rows: &[GraphRow], i: usize) -> (strokes: Vec<Stroke>)
    requires
        i < rows.len(),
    ensures
        strokes@ == row_strokes(rows@, i as int),
{
    let row = &rows[i];
    let col: usize = row.node_col;
    let reached = i > 0 && leads_to(&rows[i - 1], col);
    let mut strokes: Vec<Stroke> = Vec::new();
    for l in 0..row.lines.len()
        invariant
            col == row.node_col,
            strokes@ == Seq::new(l as nat, |k: int| line_stroke(*row, reached, k)),
    {
        let (from, to, color) = row.lines[l];
        let stroke = if from != to {
            Stroke::Curve { from, to, color }
        } else if from != col {
            Stroke::Lane { col: from, color }
        } else if reached {
            Stroke::NodeLane { col: from, color }
        } else {
            Stroke::NodeStart { col: from, color }
        };
        strokes.push(stroke);
        assert(strokes@ =~= Seq::new((l + 1) as nat, |k: int| line_stroke(*row, reached, k)));
    }
    let ghost lines = strokes@;
    for k in 0..row.converging.len()
        invariant
            col == row.node_col,
            strokes@ == lines + row.converging@.take(k as int).map_values(
                |c: usize| converging_stroke(*row, c),
            ),
    {
        let from: usize = row.converging[k];
        strokes.push(Stroke::Converge { from, to: col, color: from });
        assert(strokes@ =~= lines + row.converging@.take(k + 1).map_values(
            |c: usize| converging_stroke(*row, c),
        ));
    }
    assert(row.converging@.take(row.converging@.len() as int) =~= row.converging@);
    if reached {
        strokes.push(Stroke::Incoming { col, color: col });
    }
    strokes.push(Stroke::Dot { col, color: col });
    assert(strokes@ =~= row_strokes(rows@, i as int));
    strokes
}

/// Draws the graph row by row.
pub fn draw_graph(rows: &[GraphRow]) -> (drawing: Vec<Vec<Stroke>>)
    ensures
        drawing.len() == rows.len(),
        forall|i: int|
            0 <= i < drawing.len() ==> (#[trigger] drawing@[i])@ == row_strokes(rows@, i),
{
    let mut drawing: Vec<Vec<Stroke>> = Vec::new();
    for i in 0..rows.len()
        invariant
            drawing.len() == i,
            forall|k: int| 0 <= k < i ==> (#[trigger] drawing@[k])@ == row_strokes(rows@, k),
    {
        let strokes = draw_row(rows, i);
        drawing.push(strokes);
    }
    drawing
}

/// Whether `rows` are the rows of the graph of `commits`.
pub open spec fn are_rows_of(rows: Seq<GraphRow>, commits: Seq<CommitView>) -> bool {
    &&& rows.len() == commits.len()
    &&& forall|k: int| 0 <= k < rows.len() ==> (#[trigger] rows[k])@ == graph_row(commits, k)
}

/// In a laid out graph a line runs into the dot exactly when a lane waited for
/// the commit.
pub proof fn law_dot_is_reached(rows: Seq<GraphRow>, commits: Seq<CommitView>, i: int)
    requires
        are_rows_of(rows, commits),
        0 <= i < rows.len(),
    ensures
        has_incoming(rows, i) <==> lanes_above(commits, i).contains(Some(commits[i].oid)),
{
    if i > 0 {
        let above = rows[i - 1];
        let lines = graph_row(commits, i - 1).lines;
        law_incoming_line(commits, i);
        assert(above@ == graph_row(commits, i - 1));
        assert(rows[i]@ == graph_row(commits, i));
        assert(lines.len() == above.lines.len());
        assert forall|l: int| 0 <= l < lines.len() implies (#[trigger] above.lines@[l]).1
            == lines[l].to by {}
        if lanes_above(commits, i).contains(Some(commits[i].oid)) {
            let l = choose|l: int|
                0 <= l < lines.len() && (#[trigger] lines[l]).to == graph_row(commits, i).node_col;
            assert(above.lines@[l].1 == rows[i].node_col);
        }
    }
}

/// Whether a stroke draws above the dot of a node in column `col`.
pub open spec fn draws_above(stroke: Stroke, col: usize) -> bool {
    match stroke {
        Stroke::Lane { col: c, .. } => c == col,
        Stroke::NodeLane { col: c, .. } => c == col,
        Stroke::Converge { to, .. } => to == col,
        Stroke::Incoming { col: c, .. } => c == col,
        _ => false,
    }
}

/// In a laid out graph something is drawn above a dot exactly when a lane waited
/// for the commit: nothing is drawn above a dot that no line from above reaches.
pub proof fn law_nothing_above_an_unreached_dot(
    rows: Seq<GraphRow>,
    commits: Seq<CommitView>,
    i: int,
)
    requires
        are_rows_of(rows, commits),
        0 <= i < rows.len(),
    ensures
        (exists|s: int|
            0 <= s < row_strokes(rows, i).len() && draws_above(
                #[trigger] row_strokes(rows, i)[s],
                rows[i].node_col,
            )) <==> lanes_above(commits, i).contains(Some(commits[i].oid)),
{
    let row = rows[i];
    let col = row.node_col;
    let strokes = row_strokes(rows, i);
    let waited = lanes_above(commits, i).contains(Some(commits[i].oid));
    law_dot_is_reached(rows, commits, i);
    assert(row@ == graph_row(commits, i));
    if waited {
        assert(strokes[strokes.len() - 2] == Stroke::Incoming { col, color: col });
    } else {
        assert(row.converging@.len() == 0) by {
            if row.converging@.len() > 0 {
                let c = row@.converging[0];
                assert(row@.converging.contains(c));
                law_lanes_converge(commits, i, c);
            }
        }
        assert forall|s: int| 0 <= s < strokes.len() implies !draws_above(
            #[trigger] strokes[s],
            col,
        ) by {
            if s < row.lines@.len() {
                assert(strokes[s] == line_stroke(row, false, s));
            }
        }
    }
}

/// In a laid out graph every stroke has the color of the lane that it draws: that
/// of the column it runs in, and a curve to another column that of the column it
/// leaves or, where it opens a lane, that of the lane.
pub proof fn law_strokes_have_their_lanes_color(
    rows: Seq<GraphRow>,
    commits: Seq<CommitView>,
    i: int,
    s: int,
)
    requires
        are_rows_of(rows, commits),
        0 <= i < rows.len(),
        0 <= s < row_strokes(rows, i).len(),
    ensures
        match row_strokes(rows, i)[s] {
            Stroke::Lane { col, color } => color == col,
            Stroke::NodeLane { col, color } => color == col,
            Stroke::NodeStart { col, color } => color == col,
            Stroke::Curve { from, to, color } => color == from || color == to,
            Stroke::Converge { from, to: _, color } => color == from,
            Stroke::Incoming { col, color } => color == col,
            Stroke::Dot { col, color } => color == col,
        },
{
    let row = rows[i];
    assert(row@ == graph_row(commits, i));
    if s < row.lines@.len() {
        lemma_line(commits, i, s);
        assert(row@.lines[s] == line_view(row.lines@[s]));
        assert(row_strokes(rows, i)[s] == line_stroke(row, has_incoming(rows, i), s));
    }
}

/// The number of columns that the widest row needs; one where there is no row.
pub open spec fn is_widest(rows: Seq<GraphRow>, cols: int) -> bool {
    &&& rows.len() == 0 ==> cols == 1
    &&& forall|i: int| 0 <= i < rows.len() ==> (#[trigger] rows[i]).num_cols <= cols
    &&& rows.len() > 0 ==> exists|i: int|
        0 <= i < rows.len() && (#[trigger] rows[i]).num_cols == cols
}

/// The number of columns of the widest row.
pub fn max_cols(rows: &[GraphRow]) -> (cols: usize)
    ensures
        is_widest(rows@, cols as int),
{
    if rows.len() == 0 {
        return 1;
    }
    let mut cols: usize = rows[0].num_cols;
    for i in 1..rows.len()
        invariant
            rows.len() > 0,
            forall|k: int| 0 <= k < i ==> (#[trigger] rows@[k]).num_cols <= cols,
            exists|k: int| 0 <= k < i && (#[trigger] rows@[k]).num_cols == cols,
    {
        if rows[i].num_cols > cols {
            cols = rows[i].num_cols;
        }
    }
    cols
}

/// The width of a column, in pixels.
pub const COL_WIDTH: i32 = 12;

/// The height of a row, in pixels.
pub const ROW_HEIGHT: i32 = 20;

/// How many lanes are visible; those further right are clipped.
pub const MAX_VISIBLE_LANES: i32 = 15;

/// The width of the graph, in pixels.
pub fn graph_width() -> (width: i32)
    ensures
        width == 190,
{
    MAX_VISIBLE_LANES * COL_WIDTH + 10
}

/// What is drawn in a row: for each line of the row, in their order, a curve from
/// the column where the line starts to the column where it ends, or a straight
/// stroke in its column, in the line's color; then for each lane that converges a
/// curve from its column to the node; then, where a line of the row above ends at
/// the node, the line into the dot; then the dot; and nothing else.
pub proof fn law_strokes_of_a_row(rows: Seq<GraphRow>, i: int)
    requires
        0 <= i < rows.len(),
    ensures
        ({
            let strokes = row_strokes(rows, i);
            let lines = rows[i].lines@;
            let converging = rows[i].converging@;
            let node = rows[i].node_col;
            let n = lines.len() as int;
            let m = converging.len() as int;
            let reached = i > 0 && exists|l: int|
                0 <= l < rows[i - 1].lines@.len() && (#[trigger] rows[i - 1].lines@[l]).1 == node;
            &&& strokes.len() == n + m + (if reached {
                2int
            } else {
                1
            })
            &&& forall|l: int|
                0 <= l < n ==> {
                    let from = (#[trigger] lines[l]).0;
                    let color = lines[l].2;
                    &&& from != lines[l].1 ==> strokes[l] == (Stroke::Curve {
                        from,
                        to: lines[l].1,
                        color,
                    })
                    &&& from == lines[l].1 && from != node ==> strokes[l] == (Stroke::Lane {
                        col: from,
                        color,
                    })
                    &&& from == lines[l].1 && from == node && reached ==> strokes[l] == (
                    Stroke::NodeLane { col: from, color })
                    &&& from == lines[l].1 && from == node && !reached ==> strokes[l] == (
                    Stroke::NodeStart { col: from, color })
                }
            &&& forall|k: int|
                0 <= k < m ==> strokes[n + k] == (Stroke::Converge {
                    from: #[trigger] converging[k],
                    to: node,
                    color: converging[k],
                })
            &&& reached ==> strokes[n + m] == (Stroke::Incoming { col: node, color: node })
            &&& strokes.last() == (Stroke::Dot { col: node, color: node })
        }),
{
    let strokes = row_strokes(rows, i);
    let row = rows[i];
    let reached = has_incoming(rows, i);
    assert forall|l: int| 0 <= l < row.lines@.len() implies strokes[l] == line_stroke(
        row,
        reached,
        l,
    ) by {}
    assert forall|k: int| 0 <= k < row.converging@.len() implies strokes[row.lines@.len() + k]
        == converging_stroke(row, #[trigger] row.converging@[k]) by {}
}

/// Every curve of a row comes from a line of the row with the same ends and color.
pub proof fn law_curves_are_lines(rows: Seq<GraphRow>, i: int, s: int)
    requires
        0 <= i < rows.len(),
        0 <= s < row_strokes(rows, i).len(),
        row_strokes(rows, i)[s] is Curve,
    ensures
        exists|l: int|
            {
                let line = #[trigger] rows[i].lines@[l];
                &&& 0 <= l < rows[i].lines@.len()
                &&& line.0 != line.1
                &&& row_strokes(rows, i)[s] == (Stroke::Curve {
                    from: line.0,
                    to: line.1,
                    color: line.2,
                })
            },
{
    law_strokes_of_a_row(rows, i);
    let n = rows[i].lines@.len();
    if s < n {
        let line = rows[i].lines@[s];
        assert(line.0 != line.1);
    } else if s < n + rows[i].converging@.len() {
        let c = rows[i].converging@[s - n];
        assert(row_strokes(rows, i)[n + (s - n)] is Converge);
    }
}

/// The widest row: no row has more columns, and one has as many.
pub proof fn law_widest_row(rows: Seq<GraphRow>, cols: int, i: int)
    requires
        is_widest(rows, cols),
        0 <= i < rows.len(),
    ensures
        rows[i].num_cols <= cols,
        exists|k: int| 0 <= k < rows.len() && (#[trigger] rows[k]).num_cols == cols,
{
}

/// The sizes that the drawing is made for: columns of 12 and rows of 20 pixels, and
/// 15 lanes.
pub proof fn law_sizes()
    ensures
        COL_WIDTH == 12,
        ROW_HEIGHT == 20,
        MAX_VISIBLE_LANES == 15,
{
}

} // verus!
