use gitkview::colors::color_for_col;
use gitkview::commits::CommitInfo;
use gitkview::drawing::{draw_graph, graph_width, max_cols, Stroke};
use gitkview::graph::{layout_graph, GraphRow};
use gitkview::oid::Oid;

fn oid(n: u8) -> Oid {
    Oid { bytes: [n; 20] }
}

fn commit(n: u8, parents: &[u8]) -> CommitInfo {
    CommitInfo {
        oid: oid(n),
        summary: String::new(),
        author: String::new(),
        time: 0,
        parents: parents.iter().map(|p| oid(*p)).collect(),
        refs: Vec::new(),
    }
}

#[test]
fn palette_repeats() {
    let palette = [
        "#cba6f7", "#94e2d5", "#f9e2af", "#a6e3a1", "#f5c2e7", "#89b4fa", "#fab387", "#89dceb",
    ];
    for col in 0..40 {
        assert_eq!(color_for_col(col), palette[col % 8]);
    }
    assert_eq!(color_for_col(usize::MAX), "#89dceb");
}

#[test]
fn lane_keeps_its_color_beside_an_ended_one() {
    // The lane from 2 to 5 opens in column 1, and stays there when 3 ends.
    let rows = layout_graph(&[
        commit(1, &[3]),
        commit(2, &[5]),
        commit(3, &[]),
        commit(4, &[]),
        commit(5, &[]),
    ]);
    let drawing = draw_graph(&rows);
    assert!(drawing[2].contains(&Stroke::Lane { col: 1, color: 1 }));
    assert!(drawing[3].contains(&Stroke::Lane { col: 1, color: 1 }));
    assert!(drawing[4].contains(&Stroke::Incoming { col: 1, color: 1 }));
    assert!(drawing[4].contains(&Stroke::Dot { col: 1, color: 1 }));
}

#[test]
fn first_parent_has_the_color_of_the_commit() {
    let rows = layout_graph(&[commit(1, &[3, 2]), commit(2, &[3]), commit(3, &[])]);
    assert_eq!(rows[0].lines, vec![(0, 0, 0), (0, 1, 1)]);
    assert_eq!(rows[1].lines, vec![(0, 0, 0), (1, 1, 1)]);
    assert_eq!(rows[2].converging, vec![1]);
    let drawing = draw_graph(&rows);
    assert_eq!(
        drawing[2],
        vec![
            Stroke::Converge { from: 1, to: 0, color: 1 },
            Stroke::Incoming { col: 0, color: 0 },
            Stroke::Dot { col: 0, color: 0 },
        ]
    );
}

#[test]
fn opened_lane_has_the_color_of_its_column() {
    // 2 leaves column 0 empty, and the lane that 3 opens for 5 has its color.
    let rows = layout_graph(&[
        commit(1, &[2, 3]),
        commit(2, &[]),
        commit(3, &[4, 5]),
        commit(4, &[]),
        commit(5, &[]),
    ]);
    assert_eq!(rows[0].lines, vec![(0, 0, 0), (0, 1, 1)]);
    assert_eq!(rows[1].lines, vec![(1, 1, 1)]);
    assert_eq!(rows[2].lines, vec![(1, 1, 1), (1, 0, 0)]);
    let drawing = draw_graph(&rows);
    assert!(drawing[2].contains(&Stroke::Curve { from: 1, to: 0, color: 0 }));
    assert!(drawing[3].contains(&Stroke::Lane { col: 0, color: 0 }));
}

#[test]
fn line_to_an_awaited_parent_has_the_color_of_the_commit() {
    let rows = layout_graph(&[commit(1, &[3]), commit(2, &[4, 3]), commit(3, &[]), commit(4, &[])]);
    assert!(draw_graph(&rows)[1].contains(&Stroke::Curve { from: 1, to: 0, color: 1 }));
}

#[test]
fn drawing_of_a_merge() {
    let rows = layout_graph(&[
        commit(1, &[2, 3]),
        commit(2, &[4]),
        commit(3, &[4]),
        commit(4, &[]),
    ]);
    let drawing = draw_graph(&rows);
    assert_eq!(
        drawing[0],
        vec![
            Stroke::NodeStart { col: 0, color: 0 },
            Stroke::Curve { from: 0, to: 1, color: 1 },
            Stroke::Dot { col: 0, color: 0 },
        ]
    );
    assert_eq!(
        drawing[1],
        vec![
            Stroke::Lane { col: 1, color: 1 },
            Stroke::NodeLane { col: 0, color: 0 },
            Stroke::Incoming { col: 0, color: 0 },
            Stroke::Dot { col: 0, color: 0 },
        ]
    );
    assert_eq!(
        drawing[2],
        vec![
            Stroke::Lane { col: 0, color: 0 },
            Stroke::NodeLane { col: 1, color: 1 },
            Stroke::Incoming { col: 1, color: 1 },
            Stroke::Dot { col: 1, color: 1 },
        ]
    );
    assert_eq!(
        drawing[3],
        vec![
            Stroke::Converge { from: 1, to: 0, color: 1 },
            Stroke::Incoming { col: 0, color: 0 },
            Stroke::Dot { col: 0, color: 0 },
        ]
    );
}

#[test]
fn nothing_is_drawn_above_a_tip() {
    let drawing = draw_graph(&layout_graph(&[commit(1, &[3]), commit(2, &[3]), commit(3, &[])]));
    assert_eq!(
        drawing[1],
        vec![
            Stroke::Lane { col: 0, color: 0 },
            Stroke::NodeStart { col: 1, color: 1 },
            Stroke::Dot { col: 1, color: 1 },
        ]
    );
    assert!(drawing[2].contains(&Stroke::Incoming { col: 0, color: 0 }));
}

#[test]
fn opacity_of_strokes() {
    assert_eq!(Stroke::Lane { col: 0, color: 0 }.opacity(), 50);
    assert_eq!(Stroke::NodeLane { col: 0, color: 0 }.opacity(), 50);
    assert_eq!(Stroke::NodeStart { col: 0, color: 0 }.opacity(), 50);
    assert_eq!(Stroke::Curve { from: 0, to: 1, color: 0 }.opacity(), 70);
    assert_eq!(Stroke::Converge { from: 1, to: 0, color: 1 }.opacity(), 70);
    assert_eq!(Stroke::Incoming { col: 0, color: 0 }.opacity(), 70);
    assert_eq!(Stroke::Dot { col: 0, color: 0 }.opacity(), 100);
}

#[test]
fn widest_row() {
    assert_eq!(max_cols(&[]), 1);
    let rows = layout_graph(&[
        commit(1, &[2, 3, 4]),
        commit(2, &[]),
        commit(3, &[]),
        commit(4, &[]),
    ]);
    assert_eq!(max_cols(&rows), 3);
    let narrow =
        GraphRow { node_col: 0, converging: Vec::new(), lines: Vec::new(), num_cols: 0 };
    assert_eq!(max_cols(&[narrow]), 0);
}

#[test]
fn width_of_the_graph() {
    assert_eq!(graph_width(), 190);
}
