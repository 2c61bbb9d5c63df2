use gitkview::commits::CommitInfo;
use gitkview::graph::{layout_graph, GraphRow};
use gitkview::oid::Oid;

fn oid(n: u8) -> Oid {
    let mut bytes = [0u8; 20];
    bytes[0] = n;
    bytes[19] = n.wrapping_mul(7);
    Oid { bytes }
}

fn commit(n: u8, parents: &[u8]) -> CommitInfo {
    CommitInfo {
        oid: oid(n),
        summary: String::new(),
        author: String::new(),
        time: 0,
        parents: parents.iter().map(|p| oid(*p)).collect(),
        refs: Vec::new(),
    }
}

fn row(
    node_col: usize,
    converging: &[usize],
    lines: &[(usize, usize, usize)],
    num_cols: usize,
) -> (usize, Vec<usize>, Vec<(usize, usize, usize)>, usize) {
    (node_col, converging.to_vec(), lines.to_vec(), num_cols)
}

fn parts(row: &GraphRow) -> (usize, Vec<usize>, Vec<(usize, usize, usize)>, usize) {
    (row.node_col, row.converging.clone(), row.lines.clone(), row.num_cols)
}

#[test]
fn no_commits_no_rows() {
    assert!(layout_graph(&[]).is_empty());
}

#[test]
fn linear_history_is_one_lane() {
    let rows = layout_graph(&[commit(1, &[2]), commit(2, &[3]), commit(3, &[])]);
    assert_eq!(parts(&rows[0]), row(0, &[], &[(0, 0, 0)], 1));
    assert_eq!(parts(&rows[1]), row(0, &[], &[(0, 0, 0)], 1));
    assert_eq!(parts(&rows[2]), row(0, &[], &[], 1));
}

#[test]
fn parent_outside_the_list_is_not_drawn() {
    let rows = layout_graph(&[commit(1, &[9])]);
    assert_eq!(parts(&rows[0]), row(0, &[], &[], 1));
}

#[test]
fn first_listed_parent_counts_as_the_first() {
    let rows = layout_graph(&[commit(1, &[9, 2]), commit(2, &[])]);
    assert_eq!(parts(&rows[0]), row(0, &[], &[(0, 0, 0)], 1));
}

#[test]
fn merge_opens_a_lane_and_converges() {
    // 1 merges 2 and 3, which both come from 4.
    let rows = layout_graph(&[
        commit(1, &[2, 3]),
        commit(2, &[4]),
        commit(3, &[4]),
        commit(4, &[]),
    ]);
    assert_eq!(parts(&rows[0]), row(0, &[], &[(0, 0, 0), (0, 1, 1)], 2));
    assert_eq!(parts(&rows[1]), row(0, &[], &[(1, 1, 1), (0, 0, 0)], 2));
    assert_eq!(parts(&rows[2]), row(1, &[], &[(0, 0, 0), (1, 1, 1)], 2));
    assert_eq!(parts(&rows[3]), row(0, &[1], &[], 2));
}

#[test]
fn tip_opens_a_lane_on_the_right() {
    let rows = layout_graph(&[commit(1, &[3]), commit(2, &[3]), commit(3, &[])]);
    assert_eq!(parts(&rows[0]), row(0, &[], &[(0, 0, 0)], 1));
    assert_eq!(parts(&rows[1]), row(1, &[], &[(0, 0, 0), (1, 1, 1)], 2));
    assert_eq!(parts(&rows[2]), row(0, &[1], &[], 2));
}

#[test]
fn lane_beside_an_ended_one_stays() {
    // The lane of 3 ends in column 0; the lane of 4 stays in column 1.
    let rows = layout_graph(&[
        commit(1, &[3]),
        commit(2, &[4]),
        commit(3, &[]),
        commit(4, &[]),
    ]);
    assert_eq!(parts(&rows[1]), row(1, &[], &[(0, 0, 0), (1, 1, 1)], 2));
    assert_eq!(parts(&rows[2]), row(0, &[], &[(1, 1, 1)], 2));
    assert_eq!(parts(&rows[3]), row(1, &[], &[], 2));
}

#[test]
fn first_parent_keeps_the_column_although_it_is_awaited_elsewhere() {
    // The lane of 4 stands left of 2, whose first parent is 4 and second is 5.
    let rows = layout_graph(&[
        commit(1, &[4]),
        commit(2, &[4, 5]),
        commit(4, &[]),
        commit(5, &[]),
    ]);
    assert_eq!(parts(&rows[1]), row(1, &[], &[(0, 0, 0), (1, 1, 1), (1, 2, 2)], 3));
    assert_eq!(parts(&rows[2]), row(0, &[1], &[(2, 2, 2)], 3));
    assert_eq!(parts(&rows[3]), row(2, &[], &[], 3));
}

#[test]
fn additional_parent_fills_an_empty_slot() {
    // 3 leaves column 0 empty; 6, the second parent of 4, opens its lane there.
    let rows = layout_graph(&[
        commit(1, &[3]),
        commit(2, &[4]),
        commit(3, &[]),
        commit(4, &[5, 6]),
        commit(5, &[]),
        commit(6, &[]),
    ]);
    assert_eq!(parts(&rows[3]), row(1, &[], &[(1, 1, 1), (1, 0, 0)], 2));
    assert_eq!(parts(&rows[4]), row(1, &[], &[(0, 0, 0)], 2));
    assert_eq!(parts(&rows[5]), row(0, &[], &[], 1));
}

#[test]
fn additional_parent_joins_the_lane_that_waits_for_it() {
    let rows = layout_graph(&[
        commit(1, &[3]),
        commit(2, &[4, 3]),
        commit(3, &[]),
        commit(4, &[]),
    ]);
    assert_eq!(parts(&rows[1]), row(1, &[], &[(0, 0, 0), (1, 1, 1), (1, 0, 1)], 2));
    assert_eq!(parts(&rows[2]), row(0, &[], &[(1, 1, 1)], 2));
}

#[test]
fn three_parents() {
    let rows = layout_graph(&[
        commit(1, &[2, 3, 4, 3]),
        commit(2, &[]),
        commit(3, &[]),
        commit(4, &[]),
    ]);
    assert_eq!(
        parts(&rows[0]),
        row(0, &[], &[(0, 0, 0), (0, 1, 1), (0, 2, 2), (0, 1, 0)], 3)
    );
    assert_eq!(parts(&rows[1]), row(0, &[], &[(1, 1, 1), (2, 2, 2)], 3));
    assert_eq!(parts(&rows[2]), row(1, &[], &[(2, 2, 2)], 3));
    assert_eq!(parts(&rows[3]), row(2, &[], &[], 3));
}

#[test]
fn commit_that_is_its_own_parent() {
    let rows = layout_graph(&[commit(1, &[1])]);
    assert_eq!(parts(&rows[0]), row(0, &[], &[(0, 0, 0)], 1));
}

/// The parents of commit `i` that are listed.
fn listed_parents(commits: &[CommitInfo], i: usize) -> Vec<Oid> {
    commits[i]
        .parents
        .iter()
        .filter(|p| commits.iter().any(|c| c.oid == **p))
        .copied()
        .collect()
}

/// The line from commit `i` to its parent, commit `j`, can be followed: it leaves
/// for some column, runs straight down in it, and ends at the parent.
fn is_connected(rows: &[GraphRow], i: usize, j: usize) -> bool {
    rows[i].lines.iter().any(|line| {
        let col = line.1;
        line.0 == rows[i].node_col
            && rows[i + 1..j]
                .iter()
                .all(|r| r.node_col != col && r.lines.contains(&(col, col, col)))
            && (rows[j].node_col == col || rows[j].converging.contains(&col))
    })
}

#[test]
fn properties_of_many_graphs() {
    let mut state: u32 = 12345;
    let mut random = |below: u32| -> u32 {
        state = state.wrapping_mul(1664525).wrapping_add(1013904223);
        (state >> 16) % below
    };
    for _ in 0..300 {
        let count = 1 + random(30);
        let mut commits = Vec::new();
        for n in 0..count {
            let mut parents = Vec::new();
            for _ in 0..random(4) {
                parents.push((n + 1 + random(8)) as u8);
            }
            commits.push(commit(n as u8, &parents));
        }
        let rows = layout_graph(&commits);
        assert_eq!(rows.len(), commits.len());
        for (i, r) in rows.iter().enumerate() {
            let node = r.node_col;
            let parents = listed_parents(&commits, i);
            // The row is wide enough.
            assert!(node < r.num_cols);
            assert!(r.converging.iter().all(|c| *c < r.num_cols));
            assert!(r.lines.iter().all(|l| l.0.max(l.1).max(l.2) < r.num_cols));
            // The other lanes go straight down in their color.
            for line in r.lines.iter().filter(|l| l.0 != node) {
                assert_eq!(*line, (line.0, line.0, line.0));
            }
            // One line to each parent, the first one straight down.
            let own: Vec<_> = r.lines.iter().filter(|l| l.0 == node).collect();
            assert_eq!(own.len(), parents.len());
            if !own.is_empty() {
                assert_eq!(*own[0], (node, node, node));
            }
            // Every line can be followed to its commit.
            for p in &parents {
                let j = commits.iter().position(|c| c.oid == *p).unwrap();
                assert!(is_connected(&rows, i, j));
            }
            // What comes from above goes on, converges or ends at the node, and
            // nothing else does.
            let above: Vec<usize> = match i {
                0 => Vec::new(),
                _ => rows[i - 1].lines.iter().map(|l| l.1).collect(),
            };
            let goes_on = |col: usize| r.lines.iter().any(|l| l.0 != node && l.0 == col);
            for col in 0..r.num_cols {
                let passes = goes_on(col) || r.converging.contains(&col);
                assert_eq!(above.contains(&col), passes || col == node && above.contains(&node));
                assert!(!(goes_on(col) && r.converging.contains(&col)));
            }
            assert!(!r.converging.contains(&node));
            // Lanes converge only where one leads to the node.
            assert!(r.converging.is_empty() || above.contains(&node));
        }
        // Children come before parents here, so no lane is left over at the end.
        assert!(rows[rows.len() - 1].lines.is_empty());
    }
}

#[test]
fn edges_can_be_followed_from_child_to_parent() {
    let commits = [
        commit(1, &[3, 5]),
        commit(2, &[4]),
        commit(3, &[5]),
        commit(4, &[6]),
        commit(5, &[6]),
        commit(6, &[]),
    ];
    let rows = layout_graph(&commits);
    assert!(is_connected(&rows, 0, 2));
    assert!(is_connected(&rows, 0, 4));
    assert!(is_connected(&rows, 1, 3));
    assert!(is_connected(&rows, 2, 4));
    assert!(is_connected(&rows, 3, 5));
    assert!(is_connected(&rows, 4, 5));
    assert_eq!(rows[5].node_col, 0);
    assert_eq!(rows[5].converging, vec![2]);
}
