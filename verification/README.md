# gitkview

A git history viewer. The logic is a library verified with Verus; a GTK program
around it reads the repository and shows the result.

## The library, `src/`

- `oid`: ids of git objects.
- `commits`: commits, and how a walk over the history becomes a list of them:
  each commit once, in the order of the walk, up to a maximum.
- `refs`: which branches, remote branches and tags label a commit, what each label
  stands for, and where `HEAD` stands among them.
- `graph`: the layout of the commit graph in lanes. A lane is a slot that waits for
  one commit or is empty. The first parent of a commit always continues in the
  commit's column; additional parents open lanes in empty slots; lanes that lead to
  the same commit converge there; no lane leaves its column.
- `graph_laws`: what holds of every graph, for instance that the line from a
  commit to its parent is drawn without a gap.
- `colors`: the palette, and that a lane keeps its color.
- `drawing`: the strokes of each row.
- `text`, `dates`, `diff`: the text of a commit and its changes, and how each of
  its lines is highlighted: by what the line is, not by how it looks.
- `listing`: the rows of the commit list.

Three functions of other crates and of the standard library are taken at their
word, each behind a function whose contract says what is claimed of it: the text
of an id (`git2`), the text of a date (`chrono`), and the decoding of UTF-8. So is
`String::push`. `seqs` holds what the modules need of sequences.

## The program, `app/`

`git.rs` reads from the repository with `git2`, `ui.rs` builds the window with
GTK 4, where coordinates are floating-point numbers.
