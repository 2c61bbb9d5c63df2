use gitkview::diff::{
    get_diff_text, highlight, highlight_detail, line_tag, render_detail, CommitDetail, DiffLine,
    DiffTag, LineKind, TaggedLine,
};
use gitkview::oid::Oid;

fn line(origin: char, content: &[u8]) -> DiffLine {
    DiffLine { origin, content: content.to_vec() }
}

fn detail() -> CommitDetail {
    CommitDetail {
        oid: Oid { bytes: [0x1f; 20] },
        author: "A U Thor <author@example.com>".to_string(),
        time: 1112911993,
        message: Some("Add a line\n\nAnd more.\n".to_string()),
        stats: Some(Some(" a.txt | 1 +\n 1 file changed\n".to_string())),
        lines: vec![
            line('F', b"diff --git a/a.txt b/a.txt\n"),
            line('H', b"@@ -1 +1,2 @@\n"),
            line(' ', b"one\n"),
            line('+', b"two\n"),
            line('-', b"three\n"),
            line('+', b"\xff\xfe\n"),
        ],
    }
}

const HEADER: &str = "commit 1f1f1f1f1f1f1f1f1f1f1f1f1f1f1f1f1f1f1f1f\n\
    Author: A U Thor <author@example.com>\n";

#[test]
fn text_of_a_commit() {
    let expected = format!(
        "{}{}",
        HEADER,
        "Date:   2005-04-07 22:13:13\n\
         \n    Add a line\n\nAnd more.\n\n\n \
         a.txt | 1 +\n 1 file changed\n\n\
         diff --git a/a.txt b/a.txt\n\
         @@ -1 +1,2 @@\n \
         one\n\
         +two\n\
         -three\n\
         +"
    );
    assert_eq!(get_diff_text(&Some(detail())), expected);
}

#[test]
fn commit_that_cannot_be_read_has_no_text() {
    assert_eq!(get_diff_text(&None), "");
}

#[test]
fn missing_parts_are_left_out() {
    let mut d = detail();
    d.message = None;
    d.stats = None;
    d.lines = vec![];
    assert_eq!(render_detail(&d, &None), format!("{}\n    \n\n", HEADER));
    d.stats = Some(None);
    assert_eq!(render_detail(&d, &None), format!("{}\n    \n\n\n", HEADER));
    d.time = i64::MIN;
    assert_eq!(get_diff_text(&Some(d)), format!("{}\n    \n\n\n", HEADER));
}

#[test]
fn date_is_what_is_given() {
    let mut d = detail();
    d.stats = None;
    d.lines = vec![];
    d.message = Some("m".to_string());
    assert_eq!(
        render_detail(&d, &Some("yesterday".to_string())),
        format!("{}Date:   yesterday\n\n    m\n\n", HEADER)
    );
}

#[test]
fn tags_of_changes() {
    for text in ["", "+", "-", "+added", "+++ x", "-- x", "--- x", "@@", "diff ", " a | 1 +"] {
        assert_eq!(line_tag(LineKind::Added, text), Some(DiffTag::Add));
        assert_eq!(line_tag(LineKind::Deleted, text), Some(DiffTag::Del));
        assert_eq!(line_tag(LineKind::Head, text), Some(DiffTag::Meta));
    }
}

#[test]
fn tags_of_diff_headers() {
    let tag = |text| line_tag(LineKind::Other, text);
    assert_eq!(tag("@@ -1 +1 @@ fn"), Some(DiffTag::Hunk));
    assert_eq!(tag("diff --git a b"), Some(DiffTag::Meta));
    assert_eq!(tag("index 1..2"), Some(DiffTag::Meta));
    assert_eq!(tag("--- a/file"), Some(DiffTag::File));
    assert_eq!(tag("+++ b/file"), Some(DiffTag::File));
    assert_eq!(tag("new file mode 100644"), None);
    assert_eq!(tag("Author: me"), None);
    assert_eq!(tag("+++x"), None);
    assert_eq!(tag("---"), None);
    assert_eq!(tag("@"), None);
    assert_eq!(tag(""), None);
}

#[test]
fn tags_of_statistics() {
    for kind in [LineKind::Stats, LineKind::Message, LineKind::Context, LineKind::Other] {
        assert_eq!(line_tag(kind, " a.txt | 2 +-"), Some(DiffTag::Stat));
        assert_eq!(line_tag(kind, " a.txt | 2 -"), Some(DiffTag::Stat));
        assert_eq!(line_tag(kind, " a.png | Bin"), Some(DiffTag::Stat));
        assert_eq!(line_tag(kind, "é | ü +"), Some(DiffTag::Stat));
        assert_eq!(line_tag(kind, " a.png | Binary"), None);
        assert_eq!(line_tag(kind, " a | b"), None);
        assert_eq!(line_tag(kind, " a + b"), None);
        assert_eq!(line_tag(kind, " context"), None);
    }
    for kind in [LineKind::Stats, LineKind::Message, LineKind::Context] {
        for text in ["- item", "+ item", "@@", "diff ", "index ", "--- a", "+++ b", "Author: me"] {
            assert_eq!(line_tag(kind, text), None);
        }
    }
}

#[test]
fn looks_of_tags() {
    let all = [
        (DiffTag::Add, "add", "#a6e3a1", false),
        (DiffTag::Del, "del", "#f38ba8", false),
        (DiffTag::Hunk, "hunk", "#89b4fa", false),
        (DiffTag::Meta, "meta", "#cba6f7", true),
        (DiffTag::File, "file", "#f9e2af", true),
        (DiffTag::Stat, "stat", "#6c7086", false),
    ];
    for (tag, name, color, bold) in all {
        assert_eq!(tag.name(), name);
        assert_eq!(tag.foreground(), color);
        assert_eq!(tag.is_bold(), bold);
    }
}

fn texts(lines: &[TaggedLine]) -> Vec<&str> {
    lines.iter().map(|l| l.text.as_str()).collect()
}

fn tags(lines: &[TaggedLine]) -> Vec<Option<DiffTag>> {
    lines.iter().map(|l| l.tag).collect()
}

/// A commit with nothing but a message and changes.
fn plain(message: &str, lines: Vec<DiffLine>) -> CommitDetail {
    let mut d = detail();
    d.message = Some(message.to_string());
    d.stats = None;
    d.lines = lines;
    d
}

#[test]
fn highlighting_of_a_commit() {
    let lines = highlight(&Some(detail()));
    assert_eq!(
        texts(&lines),
        vec![
            "commit 1f1f1f1f1f1f1f1f1f1f1f1f1f1f1f1f1f1f1f1f",
            "Author: A U Thor <author@example.com>",
            "Date:   2005-04-07 22:13:13",
            "",
            "    Add a line",
            "",
            "And more.",
            "",
            "",
            " a.txt | 1 +",
            " 1 file changed",
            "",
            "diff --git a/a.txt b/a.txt",
            "@@ -1 +1,2 @@",
            " one",
            "+two",
            "-three",
            "+",
        ]
    );
    assert_eq!(
        tags(&lines),
        vec![
            Some(DiffTag::Meta),
            Some(DiffTag::Meta),
            Some(DiffTag::Meta),
            None,
            None,
            None,
            None,
            None,
            None,
            Some(DiffTag::Stat),
            None,
            None,
            Some(DiffTag::Meta),
            Some(DiffTag::Hunk),
            None,
            Some(DiffTag::Add),
            Some(DiffTag::Del),
            Some(DiffTag::Add),
        ]
    );
    assert!(highlight(&None).is_empty());
}

#[test]
fn changes_are_highlighted_whatever_they_say() {
    let d = plain(
        "m",
        vec![
            line('F', b"diff --git a/f b/f\nindex 1..2 100644\n--- a/f\n+++ b/f\n"),
            line('-', b"-- a comment\n"),
            line('+', b"++ x;\n"),
            line('+', b"++i;\n"),
            line('-', b"--\n"),
            line('+', b"\n"),
            line(' ', b"- item\n"),
        ],
    );
    let lines = highlight_detail(&d, &None);
    assert_eq!(
        texts(&lines)[5..],
        [
            "diff --git a/f b/f",
            "index 1..2 100644",
            "--- a/f",
            "+++ b/f",
            "--- a comment",
            "+++ x;",
            "+++i;",
            "---",
            "+",
            " - item",
        ]
    );
    assert_eq!(
        tags(&lines)[5..],
        [
            Some(DiffTag::Meta),
            Some(DiffTag::Meta),
            Some(DiffTag::File),
            Some(DiffTag::File),
            Some(DiffTag::Del),
            Some(DiffTag::Add),
            Some(DiffTag::Add),
            Some(DiffTag::Del),
            Some(DiffTag::Add),
            None,
        ]
    );
}

#[test]
fn lines_of_a_message_are_no_changes() {
    let d = plain("Title\n\n- one\n+ two\n@@ three\ndiff four\nAuthor: five\n--- six\n", vec![]);
    let lines = highlight_detail(&d, &None);
    assert_eq!(lines[5].text, "- one");
    assert!(lines[2..].iter().all(|l| l.tag.is_none()));
    assert!(lines[..2].iter().all(|l| l.tag == Some(DiffTag::Meta)));
}

#[test]
fn file_without_a_newline_at_its_end() {
    let d = plain(
        "m",
        vec![
            line('-', b"old"),
            line('<', b"\n\\ No newline at end of file\n"),
            line('+', b"new"),
            line('>', b"\n\\ No newline at end of file\n"),
        ],
    );
    let lines = highlight_detail(&d, &None);
    let from = lines.len() - 4;
    assert_eq!(
        texts(&lines)[from..],
        ["-old", "\\ No newline at end of file", "+new", "\\ No newline at end of file"]
    );
    assert_eq!(
        tags(&lines)[from..],
        [Some(DiffTag::Del), None, Some(DiffTag::Add), None]
    );
}

#[test]
fn line_that_is_no_text_runs_into_the_next() {
    // The bytes are no text, so nothing ends the line but the next one's newline.
    let d = plain("m", vec![line('-', b"\xff\n"), line('+', b"x\n"), line('+', b"y\n")]);
    let lines = highlight_detail(&d, &None);
    let from = lines.len() - 2;
    assert_eq!(texts(&lines)[from..], ["-+x", "+y"]);
    assert_eq!(tags(&lines)[from..], [Some(DiffTag::Del), Some(DiffTag::Add)]);
}

#[test]
fn lines_are_those_of_the_text() {
    let parts = [
        "", "\n", "a", "a\n", "a\nb", "a\r\nb\r\n", "a\r", "a\r\r\nb", "\r\n\r\n", "\n\n\n", "\r",
        "a\rb\n", "ä\nö\r\n", "a\n\r",
    ];
    for message in parts {
        for content in parts {
            for origin in ['+', ' ', 'F'] {
                let d = plain(message, vec![line(origin, content.as_bytes())]);
                let lines = highlight_detail(&d, &None);
                let text = render_detail(&d, &None);
                let expected: Vec<&str> = text.lines().collect();
                assert_eq!(texts(&lines), expected);
                assert!(lines.iter().all(|l| !l.text.contains('\n')));
            }
        }
    }
}

#[test]
fn first_line_names_the_commit() {
    let lines = highlight(&Some(detail()));
    assert_eq!(lines[0].text, "commit 1f1f1f1f1f1f1f1f1f1f1f1f1f1f1f1f1f1f1f1f");
    assert_eq!(lines[0].tag, Some(DiffTag::Meta));
}

#[test]
fn lines_make_up_the_text() {
    let d = plain("one\n\ntwo", vec![line('+', b"x\n"), line('-', b"y\n")]);
    let mut again = String::new();
    for l in highlight_detail(&d, &None) {
        again.push_str(&l.text);
        again.push('\n');
    }
    assert_eq!(again, render_detail(&d, &None));
}
