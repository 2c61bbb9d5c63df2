//! The text of a commit and its changes, and how its lines are highlighted.

use vstd::prelude::*;
use vstd::string::StringExecFns;
use vstd::utf8::{decode_utf8, valid_utf8};

use crate::commits::or_empty;
use crate::dates::{date_to_the_second, has_date, utc_text};
use crate::oid::{hex_text, Oid};
use crate::refs::option_view;
use crate::text::{
    chars_of, contains, contains_text, decode_or_empty, ends_a_line, ends_with, ends_with_text,
    law_containing, law_lines_of_parts, law_start_and_end, lemma_first_line, lemma_line_end,
    line_end, lines_of, starts_with, starts_with_text, text_or_empty, without_return,
};

verus! {

/// A line of a diff.
pub struct DiffLine {
    /// What the line is: added, deleted, context or something else.
    pub origin: char,
    pub content: Vec<u8>,
}

/// A commit and what it changes.
pub struct CommitDetail {
    pub oid: Oid,
    /// The name and the address of the author.
    pub author: String,
    /// Seconds since the Unix epoch.
    pub time: i64,
    /// The message, where it is text.
    pub message: Option<String>,
    /// The statistics of the changes, where they are known, and where they are text.
    pub stats: Option<Option<String>>,
    pub lines: Vec<DiffLine>,
}

/// What stands before the content of a line: the sign of an added, deleted or
/// context line, nothing before another line.
pub open spec fn line_prefix(origin: char) -> Seq<char> {
    if origin == '+' || origin == '-' || origin == ' ' {
        seq![origin]
    } else {
        Seq::empty()
    }
}

/// The text of a line of a diff.
pub open spec fn line_text(line: DiffLine) -> Seq<char> {
    line_prefix(line.origin) + text_or_empty(line.content@)
}

/// The texts of the lines of a diff, one after the other.
pub open spec fn lines_text(lines: Seq<DiffLine>) -> Seq<char>
    decreases lines.len(),
{
    if lines.len() == 0 {
        Seq::empty()
    } else {
        lines_text(lines.drop_last()) + line_text(lines.last())
    }
}

/// The first lines of the text of a commit whose date is `date`: what names the
/// commit, its author and its date.
pub open spec fn head_text(detail: CommitDetail, date: Option<Seq<char>>) -> Seq<char> {
    "commit "@ + hex_text(detail.oid.bytes@) + "\n"@ + "Author: "@ + detail.author@ + "\n"@ + (
    match date {
        Some(d) => "Date:   "@ + d + "\n"@,
        None => Seq::empty(),
    })
}

/// The message in the text of a commit.
pub open spec fn message_text(detail: CommitDetail) -> Seq<char> {
    "\n    "@ + or_empty(option_view(detail.message)) + "\n\n"@
}

/// The statistics in the text of a commit.
pub open spec fn stats_text(detail: CommitDetail) -> Seq<char> {
    match detail.stats {
        Some(s) => or_empty(option_view(s)) + "\n"@,
        None => Seq::empty(),
    }
}

/// What stands above the changes in the text of a commit whose date is `date`.
pub open spec fn header_text(detail: CommitDetail, date: Option<Seq<char>>) -> Seq<char> {
    head_text(detail, date) + message_text(detail) + stats_text(detail)
}

/// The text of a commit whose date is `date`.
pub open spec fn detail_text(detail: CommitDetail, date: Option<Seq<char>>) -> Seq<char> {
    header_text(detail, date) + lines_text(detail.lines@)
}

/// The date that a commit is shown with.
pub open spec fn detail_date(time: i64) -> Option<Seq<char>> {
    if has_date(time) {
        Some(utc_text(time, "%Y-%m-%d %H:%M:%S"@))
    } else {
        None
    }
}

/// Appends a text, where there is one.
fn push_optional(text: &mut String, more: &Option<String>)
    ensures
        final(text)@ == old(text)@ + or_empty(option_view(*more)),
{
    match more {
        Some(m) => text.append(m.as_str()),
        None => {
            assert(text@ + Seq::<char>::empty() =~= text@);
        },
    }
}

/// Writes down what names a commit, its author and its date.
fn write_head(detail: &CommitDetail, date: &Option<String>) -> (text: String)
    ensures
        text@ == head_text(*detail, option_view(*date)),
{
    let mut text = String::new();
    text.append("commit ");
    text.append(detail.oid.text().as_str());
    text.append("\n");
    text.append("Author: ");
    text.append(detail.author.as_str());
    text.append("\n");
    let ghost above = text@;
    match date {
        Some(d) => {
            text.append("Date:   ");
            text.append(d.as_str());
            text.append("\n");
            assert(text@ =~= above + ("Date:   "@ + d@ + "\n"@));
        },
        None => {},
    }
    assert(text@ =~= head_text(*detail, option_view(*date)));
    text
}

/// Writes down the message of a commit.
fn write_message(detail: &CommitDetail) -> (text: String)
    ensures
        text@ == message_text(*detail),
{
    let mut text = String::new();
    text.append("\n    ");
    push_optional(&mut text, &detail.message);
    text.append("\n\n");
    assert(text@ =~= message_text(*detail));
    text
}

/// Writes down the statistics of the changes.
fn write_stats(detail: &CommitDetail) -> (text: String)
    ensures
        text@ == stats_text(*detail),
{
    let mut text = String::new();
    if let Some(s) = &detail.stats {
        push_optional(&mut text, s);
        text.append("\n");
    }
    assert(text@ =~= stats_text(*detail));
    text
}

/// Writes down a line of a diff.
fn write_line(line: &DiffLine) -> (text: String)
    ensures
        text@ == line_text(*line),
{
    let mut text = String::new();
    if line.origin == '+' || line.origin == '-' || line.origin == ' ' {
        text.push(line.origin);
    }
    assert(text@ =~= line_prefix(line.origin));
    text.append(decode_or_empty(line.content.as_slice()));
    text
}

/// Writes down a commit whose date is `date`, and what it changes.
pub fn render_detail(detail: &CommitDetail, date: &Option<String>) -> (text: String)
    ensures
        text@ == detail_text(*detail, option_view(*date)),
{
    let mut text = write_head(detail, date);
    text.append(write_message(detail).as_str());
    text.append(write_stats(detail).as_str());
    let ghost header = text@;
    assert(header + lines_text(detail.lines@.take(0)) =~= header);
    for i in 0..detail.lines.len()
        invariant
            text@ == header + lines_text(detail.lines@.take(i as int)),
    {
        text.append(write_line(&detail.lines[i]).as_str());
        assert(detail.lines@.take(i + 1).drop_last() =~= detail.lines@.take(i as int));
        assert(text@ =~= header + lines_text(detail.lines@.take(i + 1)));
    }
    assert(detail.lines@.take(detail.lines@.len() as int) =~= detail.lines@);
    text
}

/// The text that is shown for a commit; none where the commit and its changes
/// could not be read.
pub fn get_diff_text(detail: &Option<CommitDetail>) -> (text: String)
    ensures
        text@ == (match *detail {
            Some(d) => detail_text(d, detail_date(d.time)),
            None => Seq::empty(),
        }),
{
    match detail {
        Some(d) => render_detail(d, &date_to_the_second(d.time)),
        None => String::new(),
    }
}

/// How a line is highlighted.
#[derive(Clone, Copy, Debug, PartialEq, Eq, Structural)]
pub enum DiffTag {
    Add,
    Del,
    Hunk,
    Meta,
    File,
    Stat,
}

impl DiffTag {
    /// The name of the highlighting.
    pub fn name(self) -> (name: &'static str)
        ensures
            name@ == (match self {
                DiffTag::Add => "add"@,
                DiffTag::Del => "del"@,
                DiffTag::Hunk => "hunk"@,
                DiffTag::Meta => "meta"@,
                DiffTag::File => "file"@,
                DiffTag::Stat => "stat"@,
            }),
    {
        match self {
            DiffTag::Add => "add",
            DiffTag::Del => "del",
            DiffTag::Hunk => "hunk",
            DiffTag::Meta => "meta",
            DiffTag::File => "file",
            DiffTag::Stat => "stat",
        }
    }

    /// The color of the text: green for what is added, red for what is deleted,
    /// blue for hunks, purple for metadata, yellow for files, gray for statistics.
    pub fn foreground(self) -> (color: &'static str)
        ensures
            color@ == (match self {
                DiffTag::Add => "#a6e3a1"@,
                DiffTag::Del => "#f38ba8"@,
                DiffTag::Hunk => "#89b4fa"@,
                DiffTag::Meta => "#cba6f7"@,
                DiffTag::File => "#f9e2af"@,
                DiffTag::Stat => "#6c7086"@,
            }),
    {
        match self {
            DiffTag::Add => "#a6e3a1",
            DiffTag::Del => "#f38ba8",
            DiffTag::Hunk => "#89b4fa",
            DiffTag::Meta => "#cba6f7",
            DiffTag::File => "#f9e2af",
            DiffTag::Stat => "#6c7086",
        }
    }

    /// Whether the text is bold.
    pub fn is_bold(self) -> (bold: bool)
        ensures
            bold == (self == DiffTag::Meta || self == DiffTag::File),
    {
        match self {
            DiffTag::Meta | DiffTag::File => true,
            _ => false,
        }
    }
}

/// Whether a line belongs to the statistics of the changes.
pub open spec fn is_stat_line(line: Seq<char>) -> bool {
    &&& contains_text(line, " | "@)
    &&& contains_text(line, " +"@) || contains_text(line, " -"@) || ends_with_text(line, "Bin"@)
}

/// What a character of the text of a commit belongs to.
#[derive(Clone, Copy, Debug, PartialEq, Eq, Structural)]
pub enum LineKind {
    /// What names the commit, its author and its date.
    Head,
    /// The message.
    Message,
    /// The statistics of the changes.
    Stats,
    /// A line of the diff that is added.
    Added,
    /// A line of the diff that is deleted.
    Deleted,
    /// A line of the diff that stays.
    Context,
    /// Any other line of the diff: a header, or a remark.
    Other,
}

/// What a line of a diff with the given origin is.
pub open spec fn kind_of(origin: char) -> LineKind {
    if origin == '+' {
        LineKind::Added
    } else if origin == '-' {
        LineKind::Deleted
    } else if origin == ' ' {
        LineKind::Context
    } else {
        LineKind::Other
    }
}

/// Decides what a line of a diff with the given origin is.
fn line_kind(origin: char) -> (kind: LineKind)
    ensures
        kind == kind_of(origin),
{
    if origin == '+' {
        LineKind::Added
    } else if origin == '-' {
        LineKind::Deleted
    } else if origin == ' ' {
        LineKind::Context
    } else {
        LineKind::Other
    }
}

/// How a line is highlighted that starts with a character of the given kind: an
/// added line as added and a deleted line as deleted, whatever it says.
pub open spec fn tag_of(kind: LineKind, line: Seq<char>) -> Option<DiffTag> {
    match kind {
        LineKind::Head => Some(DiffTag::Meta),
        LineKind::Added => Some(DiffTag::Add),
        LineKind::Deleted => Some(DiffTag::Del),
        LineKind::Message | LineKind::Stats | LineKind::Context => stat_tag(line),
        LineKind::Other => if starts_with_text(line, "@@"@) {
            Some(DiffTag::Hunk)
        } else if starts_with_text(line, "diff "@) || starts_with_text(line, "index "@) {
            Some(DiffTag::Meta)
        } else if starts_with_text(line, "--- "@) || starts_with_text(line, "+++ "@) {
            Some(DiffTag::File)
        } else {
            stat_tag(line)
        },
    }
}

/// How a line is highlighted that is no part of a change: statistics stand back.
pub open spec fn stat_tag(line: Seq<char>) -> Option<DiffTag> {
    if is_stat_line(line) {
        Some(DiffTag::Stat)
    } else {
        None
    }
}

/// Highlights a line of statistics.
fn tag_stat(chars: &Vec<char>) -> (tag: Option<DiffTag>)
    ensures
        tag == stat_tag(chars@),
{
    if contains(chars, " | ") && (contains(chars, " +") || contains(chars, " -") || ends_with(
        chars,
        "Bin",
    )) {
        Some(DiffTag::Stat)
    } else {
        None
    }
}

/// Decides how a line is highlighted that starts with a character of the given
/// kind.
pub fn line_tag(kind: LineKind, line: &str) -> (tag: Option<DiffTag>)
    ensures
        tag == tag_of(kind, line@),
{
    let chars = chars_of(line);
    match kind {
        LineKind::Head => Some(DiffTag::Meta),
        LineKind::Added => Some(DiffTag::Add),
        LineKind::Deleted => Some(DiffTag::Del),
        LineKind::Message | LineKind::Stats | LineKind::Context => tag_stat(&chars),
        LineKind::Other => if starts_with(&chars, "@@") {
            Some(DiffTag::Hunk)
        } else if starts_with(&chars, "diff ") || starts_with(&chars, "index ") {
            Some(DiffTag::Meta)
        } else if starts_with(&chars, "--- ") || starts_with(&chars, "+++ ") {
            Some(DiffTag::File)
        } else {
            tag_stat(&chars)
        },
    }
}

/// The kinds of the lines of a text whose characters have the given kinds: that of
/// the first character of each line.
pub open spec fn line_kinds(text: Seq<char>, kinds: Seq<LineKind>) -> Seq<LineKind>
    decreases text.len(),
{
    if text.len() == 0 {
        Seq::empty()
    } else if line_end(text) == text.len() {
        seq![kinds[0]]
    } else {
        proof {
            lemma_line_end(text);
        }
        seq![kinds[0]] + line_kinds(text.skip(line_end(text) + 1), kinds.skip(line_end(text) + 1))
    }
}

/// One kind for all characters of a text.
pub open spec fn all_of_kind(text: Seq<char>, kind: LineKind) -> Seq<LineKind> {
    Seq::new(text.len(), |k: int| kind)
}

/// The kinds of the characters of the lines of a diff.
pub open spec fn lines_kinds(lines: Seq<DiffLine>) -> Seq<LineKind>
    decreases lines.len(),
{
    if lines.len() == 0 {
        Seq::empty()
    } else {
        lines_kinds(lines.drop_last()) + all_of_kind(
            line_text(lines.last()),
            kind_of(lines.last().origin),
        )
    }
}

/// The kinds of the characters above the changes.
pub open spec fn header_kinds(detail: CommitDetail, date: Option<Seq<char>>) -> Seq<LineKind> {
    all_of_kind(head_text(detail, date), LineKind::Head) + all_of_kind(
        message_text(detail),
        LineKind::Message,
    ) + all_of_kind(stats_text(detail), LineKind::Stats)
}

/// The kinds of the characters of the text of a commit whose date is `date`.
pub open spec fn detail_kinds(detail: CommitDetail, date: Option<Seq<char>>) -> Seq<LineKind> {
    header_kinds(detail, date) + lines_kinds(detail.lines@)
}

/// How the lines of the text of a commit whose date is `date` are highlighted.
pub open spec fn detail_tags(detail: CommitDetail, date: Option<Seq<char>>) -> Seq<
    Option<DiffTag>,
> {
    let text = detail_text(detail, date);
    let kinds = line_kinds(text, detail_kinds(detail, date));
    Seq::new(lines_of(text).len(), |i: int| tag_of(kinds[i], lines_of(text)[i]))
}

/// Each character of a diff has a kind.
proof fn lemma_lines_kinds(lines: Seq<DiffLine>)
    ensures
        lines_kinds(lines).len() == lines_text(lines).len(),
    decreases lines.len(),
{
    if lines.len() > 0 {
        lemma_lines_kinds(lines.drop_last());
    }
}

/// The kind of the first line of a text, and those of the others.
proof fn lemma_first_kind(line: Seq<char>, rest: Seq<char>, kinds: Seq<LineKind>)
    requires
        !line.contains('\n'),
    ensures
        line_kinds(line.push('\n') + rest, kinds) == seq![kinds[0]] + line_kinds(
            rest,
            kinds.skip(line.len() as int + 1),
        ),
        line.len() > 0 ==> line_kinds(line, kinds) == seq![kinds[0]],
{
    let all = line.push('\n') + rest;
    let n = line.len() as int;
    lemma_line_end(all);
    lemma_line_end(line);
    assert(all[n] == '\n');
    assert forall|k: int| 0 <= k < n implies all[k] != '\n' by {
        assert(line.contains(line[k]));
    }
    assert(line_end(all) == n) by {
        if n < line_end(all) {
            assert(all[n] != '\n');
        }
    }
    assert(all.skip(n + 1) =~= rest);
    if line_end(line) < n {
        assert(line.contains(line[line_end(line)]));
    }
}

/// There is one kind for each line.
proof fn lemma_kind_of_each_line(text: Seq<char>, kinds: Seq<LineKind>)
    ensures
        line_kinds(text, kinds).len() == lines_of(text).len(),
    decreases text.len(),
{
    let n = line_end(text);
    lemma_line_end(text);
    if n < text.len() {
        lemma_kind_of_each_line(text.skip(n + 1), kinds.skip(n + 1));
    }
}

/// What follows whole lines has the kinds that it would have by itself.
proof fn lemma_kinds_of_parts(
    whole: Seq<char>,
    rest: Seq<char>,
    kinds: Seq<LineKind>,
    more: Seq<LineKind>,
)
    requires
        ends_a_line(whole),
        kinds.len() == whole.len(),
    ensures
        line_kinds(whole + rest, kinds + more) == line_kinds(whole, kinds) + line_kinds(rest, more),
    decreases whole.len(),
{
    if whole.len() == 0 {
        assert(whole + rest =~= rest);
        assert(kinds + more =~= more);
        assert(line_kinds(whole, kinds) + line_kinds(rest, more) =~= line_kinds(rest, more));
    } else {
        let n = line_end(whole);
        lemma_line_end(whole);
        if n == whole.len() {
            assert(whole[n - 1] != '\n');
        }
        let first = whole.take(n);
        let below = whole.skip(n + 1);
        assert(!first.contains('\n'));
        assert(whole =~= first.push('\n') + below);
        assert(whole + rest =~= first.push('\n') + (below + rest));
        assert((kinds + more).skip(n + 1) =~= kinds.skip(n + 1) + more);
        if below.len() > 0 {
            assert(below.last() == whole.last());
        }
        lemma_kinds_of_parts(below, rest, kinds.skip(n + 1), more);
        lemma_first_kind(first, below, kinds);
        lemma_first_kind(first, below + rest, kinds + more);
        assert(line_kinds(whole + rest, kinds + more) =~= line_kinds(whole, kinds) + line_kinds(
            rest,
            more,
        ));
    }
}

/// A text as characters, each with its kind.
struct Marked {
    chars: Vec<char>,
    kinds: Vec<LineKind>,
}

/// Appends a text of one kind.
fn push_marked(marked: &mut Marked, text: &str, kind: LineKind)
    ensures
        final(marked).chars@ == old(marked).chars@ + text@,
        final(marked).kinds@ == old(marked).kinds@ + all_of_kind(text@, kind),
{
    let ghost before = *marked;
    assert(before.chars@ + text@.take(0) =~= before.chars@);
    assert(before.kinds@ + all_of_kind(text@.take(0), kind) =~= before.kinds@);
    for c in it: text.chars()
        invariant
            it.seq() == text@,
            marked.chars@ == before.chars@ + text@.take(it.index() as int),
            marked.kinds@ == before.kinds@ + all_of_kind(text@.take(it.index() as int), kind),
    {
        let ghost longer = text@.take(it.index() + 1);
        marked.chars.push(c);
        marked.kinds.push(kind);
        assert(marked.chars@ =~= before.chars@ + longer);
        assert(marked.kinds@ =~= before.kinds@ + all_of_kind(longer, kind));
    }
    assert(text@.take(text@.len() as int) =~= text@);
}

/// Writes down a commit whose date is `date`, each character with its kind.
fn mark_detail(detail: &CommitDetail, date: &Option<String>) -> (marked: Marked)
    ensures
        marked.chars@ == detail_text(*detail, option_view(*date)),
        marked.kinds@ == detail_kinds(*detail, option_view(*date)),
{
    let mut marked = Marked { chars: Vec::new(), kinds: Vec::new() };
    push_marked(&mut marked, write_head(detail, date).as_str(), LineKind::Head);
    push_marked(&mut marked, write_message(detail).as_str(), LineKind::Message);
    push_marked(&mut marked, write_stats(detail).as_str(), LineKind::Stats);
    let ghost header = marked;
    assert(header.chars@ =~= header_text(*detail, option_view(*date)));
    assert(header.kinds@ =~= header_kinds(*detail, option_view(*date)));
    assert(header.chars@ + lines_text(detail.lines@.take(0)) =~= header.chars@);
    assert(header.kinds@ + lines_kinds(detail.lines@.take(0)) =~= header.kinds@);
    for i in 0..detail.lines.len()
        invariant
            marked.chars@ == header.chars@ + lines_text(detail.lines@.take(i as int)),
            marked.kinds@ == header.kinds@ + lines_kinds(detail.lines@.take(i as int)),
    {
        let line = &detail.lines[i];
        push_marked(&mut marked, write_line(line).as_str(), line_kind(line.origin));
        assert(detail.lines@.take(i + 1).drop_last() =~= detail.lines@.take(i as int));
        assert(marked.chars@ =~= header.chars@ + lines_text(detail.lines@.take(i + 1)));
        assert(marked.kinds@ =~= header.kinds@ + lines_kinds(detail.lines@.take(i + 1)));
    }
    assert(detail.lines@.take(detail.lines@.len() as int) =~= detail.lines@);
    marked
}

/// A line and how it is highlighted.
pub struct TaggedLine {
    pub text: String,
    pub tag: Option<DiffTag>,
}

/// Whether `lines` are the lines of a text whose characters have the given kinds,
/// each highlighted by its kind.
spec fn are_lines_of(lines: Seq<TaggedLine>, text: Seq<char>, kinds: Seq<LineKind>) -> bool {
    let texts = lines_of(text);
    &&& lines.len() == texts.len()
    &&& lines.len() == line_kinds(text, kinds).len()
    &&& forall|i: int| 0 <= i < lines.len() ==> (#[trigger] lines[i]).text@ == texts[i]
    &&& forall|i: int|
        0 <= i < lines.len() ==> (#[trigger] lines[i]).tag == tag_of(
            line_kinds(text, kinds)[i],
            texts[i],
        )
}

/// The line that stands between two places of a text, highlighted.
fn tagged_line(marked: &Marked, from: usize, to: usize) -> (line: TaggedLine)
    requires
        from <= to <= marked.chars.len(),
        from < marked.kinds.len(),
    ensures
        line.text@ == marked.chars@.subrange(from as int, to as int),
        line.tag == tag_of(marked.kinds@[from as int], line.text@),
{
    let mut text = String::new();
    assert(text@ =~= marked.chars@.subrange(from as int, from as int));
    for i in from..to
        invariant
            from <= i <= to <= marked.chars.len(),
            text@ == marked.chars@.subrange(from as int, i as int),
    {
        text.push(marked.chars[i]);
        assert(text@ =~= marked.chars@.subrange(from as int, i + 1));
    }
    let tag = line_tag(marked.kinds[from], text.as_str());
    TaggedLine { text, tag }
}

/// Splits a text into lines and highlights each.
fn tagged_lines(marked: &Marked) -> (lines: Vec<TaggedLine>)
    requires
        marked.kinds.len() == marked.chars.len(),
    ensures
        are_lines_of(lines@, marked.chars@, marked.kinds@),
{
    let mut lines: Vec<TaggedLine> = Vec::new();
    // Where the current line starts.
    let mut start: usize = 0;
    let ghost text = marked.chars@;
    let ghost kinds = marked.kinds@;
    for i in 0..marked.chars.len()
        invariant
            text == marked.chars@,
            kinds == marked.kinds@,
            marked.kinds.len() == marked.chars.len(),
            start <= i,
            ends_a_line(text.take(start as int)),
            are_lines_of(lines@, text.take(start as int), kinds.take(start as int)),
            forall|k: int| start <= k < i ==> #[trigger] text[k] != '\n',
    {
        if marked.chars[i] == '\n' {
            let ends_with_return = i > start && marked.chars[i - 1] == '\r';
            let end: usize = if ends_with_return {
                i - 1
            } else {
                i
            };
            let ghost done = lines@;
            let line = tagged_line(marked, start, end);
            proof {
                let own = text.subrange(start as int, i as int);
                let own_kinds = kinds.subrange(start as int, i + 1);
                assert(!own.contains('\n'));
                assert(line.text@ =~= without_return(own));
                assert(own_kinds[0] == kinds[start as int]);
                lemma_next_line(
                    done,
                    text.take(start as int),
                    kinds.take(start as int),
                    own,
                    own_kinds,
                    line,
                );
                assert(text.take(i + 1) =~= text.take(start as int) + own.push('\n'));
                assert(kinds.take(i + 1) =~= kinds.take(start as int) + own_kinds);
            }
            lines.push(line);
            start = i + 1;
        }
    }
    if start < marked.chars.len() {
        let ghost done = lines@;
        let line = tagged_line(marked, start, marked.chars.len());
        proof {
            let own = text.skip(start as int);
            let own_kinds = kinds.skip(start as int);
            assert(!own.contains('\n'));
            assert(line.text@ =~= own);
            lemma_last_line(
                done,
                text.take(start as int),
                kinds.take(start as int),
                own,
                own_kinds,
                line,
            );
            assert(text =~= text.take(start as int) + own);
            assert(kinds =~= kinds.take(start as int) + own_kinds);
        }
        lines.push(line);
    } else {
        assert(text.take(start as int) =~= text);
        assert(kinds.take(start as int) =~= kinds);
    }
    lines
}

/// One more whole line.
proof fn lemma_next_line(
    done: Seq<TaggedLine>,
    whole: Seq<char>,
    kinds: Seq<LineKind>,
    own: Seq<char>,
    own_kinds: Seq<LineKind>,
    line: TaggedLine,
)
    requires
        ends_a_line(whole),
        kinds.len() == whole.len(),
        are_lines_of(done, whole, kinds),
        !own.contains('\n'),
        line.text@ == without_return(own),
        line.tag == tag_of(own_kinds[0], line.text@),
    ensures
        ends_a_line(whole + own.push('\n')),
        are_lines_of(done.push(line), whole + own.push('\n'), kinds + own_kinds),
{
    let none = Seq::<char>::empty();
    let more = own.push('\n');
    assert((whole + more).last() == '\n');
    assert(more + none =~= more);
    lemma_first_line(own, none);
    lemma_first_kind(own, none, own_kinds);
    law_lines_of_parts(whole, more);
    lemma_kinds_of_parts(whole, more, kinds, own_kinds);
    assert(lines_of(whole + more) =~= lines_of(whole).push(line.text@));
    assert(line_kinds(whole + more, kinds + own_kinds) =~= line_kinds(whole, kinds).push(
        own_kinds[0],
    ));
}

/// A last line without an ending.
proof fn lemma_last_line(
    done: Seq<TaggedLine>,
    whole: Seq<char>,
    kinds: Seq<LineKind>,
    own: Seq<char>,
    own_kinds: Seq<LineKind>,
    line: TaggedLine,
)
    requires
        ends_a_line(whole),
        kinds.len() == whole.len(),
        are_lines_of(done, whole, kinds),
        own.len() > 0,
        !own.contains('\n'),
        line.text@ == own,
        line.tag == tag_of(own_kinds[0], line.text@),
    ensures
        are_lines_of(done.push(line), whole + own, kinds + own_kinds),
{
    lemma_first_line(own, Seq::empty());
    lemma_first_kind(own, Seq::empty(), own_kinds);
    law_lines_of_parts(whole, own);
    lemma_kinds_of_parts(whole, own, kinds, own_kinds);
    assert(lines_of(whole + own) =~= lines_of(whole).push(line.text@));
    assert(line_kinds(whole + own, kinds + own_kinds) =~= line_kinds(whole, kinds).push(
        own_kinds[0],
    ));
}

/// What stands above line `k` of the diff in the text of a commit.
pub open spec fn text_above(detail: CommitDetail, date: Option<Seq<char>>, k: int) -> Seq<char> {
    header_text(detail, date) + lines_text(detail.lines@.take(k))
}

/// The number of the line that line `k` of the diff makes in the text of a commit,
/// where what stands above is made up of whole lines.
pub open spec fn line_number(detail: CommitDetail, date: Option<Seq<char>>, k: int) -> int {
    lines_of(text_above(detail, date, k)).len() as int
}

/// Whether `lines` are the lines of the text of a commit, highlighted.
pub open spec fn is_highlighted(
    lines: Seq<TaggedLine>,
    detail: CommitDetail,
    date: Option<Seq<char>>,
) -> bool {
    &&& lines.map_values(|l: TaggedLine| l.text@) == lines_of(detail_text(detail, date))
    &&& lines.map_values(|l: TaggedLine| l.tag) == detail_tags(detail, date)
}

/// The lines of the text of a commit whose date is `date`, highlighted by what
/// they are: a line of the diff that adds is highlighted as added and one that
/// deletes as deleted, whatever it says.
pub fn highlight_detail(detail: &CommitDetail, date: &Option<String>) -> (lines: Vec<TaggedLine>)
    ensures
        is_highlighted(lines@, *detail, option_view(*date)),
        forall|k: int|
            0 <= k < detail.lines.len() && (#[trigger] detail.lines@[k]).origin == '+'
                && ends_a_line(text_above(*detail, option_view(*date), k)) ==> {
                &&& line_number(*detail, option_view(*date), k) < lines.len()
                &&& lines@[line_number(*detail, option_view(*date), k)].tag == Some(DiffTag::Add)
            },
        forall|k: int|
            0 <= k < detail.lines.len() && (#[trigger] detail.lines@[k]).origin == '-'
                && ends_a_line(text_above(*detail, option_view(*date), k)) ==> {
                &&& line_number(*detail, option_view(*date), k) < lines.len()
                &&& lines@[line_number(*detail, option_view(*date), k)].tag == Some(DiffTag::Del)
            },
{
    let marked = mark_detail(detail, date);
    proof {
        lemma_lines_kinds(detail.lines@);
    }
    let lines = tagged_lines(&marked);
    proof {
        let d = option_view(*date);
        assert(lines@.map_values(|l: TaggedLine| l.text@) =~= lines_of(detail_text(*detail, d)));
        assert(lines@.map_values(|l: TaggedLine| l.tag) =~= detail_tags(*detail, d));
        assert forall|k: int|
            0 <= k < detail.lines.len() && ends_a_line(text_above(*detail, d, k)) && (
            (#[trigger] detail.lines@[k]).origin == '+' || detail.lines@[k].origin == '-') implies {
            &&& line_number(*detail, d, k) < lines.len()
            &&& lines@[line_number(*detail, d, k)].tag == Some(
                if detail.lines@[k].origin == '+' {
                    DiffTag::Add
                } else {
                    DiffTag::Del
                },
            )
        } by {
            let at = line_number(*detail, d, k);
            law_line_of_diff(*detail, d, k);
            assert(lines@.map_values(|l: TaggedLine| l.tag)[at] == lines@[at].tag);
        }
    }
    lines
}

/// The lines that are shown for a commit, highlighted; none where the commit and
/// its changes could not be read.
pub fn highlight(detail: &Option<CommitDetail>) -> (lines: Vec<TaggedLine>)
    ensures
        match *detail {
            Some(d) => is_highlighted(lines@, d, detail_date(d.time)),
            None => lines.len() == 0,
        },
{
    match detail {
        Some(d) => highlight_detail(d, &date_to_the_second(d.time)),
        None => Vec::new(),
    }
}

/// The first character of a text with a given start.
proof fn lemma_start(line: Seq<char>, pattern: Seq<char>)
    requires
        starts_with_text(line, pattern),
        pattern.len() > 0,
    ensures
        line.len() > 0,
        line[0] == pattern[0],
{
    assert(line.subrange(0, pattern.len() as int)[0] == line[0]);
}

/// Among the headers of a diff, a line with the start of a hunk is highlighted as
/// a hunk, one with the start of a diff as metadata, and the two header lines of a
/// file as files.
pub proof fn law_diff_headers(line: Seq<char>)
    ensures
        starts_with_text(line, "@@"@) ==> tag_of(LineKind::Other, line) == Some(DiffTag::Hunk),
        starts_with_text(line, "diff "@) || starts_with_text(line, "index "@) ==> tag_of(
            LineKind::Other,
            line,
        ) == Some(DiffTag::Meta),
        starts_with_text(line, "--- "@) || starts_with_text(line, "+++ "@) ==> tag_of(
            LineKind::Other,
            line,
        ) == Some(DiffTag::File),
{
    reveal_strlit("@@");
    reveal_strlit("diff ");
    reveal_strlit("index ");
    reveal_strlit("--- ");
    reveal_strlit("+++ ");
    if starts_with_text(line, "@@"@) {
        lemma_start(line, "@@"@);
    }
    if starts_with_text(line, "diff "@) {
        lemma_start(line, "diff "@);
    }
    if starts_with_text(line, "index "@) {
        lemma_start(line, "index "@);
    }
    if starts_with_text(line, "--- "@) {
        lemma_start(line, "--- "@);
    }
    if starts_with_text(line, "+++ "@) {
        lemma_start(line, "+++ "@);
    }
}

/// The text of a commit starts with a line that names the commit in full, and
/// the line is highlighted as metadata.
pub proof fn law_first_line_names_the_commit(detail: CommitDetail, date: Option<Seq<char>>)
    ensures
        lines_of(detail_text(detail, date)).len() > 0,
        lines_of(detail_text(detail, date))[0] == "commit "@ + hex_text(detail.oid.bytes@),
        detail_tags(detail, date)[0] == Some(DiffTag::Meta),
{
    let text = detail_text(detail, date);
    let hex = hex_text(detail.oid.bytes@);
    let line = "commit "@ + hex;
    reveal_strlit("commit ");
    reveal_strlit("\n");
    assert forall|k: int| 0 <= k < line.len() implies line[k] != '\n' && line[k] != '\r' by {
        if k >= 7 {
            assert(line[k] == hex[k - 7]);
        }
    }
    let rest = text.skip(line.len() as int + 1);
    assert("\n"@ =~= seq!['\n']);
    assert(text =~= line.push('\n') + rest) by {
        assert(text.take(line.len() as int + 1) =~= line.push('\n'));
    }
    lemma_first_line(line, rest);
    assert(without_return(line) == line);
    assert(lines_of(text)[0] == line);
    lemma_first_kind(line, rest, detail_kinds(detail, date));
    assert(detail_kinds(detail, date)[0] == LineKind::Head);
}

/// The parts of the header of a commit's text are made up of whole lines.
proof fn lemma_header_ends_lines(detail: CommitDetail, date: Option<Seq<char>>)
    ensures
        ends_a_line(head_text(detail, date)),
        ends_a_line(head_text(detail, date) + message_text(detail)),
        ends_a_line(header_text(detail, date)),
{
    let above = head_text(detail, date) + message_text(detail);
    reveal_strlit("\n");
    reveal_strlit("\n\n");
    assert(head_text(detail, date).last() == '\n');
    assert(message_text(detail).last() == '\n');
    assert(above.last() == message_text(detail).last());
    match detail.stats {
        Some(s) => {
            assert(stats_text(detail).last() == '\n');
            assert(header_text(detail, date).last() == stats_text(detail).last());
        },
        None => {
            assert(header_text(detail, date) =~= above);
        },
    }
}

/// All lines of a text of one kind have that kind.
proof fn lemma_lines_of_kind(text: Seq<char>, kind: LineKind)
    ensures
        line_kinds(text, all_of_kind(text, kind)) == Seq::new(lines_of(text).len(), |k: int| kind),
    decreases text.len(),
{
    let n = line_end(text);
    let kinds = all_of_kind(text, kind);
    lemma_line_end(text);
    if n < text.len() {
        lemma_lines_of_kind(text.skip(n + 1), kind);
        assert(kinds.skip(n + 1) =~= all_of_kind(text.skip(n + 1), kind));
    }
    assert(line_kinds(text, kinds) =~= Seq::new(lines_of(text).len(), |k: int| kind));
}

/// The lines above the changes: those that name the commit, its author and its
/// date are highlighted as metadata. Those of the message and of the statistics
/// are highlighted as statistics where they look like these, and not at all
/// otherwise: no line of a message is highlighted as added or deleted.
pub proof fn law_header_lines(detail: CommitDetail, date: Option<Seq<char>>, i: int)
    requires
        0 <= i < lines_of(header_text(detail, date)).len(),
    ensures
        ({
            let heads = lines_of(head_text(detail, date)).len();
            let line = lines_of(detail_text(detail, date))[i];
            let tag = detail_tags(detail, date)[i];
            &&& line == lines_of(header_text(detail, date))[i]
            &&& i < heads ==> tag == Some(DiffTag::Meta)
            &&& i >= heads ==> tag == (if is_stat_line(line) {
                Some(DiffTag::Stat)
            } else {
                None
            })
        }),
{
    let head = head_text(detail, date);
    let message = message_text(detail);
    let stats = stats_text(detail);
    let header = header_text(detail, date);
    let below = lines_text(detail.lines@);
    let head_kinds = all_of_kind(head, LineKind::Head);
    let message_kinds = all_of_kind(message, LineKind::Message);
    let stats_kinds = all_of_kind(stats, LineKind::Stats);
    lemma_header_ends_lines(detail, date);
    lemma_lines_of_kind(head, LineKind::Head);
    lemma_lines_of_kind(message, LineKind::Message);
    lemma_lines_of_kind(stats, LineKind::Stats);
    law_lines_of_parts(header, below);
    lemma_kinds_of_parts(head, message, head_kinds, message_kinds);
    lemma_kinds_of_parts(head + message, stats, head_kinds + message_kinds, stats_kinds);
    lemma_kinds_of_parts(
        header,
        below,
        header_kinds(detail, date),
        lines_kinds(detail.lines@),
    );
    lemma_kind_of_each_line(header, header_kinds(detail, date));
}

/// The text of a diff is what stands above line `k`, the line, and what follows.
proof fn lemma_split_at_line(lines: Seq<DiffLine>, k: int)
    requires
        0 <= k < lines.len(),
    ensures
        lines_text(lines) == lines_text(lines.take(k)) + line_text(lines[k]) + lines_text(
            lines.skip(k + 1),
        ),
        lines_kinds(lines) == lines_kinds(lines.take(k)) + all_of_kind(
            line_text(lines[k]),
            kind_of(lines[k].origin),
        ) + lines_kinds(lines.skip(k + 1)),
    decreases lines.len(),
{
    let less = lines.drop_last();
    let own = line_text(lines[k]);
    let own_kinds = all_of_kind(own, kind_of(lines[k].origin));
    if k == lines.len() - 1 {
        assert(lines.take(k) =~= less);
        assert(lines_text(lines.skip(k + 1)) == Seq::<char>::empty());
        assert(lines_kinds(lines.skip(k + 1)) == Seq::<LineKind>::empty());
        assert(lines_text(lines) + Seq::<char>::empty() =~= lines_text(lines));
        assert(lines_kinds(lines) + Seq::<LineKind>::empty() =~= lines_kinds(lines));
    } else {
        let last = lines.last();
        let last_kinds = all_of_kind(line_text(last), kind_of(last.origin));
        lemma_split_at_line(less, k);
        assert(less.take(k) =~= lines.take(k));
        assert(lines.skip(k + 1).drop_last() =~= less.skip(k + 1));
        assert(lines.skip(k + 1).last() == last);
        assert(lines_text(lines.take(k)) + own + lines_text(less.skip(k + 1)) + line_text(last)
            =~= lines_text(lines.take(k)) + own + lines_text(lines.skip(k + 1)));
        assert(lines_kinds(lines.take(k)) + own_kinds + lines_kinds(less.skip(k + 1)) + last_kinds
            =~= lines_kinds(lines.take(k)) + own_kinds + lines_kinds(lines.skip(k + 1)));
    }
}

/// A line of the diff makes a line of its own where what stands above is made up
/// of whole lines, and is highlighted by what it is: as added or deleted whatever
/// it says. Where its text has one newline, at its end, the line is shown as it is.
pub proof fn law_line_of_diff(detail: CommitDetail, date: Option<Seq<char>>, k: int)
    requires
        0 <= k < detail.lines.len(),
        line_text(detail.lines@[k]).len() > 0,
        ends_a_line(text_above(detail, date, k)),
    ensures
        ({
            let line = line_text(detail.lines@[k]);
            let origin = detail.lines@[k].origin;
            let shown = lines_of(detail_text(detail, date));
            let at = line_number(detail, date, k);
            let tag = detail_tags(detail, date)[at];
            &&& at < shown.len()
            &&& tag == tag_of(kind_of(origin), shown[at])
            &&& origin == '+' ==> tag == Some(DiffTag::Add)
            &&& origin == '-' ==> tag == Some(DiffTag::Del)
            &&& line.last() == '\n' && !line.drop_last().contains('\n') ==> shown[at]
                == without_return(line.drop_last())
        }),
{
    let lines = detail.lines@;
    let line = line_text(lines[k]);
    let line_kinds_own = all_of_kind(line, kind_of(lines[k].origin));
    let text = text_above(detail, date, k);
    let kinds = header_kinds(detail, date) + lines_kinds(lines.take(k));
    let below = lines_text(lines.skip(k + 1));
    let rest_kinds = line_kinds_own + lines_kinds(lines.skip(k + 1));
    let at = line_number(detail, date, k);
    lemma_split_at_line(lines, k);
    lemma_lines_kinds(lines.take(k));
    assert(detail_text(detail, date) =~= text + (line + below));
    assert(detail_kinds(detail, date) =~= kinds + rest_kinds);
    law_lines_of_parts(text, line + below);
    lemma_kinds_of_parts(text, line + below, kinds, rest_kinds);
    lemma_kind_of_each_line(text, kinds);
    assert(rest_kinds[0] == kind_of(lines[k].origin));
    assert(lines_of(line + below).len() > 0);
    assert(line_kinds(line + below, rest_kinds)[0] == rest_kinds[0]);
    if line.last() == '\n' && !line.drop_last().contains('\n') {
        assert(line =~= line.drop_last().push('\n'));
        lemma_first_line(line.drop_last(), below);
        assert(lines_of(detail_text(detail, date))[at] == lines_of(line + below)[0]);
    }
}

/// Where all lines of the diff above line `k` end with a newline, what stands
/// above it is made up of whole lines.
pub proof fn law_whole_lines_above(detail: CommitDetail, date: Option<Seq<char>>, k: int)
    requires
        0 <= k <= detail.lines.len(),
        forall|i: int| 0 <= i < k ==> ends_a_line(line_text(#[trigger] detail.lines@[i])),
    ensures
        ends_a_line(text_above(detail, date, k)),
    decreases k,
{
    let header = header_text(detail, date);
    let above = detail.lines@.take(k);
    lemma_header_ends_lines(detail, date);
    if k == 0 {
        assert(lines_text(above) == Seq::<char>::empty());
        assert(text_above(detail, date, k) =~= header);
    } else {
        let last = line_text(detail.lines@[k - 1]);
        law_whole_lines_above(detail, date, k - 1);
        assert(above.drop_last() =~= detail.lines@.take(k - 1));
        assert(text_above(detail, date, k) =~= text_above(detail, date, k - 1) + last);
        if last.len() > 0 {
            assert(text_above(detail, date, k).last() == last.last());
        }
    }
}

/// Whether line `i` of the text of a commit starts within line `k` of the diff.
pub open spec fn starts_within(
    detail: CommitDetail,
    date: Option<Seq<char>>,
    i: int,
    k: int,
) -> bool {
    let text = detail_text(detail, date);
    let above = text_above(detail, date, k).len();
    exists|p: int|
        {
            &&& above <= p < above + line_text(detail.lines@[k]).len()
            &&& ends_a_line(#[trigger] text.take(p))
            &&& lines_of(text.take(p)).len() == i
        }
}

/// Only changes are highlighted as changes: a line that is highlighted as added
/// starts within a line of the diff that is added, and one that is highlighted as
/// deleted within one that is deleted.
pub proof fn law_only_changes_look_changed(detail: CommitDetail, date: Option<Seq<char>>, i: int)
    requires
        0 <= i < detail_tags(detail, date).len(),
    ensures
        detail_tags(detail, date)[i] == Some(DiffTag::Add) ==> exists|k: int|
            0 <= k < detail.lines.len() && (#[trigger] detail.lines@[k]).origin == '+'
                && starts_within(detail, date, i, k),
        detail_tags(detail, date)[i] == Some(DiffTag::Del) ==> exists|k: int|
            0 <= k < detail.lines.len() && (#[trigger] detail.lines@[k]).origin == '-'
                && starts_within(detail, date, i, k),
{
    let lines = detail.lines@;
    let text = detail_text(detail, date);
    let kinds = detail_kinds(detail, date);
    let header = header_kinds(detail, date);
    lemma_lines_kinds(lines);
    lemma_kind_of_each_line(text, kinds);
    let p = lemma_start_of_line(text, kinds, i);
    if p >= header.len() {
        let k = lemma_line_at(lines, p - header.len());
        assert(kinds[p] == lines_kinds(lines)[p - header.len()]);
        assert(starts_within(detail, date, i, k)) by {
            assert(text_above(detail, date, k).len() == header.len() + lines_text(
                lines.take(k),
            ).len());
            assert(ends_a_line(text.take(p)));
        }
        assert(kind_of(lines[k].origin) == kinds[p]);
    }
}

/// The kind of a line is that of the character that it starts with.
proof fn lemma_start_of_line(text: Seq<char>, kinds: Seq<LineKind>, i: int) -> (p: int)
    requires
        0 <= i < line_kinds(text, kinds).len(),
        kinds.len() == text.len(),
    ensures
        0 <= p < text.len(),
        kinds[p] == line_kinds(text, kinds)[i],
        ends_a_line(text.take(p)),
        lines_of(text.take(p)).len() == i,
    decreases text.len(),
{
    if i == 0 {
        assert(lines_of(text.take(0)).len() == 0);
        0
    } else {
        let n = line_end(text);
        let first = text.take(n);
        let rest = text.skip(n + 1);
        lemma_line_end(text);
        let q = lemma_start_of_line(rest, kinds.skip(n + 1), i - 1);
        let p = q + n + 1;
        assert(line_kinds(text, kinds)[i] == line_kinds(rest, kinds.skip(n + 1))[i - 1]);
        assert(text.take(p) =~= first.push('\n') + rest.take(q));
        assert(!first.contains('\n'));
        lemma_first_line(first, rest.take(q));
        if q > 0 {
            assert(text.take(p).last() == rest.take(q).last());
        }
        p
    }
}

/// The line that a character of a diff belongs to.
proof fn lemma_line_at(lines: Seq<DiffLine>, p: int) -> (k: int)
    requires
        0 <= p < lines_kinds(lines).len(),
    ensures
        0 <= k < lines.len(),
        lines_text(lines.take(k)).len() <= p < lines_text(lines.take(k)).len() + line_text(
            lines[k],
        ).len(),
        lines_kinds(lines)[p] == kind_of(lines[k].origin),
    decreases lines.len(),
{
    let less = lines.drop_last();
    lemma_lines_kinds(less);
    if p < lines_kinds(less).len() {
        let k = lemma_line_at(less, p);
        assert(less.take(k) =~= lines.take(k));
        assert(lines[k] == less[k]);
        k
    } else {
        assert(lines.take(lines.len() - 1) =~= less);
        lines.len() - 1
    }
}

/// A line of a diff is written down whole: its sign, where it is added, deleted or
/// context, and then all of its content, where that is text.
pub proof fn law_line_is_written_whole(line: DiffLine)
    ensures
        ({
            let text = line_text(line);
            let sign: int = if line.origin == '+' || line.origin == '-' || line.origin == ' ' {
                1
            } else {
                0
            };
            &&& sign == 1 ==> text.len() > 0 && text[0] == line.origin
            &&& valid_utf8(line.content@) ==> {
                &&& text.len() == sign + decode_utf8(line.content@).len()
                &&& text.skip(sign) == decode_utf8(line.content@)
            }
            &&& !valid_utf8(line.content@) ==> text.len() == sign
        }),
{
    let content = text_or_empty(line.content@);
    let prefix = line_prefix(line.origin);
    assert(line_text(line).skip(prefix.len() as int) =~= content);
}

/// What names a commit, its author and its date: three lines, the last one only
/// where there is a date.
pub proof fn law_head_of_the_text(detail: CommitDetail, date: Option<Seq<char>>)
    ensures
        date matches Some(d) ==> head_text(detail, date) == "commit "@ + hex_text(
            detail.oid.bytes@,
        ) + "\nAuthor: "@ + detail.author@ + "\nDate:   "@ + d + "\n"@,
        date is None ==> head_text(detail, date) == "commit "@ + hex_text(detail.oid.bytes@)
            + "\nAuthor: "@ + detail.author@ + "\n"@,
{
    reveal_strlit("\n");
    reveal_strlit("Author: ");
    reveal_strlit("Date:   ");
    reveal_strlit("\nAuthor: ");
    reveal_strlit("\nDate:   ");
    assert("\nAuthor: "@ =~= "\n"@ + "Author: "@);
    assert("\nDate:   "@ =~= "\n"@ + "Date:   "@);
    match date {
        Some(d) => {
            assert(head_text(detail, date) =~= "commit "@ + hex_text(detail.oid.bytes@)
                + "\nAuthor: "@ + detail.author@ + "\nDate:   "@ + d + "\n"@);
        },
        None => {
            assert(head_text(detail, date) =~= "commit "@ + hex_text(detail.oid.bytes@)
                + "\nAuthor: "@ + detail.author@ + "\n"@);
        },
    }
}

/// The message stands whole between an empty line with an indent and two newlines,
/// the statistics stand whole before a newline; a part that is no text is empty, and
/// statistics that are not known leave nothing.
pub proof fn law_message_and_statistics(detail: CommitDetail)
    ensures
        detail.message matches Some(m) ==> message_text(detail) == "\n    "@ + m@ + "\n\n"@,
        detail.message is None ==> message_text(detail) == "\n    \n\n"@,
        detail.stats matches Some(Some(s)) ==> stats_text(detail) == s@ + "\n"@,
        detail.stats == Some(None::<String>) ==> stats_text(detail) == "\n"@,
        detail.stats is None ==> stats_text(detail).len() == 0,
{
    reveal_strlit("\n");
    reveal_strlit("\n\n");
    reveal_strlit("\n    ");
    reveal_strlit("\n    \n\n");
    if detail.message is None {
        assert(message_text(detail) =~= "\n    \n\n"@);
    }
    if detail.stats == Some(None::<String>) {
        assert(stats_text(detail) =~= "\n"@);
    }
}

/// The text of a commit is what names it, its message, its statistics and the
/// parts that its lines make, one after the other and with nothing in between. What
/// stands above line `k` of the diff is the same without the line and what follows.
pub proof fn law_text_of_a_commit(detail: CommitDetail, date: Option<Seq<char>>) -> (parts: Seq<
    Seq<char>,
>)
    ensures
        parts.len() == detail.lines@.len(),
        forall|k: int|
            0 <= k < parts.len() ==> {
                let line = detail.lines@[k];
                #[trigger] parts[k] == (if line.origin == '+' || line.origin == '-' || line.origin
                    == ' ' {
                    seq![line.origin]
                } else {
                    Seq::empty()
                }) + (if valid_utf8(line.content@) {
                    decode_utf8(line.content@)
                } else {
                    Seq::empty()
                })
            },
        forall|k: int|
            0 <= k < parts.len() ==> #[trigger] parts[k] == line_text(detail.lines@[k]),
        forall|k: int|
            0 <= k <= parts.len() ==> #[trigger] text_above(detail, date, k) == head_text(
                detail,
                date,
            ) + message_text(detail) + stats_text(detail) + parts.take(k).flatten(),
        detail_text(detail, date) == head_text(detail, date) + message_text(detail) + stats_text(
            detail,
        ) + parts.flatten(),
{
    let lines = detail.lines@;
    let parts = Seq::new(lines.len(), |k: int| line_text(lines[k]));
    assert forall|k: int| 0 <= k <= parts.len() implies lines_text(lines.take(k))
        == #[trigger] parts.take(k).flatten() by {
        lemma_parts(lines, parts, k);
    }
    assert(lines.take(lines.len() as int) =~= lines);
    assert(parts.take(lines.len() as int) =~= parts);
    assert(lines_text(lines) == parts.flatten());
    parts
}

/// The text of the first lines of a diff is made up of their parts.
proof fn lemma_parts(lines: Seq<DiffLine>, parts: Seq<Seq<char>>, k: int)
    requires
        0 <= k <= lines.len(),
        parts.len() == lines.len(),
        forall|j: int| 0 <= j < lines.len() ==> #[trigger] parts[j] == line_text(lines[j]),
    ensures
        lines_text(lines.take(k)) == parts.take(k).flatten(),
    decreases k,
{
    let some = parts.take(k);
    some.lemma_flatten_and_flatten_alt_are_equivalent();
    if k > 0 {
        lemma_parts(lines, parts, k - 1);
        assert(lines.take(k).drop_last() =~= lines.take(k - 1));
        assert(some.drop_last() =~= parts.take(k - 1));
        some.drop_last().lemma_flatten_and_flatten_alt_are_equivalent();
        assert(some.last() == line_text(lines[k - 1]));
        assert(lines.take(k).last() == lines[k - 1]);
    }
}

/// A commit is shown with its date to the second, where its time has a date.
pub proof fn law_date_of_a_commit(time: i64)
    ensures
        has_date(time) ==> detail_date(time) == Some(utc_text(time, "%Y-%m-%d %H:%M:%S"@)),
        !has_date(time) ==> detail_date(time) is None,
{
}

/// A line looks like statistics where it holds a bar with spaces around it, and a
/// plus or minus sign after a space, or `Bin` at its end.
pub proof fn law_look_of_statistics(line: Seq<char>)
    ensures
        is_stat_line(line) <==> {
            &&& exists|before: Seq<char>, after: Seq<char>|
                line == #[trigger] (before + " | "@ + after)
            &&& {
                ||| exists|before: Seq<char>, after: Seq<char>|
                    line == #[trigger] (before + " +"@ + after)
                ||| exists|before: Seq<char>, after: Seq<char>|
                    line == #[trigger] (before + " -"@ + after)
                ||| "Bin"@.is_suffix_of(line)
            }
        },
{
    law_containing(line, " | "@);
    law_containing(line, " +"@);
    law_containing(line, " -"@);
    law_start_and_end(line, "Bin"@);
}

/// Which lines have which highlighting, by their kind and by what they say.
pub proof fn law_tags_of_kinds(kind: LineKind, line: Seq<char>)
    ensures
        ({
            let tag = tag_of(kind, line);
            let hunk = "@@"@.is_prefix_of(line);
            let meta = "diff "@.is_prefix_of(line) || "index "@.is_prefix_of(line);
            let file = "--- "@.is_prefix_of(line) || "+++ "@.is_prefix_of(line);
            let other = kind == LineKind::Other;
            let plain = kind == LineKind::Message || kind == LineKind::Stats || kind
                == LineKind::Context || other && !hunk && !meta && !file;
            &&& tag == Some(DiffTag::Add) <==> kind == LineKind::Added
            &&& tag == Some(DiffTag::Del) <==> kind == LineKind::Deleted
            &&& tag == Some(DiffTag::Hunk) <==> other && hunk
            &&& tag == Some(DiffTag::Meta) <==> kind == LineKind::Head || other && meta
            &&& tag == Some(DiffTag::File) <==> other && file
            &&& tag == Some(DiffTag::Stat) <==> plain && is_stat_line(line)
            &&& tag is None <==> plain && !is_stat_line(line)
        }),
{
    law_start_and_end(line, "@@"@);
    law_start_and_end(line, "diff "@);
    law_start_and_end(line, "index "@);
    law_start_and_end(line, "--- "@);
    law_start_and_end(line, "+++ "@);
    law_diff_headers(line);
}

/// How line `i` of the text of a commit is highlighted, which starts at place `p`
/// of the text: as metadata where that is in what names the commit; as statistics,
/// or not at all, by its look, where that is in the message or the statistics. Where
/// it is in line `k` of the diff, it is highlighted as added or deleted by the origin
/// of that line; by its look as statistics or not at all in a context line; and in
/// any other line as a hunk, as metadata or as a file by its start, and otherwise by
/// its look.
pub proof fn law_tag_of_each_line(detail: CommitDetail, date: Option<Seq<char>>, i: int) -> (p: int)
    requires
        0 <= i < lines_of(detail_text(detail, date)).len(),
    ensures
        detail_tags(detail, date).len() == lines_of(detail_text(detail, date)).len(),
        0 <= p < detail_text(detail, date).len(),
        p == 0 || detail_text(detail, date)[p - 1] == '\n',
        lines_of(detail_text(detail, date).take(p)).len() == i,
        p < head_text(detail, date).len() ==> detail_tags(detail, date)[i] == Some(DiffTag::Meta),
        head_text(detail, date).len() <= p < text_above(detail, date, 0).len() ==> detail_tags(
            detail,
            date,
        )[i] == (if is_stat_line(lines_of(detail_text(detail, date))[i]) {
            Some(DiffTag::Stat)
        } else {
            None
        }),
        forall|k: int|
            {
                &&& 0 <= k < detail.lines@.len()
                &&& text_above(detail, date, k).len() <= p
                &&& p < text_above(detail, date, k).len() + line_text(
                    #[trigger] detail.lines@[k],
                ).len()
            } ==> {
                let line = lines_of(detail_text(detail, date))[i];
                let tag = detail_tags(detail, date)[i];
                let origin = detail.lines@[k].origin;
                let by_look = if is_stat_line(line) {
                    Some(DiffTag::Stat)
                } else {
                    None
                };
                &&& origin == '+' ==> tag == Some(DiffTag::Add)
                &&& origin == '-' ==> tag == Some(DiffTag::Del)
                &&& origin == ' ' ==> tag == by_look
                &&& origin != '+' && origin != '-' && origin != ' ' ==> {
                    &&& "@@"@.is_prefix_of(line) ==> tag == Some(DiffTag::Hunk)
                    &&& "diff "@.is_prefix_of(line) ==> tag == Some(DiffTag::Meta)
                    &&& "index "@.is_prefix_of(line) ==> tag == Some(DiffTag::Meta)
                    &&& "--- "@.is_prefix_of(line) ==> tag == Some(DiffTag::File)
                    &&& "+++ "@.is_prefix_of(line) ==> tag == Some(DiffTag::File)
                    &&& !"@@"@.is_prefix_of(line) && !"diff "@.is_prefix_of(line)
                        && !"index "@.is_prefix_of(line) && !"--- "@.is_prefix_of(line)
                        && !"+++ "@.is_prefix_of(line) ==> tag == by_look
                }
            },
{
    let lines = detail.lines@;
    let text = detail_text(detail, date);
    let kinds = detail_kinds(detail, date);
    let header = header_kinds(detail, date);
    let line = lines_of(text)[i];
    lemma_lines_kinds(lines);
    lemma_kind_of_each_line(text, kinds);
    let p = lemma_start_of_line(text, kinds, i);
    assert(ends_a_line(text.take(p)));
    assert(p == 0 || text.take(p).last() == text[p - 1]);
    assert(detail_tags(detail, date)[i] == tag_of(kinds[p], line));
    law_tags_of_kinds(kinds[p], line);
    assert(lines.take(0) =~= Seq::<DiffLine>::empty());
    assert(text_above(detail, date, 0) =~= header_text(detail, date));
    assert forall|k: int|
        {
            &&& 0 <= k < lines.len()
            &&& text_above(detail, date, k).len() <= p
            &&& p < text_above(detail, date, k).len() + line_text(#[trigger] lines[k]).len()
        } implies kinds[p] == kind_of(lines[k].origin) by {
        lemma_split_at_line(lines, k);
        lemma_lines_kinds(lines.take(k));
        assert(kinds[p] == lines_kinds(lines)[p - header.len()]);
    }
    p
}

/// A line is highlighted as a hunk only where it starts with two at signs, and as a
/// file only where it starts with three signs and a space.
pub proof fn law_hunks_and_files(detail: CommitDetail, date: Option<Seq<char>>, i: int)
    requires
        0 <= i < detail_tags(detail, date).len(),
    ensures
        detail_tags(detail, date)[i] == Some(DiffTag::Hunk) ==> "@@"@.is_prefix_of(
            lines_of(detail_text(detail, date))[i],
        ),
        detail_tags(detail, date)[i] == Some(DiffTag::File) ==> "--- "@.is_prefix_of(
            lines_of(detail_text(detail, date))[i],
        ) || "+++ "@.is_prefix_of(lines_of(detail_text(detail, date))[i]),
        detail_tags(detail, date)[i] == Some(DiffTag::Stat) ==> is_stat_line(
            lines_of(detail_text(detail, date))[i],
        ),
{
    let text = detail_text(detail, date);
    let kinds = line_kinds(text, detail_kinds(detail, date));
    law_tags_of_kinds(kinds[i], lines_of(text)[i]);
}

/// A context line that makes a line of its own is highlighted as statistics where
/// it looks like these, and not at all otherwise.
pub proof fn law_context_line(detail: CommitDetail, date: Option<Seq<char>>, k: int)
    requires
        0 <= k < detail.lines.len(),
        detail.lines@[k].origin == ' ',
        ends_a_line(text_above(detail, date, k)),
    ensures
        ({
            let at = line_number(detail, date, k);
            let line = lines_of(detail_text(detail, date))[at];
            &&& at < lines_of(detail_text(detail, date)).len()
            &&& detail_tags(detail, date)[at] == (if is_stat_line(line) {
                Some(DiffTag::Stat)
            } else {
                None
            })
        }),
{
    law_line_of_diff(detail, date, k);
    law_tags_of_kinds(
        LineKind::Context,
        lines_of(detail_text(detail, date))[line_number(detail, date, k)],
    );
}

/// The highlighted lines of a commit are all the lines of its text, in their order,
/// each with its highlighting.
pub proof fn law_highlighted_lines(
    lines: Seq<TaggedLine>,
    detail: CommitDetail,
    date: Option<Seq<char>>,
)
    requires
        is_highlighted(lines, detail, date),
    ensures
        lines.len() == lines_of(detail_text(detail, date)).len(),
        forall|i: int|
            0 <= i < lines.len() ==> {
                &&& (#[trigger] lines[i]).text@ == lines_of(detail_text(detail, date))[i]
                &&& lines[i].tag == detail_tags(detail, date)[i]
            },
{
    let texts = lines.map_values(|l: TaggedLine| l.text@);
    let tags = lines.map_values(|l: TaggedLine| l.tag);
    assert(texts.len() == lines.len());
    assert forall|i: int| 0 <= i < lines.len() implies {
        &&& (#[trigger] lines[i]).text@ == lines_of(detail_text(detail, date))[i]
        &&& lines[i].tag == detail_tags(detail, date)[i]
    } by {
        assert(texts[i] == lines[i].text@);
        assert(tags[i] == lines[i].tag);
    }
}

} // verus!
