//! Text: searching it, splitting it into lines, decoding it.

use vstd::prelude::*;
use vstd::utf8::{decode_utf8, valid_utf8};

verus! {

/// `String::push` appends one character.
pub assume_specification[ String::push ](s: &mut String, c: char)
    ensures
        final(s)@ == old(s)@.push(c),
;

/// The characters of a string.
pub fn chars_of(s: &str) -> (chars: Vec<char>)
    ensures
        chars@ == s@,
{
    let mut chars: Vec<char> = Vec::new();
    for c in it: s.chars()
        invariant
            chars@ == s@.take(it.index() as int),
            it.seq() == s@,
    {
        chars.push(c);
        assert(chars@ =~= s@.take(it.index() + 1));
    }
    assert(chars@ =~= s@);
    chars
}

/// Whether `pattern` stands in `s` from place `at` on.
pub open spec fn occurs_at(s: Seq<char>, pattern: Seq<char>, at: int) -> bool {
    &&& 0 <= at
    &&& at + pattern.len() <= s.len()
    &&& s.subrange(at, at + pattern.len()) == pattern
}

/// Whether `s` starts with `pattern`.
pub open spec fn starts_with_text(s: Seq<char>, pattern: Seq<char>) -> bool {
    occurs_at(s, pattern, 0)
}

/// Whether `s` ends with `pattern`.
pub open spec fn ends_with_text(s: Seq<char>, pattern: Seq<char>) -> bool {
    occurs_at(s, pattern, s.len() - pattern.len())
}

/// Whether `pattern` stands anywhere in `s`.
pub open spec fn contains_text(s: Seq<char>, pattern: Seq<char>) -> bool {
    exists|at: int| occurs_at(s, pattern, at)
}

/// Whether `pattern` stands in `s` from place `at` on.
pub fn matches_at(s: &Vec<char>, pattern: &str, at: usize) -> (r: bool)
    requires
        at <= s.len(),
    ensures
        r == occurs_at(s@, pattern@, at as int),
{
    let mut next: usize = at;
    for c in it: pattern.chars()
        invariant
            it.seq() == pattern@,
            at <= s.len(),
            next == at + it.index(),
            next <= s.len(),
            s@.subrange(at as int, next as int) == pattern@.take(it.index() as int),
    {
        let ghost i = it.index() as int;
        if next >= s.len() || s[next] != c {
            proof {
                if occurs_at(s@, pattern@, at as int) {
                    assert(s@.subrange(at as int, at + pattern@.len())[i] == pattern@[i]);
                }
            }
            return false;
        }
        next += 1;
        assert(s@.subrange(at as int, next as int) =~= pattern@.take(i + 1));
    }
    assert(pattern@.take(pattern@.len() as int) =~= pattern@);
    true
}

/// Whether `s` starts with `pattern`.
pub fn starts_with(s: &Vec<char>, pattern: &str) -> (r: bool)
    ensures
        r == starts_with_text(s@, pattern@),
{
    matches_at(s, pattern, 0)
}

/// Whether `pattern` stands anywhere in `s`.
pub fn contains(s: &Vec<char>, pattern: &str) -> (r: bool)
    ensures
        r == contains_text(s@, pattern@),
{
    let mut at: usize = 0;
    while at < s.len()
        invariant
            at <= s.len(),
            forall|k: int| 0 <= k < at ==> !#[trigger] occurs_at(s@, pattern@, k),
        decreases s.len() - at,
    {
        if matches_at(s, pattern, at) {
            return true;
        }
        at += 1;
    }
    matches_at(s, pattern, at)
}

/// Whether `s` ends with `pattern`.
pub fn ends_with(s: &Vec<char>, pattern: &str) -> (r: bool)
    ensures
        r == ends_with_text(s@, pattern@),
{
    let count: usize = chars_of(pattern).len();
    count <= s.len() && matches_at(s, pattern, s.len() - count)
}

/// Whether `s` and `other` are the same text.
pub fn same_text(s: &str, other: &str) -> (r: bool)
    ensures
        r == (s@ == other@),
{
    let chars = chars_of(s);
    let count: usize = chars_of(other).len();
    let same: bool = chars.len() == count && matches_at(&chars, other, 0);
    assert(chars@.subrange(0, chars@.len() as int) =~= chars@);
    same
}

/// Where the first line of `text` ends: the place of its first newline, or the
/// end of the text.
pub open spec fn line_end(text: Seq<char>) -> int
    decreases text.len(),
{
    if text.len() == 0 || text[0] == '\n' {
        0
    } else {
        1 + line_end(text.skip(1))
    }
}

/// A line without the carriage return that belongs to its line ending.
pub open spec fn without_return(line: Seq<char>) -> Seq<char> {
    if line.len() > 0 && line.last() == '\r' {
        line.drop_last()
    } else {
        line
    }
}

/// What `line_end` says: no newline stands before it, and one stands there
/// unless the text ends first.
pub proof fn lemma_line_end(text: Seq<char>)
    ensures
        0 <= line_end(text) <= text.len(),
        forall|k: int| 0 <= k < line_end(text) ==> text[k] != '\n',
        line_end(text) < text.len() ==> text[line_end(text)] == '\n',
    decreases text.len(),
{
    if text.len() > 0 && text[0] != '\n' {
        let rest = text.skip(1);
        lemma_line_end(rest);
        assert forall|k: int| 0 <= k < line_end(text) implies text[k] != '\n' by {
            if k > 0 {
                assert(rest[k - 1] == text[k]);
            }
        }
        if line_end(text) < text.len() {
            assert(rest[line_end(text) - 1] == text[line_end(text)]);
        }
    }
}

/// The lines of a text. A line ends at a newline, or at a carriage return and a
/// newline, neither of which belongs to it; the last line needs no ending.
pub open spec fn lines_of(text: Seq<char>) -> Seq<Seq<char>>
    decreases text.len(),
{
    if text.len() == 0 {
        Seq::empty()
    } else if line_end(text) == text.len() {
        seq![text]
    } else {
        proof {
            lemma_line_end(text);
        }
        seq![without_return(text.take(line_end(text)))] + lines_of(text.skip(line_end(text) + 1))
    }
}

/// The first line of a text is what stands before the first newline.
pub(crate) proof fn lemma_first_line(line: Seq<char>, rest: Seq<char>)
    requires
        !line.contains('\n'),
    ensures
        lines_of(line.push('\n') + rest) == seq![without_return(line)] + lines_of(rest),
        line.len() > 0 ==> lines_of(line) == seq![line],
{
    let text = line.push('\n') + rest;
    lemma_line_end(text);
    lemma_line_end(line);
    let n = line.len() as int;
    assert(text[n] == '\n');
    assert forall|k: int| 0 <= k < n implies text[k] != '\n' by {
        assert(line.contains(line[k]));
    }
    assert(line_end(text) == n) by {
        if n < line_end(text) {
            assert(text[n] != '\n');
        }
    }
    assert(text.take(n) =~= line);
    assert(text.skip(n + 1) =~= rest);
    if line_end(line) < n {
        assert(line.contains(line[line_end(line)]));
    }
}

/// Whether a text is made up of whole lines.
pub open spec fn ends_a_line(text: Seq<char>) -> bool {
    text.len() == 0 || text.last() == '\n'
}

/// What follows whole lines is split as it would be by itself.
pub proof fn law_lines_of_parts(whole: Seq<char>, rest: Seq<char>)
    requires
        ends_a_line(whole),
    ensures
        lines_of(whole + rest) == lines_of(whole) + lines_of(rest),
    decreases whole.len(),
{
    if whole.len() == 0 {
        assert(whole + rest =~= rest);
        assert(lines_of(whole) + lines_of(rest) =~= lines_of(rest));
    } else {
        lemma_line_end(whole);
        let n = line_end(whole);
        if n == whole.len() {
            assert(whole[n - 1] != '\n');
        }
        let first = whole.take(n);
        let below = whole.skip(n + 1);
        assert(!first.contains('\n'));
        assert(whole =~= first.push('\n') + below);
        assert(whole + rest =~= first.push('\n') + (below + rest));
        if below.len() > 0 {
            assert(below.last() == whole.last());
        }
        law_lines_of_parts(below, rest);
        lemma_first_line(first, below);
        lemma_first_line(first, below + rest);
        assert(lines_of(whole + rest) =~= lines_of(whole) + lines_of(rest));
    }
}

/// No line holds a newline.
pub proof fn law_lines_hold_no_newline(text: Seq<char>, i: int)
    requires
        0 <= i < lines_of(text).len(),
    ensures
        !lines_of(text)[i].contains('\n'),
    decreases text.len(),
{
    let n = line_end(text);
    lemma_line_end(text);
    if n < text.len() && i > 0 {
        law_lines_hold_no_newline(text.skip(n + 1), i - 1);
        assert(lines_of(text)[i] == lines_of(text.skip(n + 1))[i - 1]);
    } else {
        let line = lines_of(text)[i];
        assert forall|k: int| 0 <= k < line.len() implies line[k] != '\n' by {
            assert(line[k] == text[k]);
        }
    }
}

/// The lines, each followed by a newline.
pub open spec fn terminated(lines: Seq<Seq<char>>) -> Seq<char>
    decreases lines.len(),
{
    if lines.len() == 0 {
        Seq::empty()
    } else {
        lines[0].push('\n') + terminated(lines.skip(1))
    }
}

/// A text with a newline at its end, unless it is empty or has one.
pub open spec fn newline_at_end(text: Seq<char>) -> Seq<char> {
    if text.len() == 0 || text.last() == '\n' {
        text
    } else {
        text.push('\n')
    }
}

/// A text without carriage returns in its line endings is its lines, each with
/// a newline after it.
pub proof fn law_lines_make_up_the_text(text: Seq<char>)
    requires
        forall|k: int| 0 <= k < text.len() - 1 && #[trigger] text[k] == '\r' ==> text[k + 1] != '\n',
    ensures
        terminated(lines_of(text)) == newline_at_end(text),
    decreases text.len(),
{
    let n = line_end(text);
    lemma_line_end(text);
    if text.len() == 0 {
    } else if n == text.len() {
        assert(seq![text].skip(1) =~= Seq::<Seq<char>>::empty());
        assert(terminated(Seq::<Seq<char>>::empty()) == Seq::<char>::empty());
        assert(terminated(seq![text]) =~= text.push('\n'));
    } else {
        let rest = text.skip(n + 1);
        let first = text.take(n);
        assert forall|k: int| 0 <= k < rest.len() - 1 && #[trigger] rest[k] == '\r' implies rest[k
            + 1] != '\n' by {
            assert(text[k + n + 1] == rest[k]);
            assert(text[k + n + 2] == rest[k + 1]);
        }
        law_lines_make_up_the_text(rest);
        assert(without_return(first) == first) by {
            if n > 0 && first.last() == '\r' {
                assert(text[n - 1] == '\r');
            }
        }
        let lines = lines_of(text);
        assert(lines =~= seq![first] + lines_of(rest));
        assert(lines[0] == first);
        assert(lines.skip(1) =~= lines_of(rest));
        assert(first.push('\n') + rest =~= text);
        if rest.len() > 0 {
            assert(rest.last() == text.last());
            assert(first.push('\n') + rest.push('\n') =~= text.push('\n'));
        }
    }
}

/// `std::str::from_utf8`: the text of the bytes where they are valid UTF-8,
/// and nothing where they are not.
#[verifier::external_body]
fn from_utf8(bytes: &[u8]) -> (r: Option<&str>)
    ensures
        match r {
            Some(text) => valid_utf8(bytes@) && text@ == decode_utf8(bytes@),
            None => !valid_utf8(bytes@),
        },
{
    std::str::from_utf8(bytes).ok()
}

/// The text of the bytes, or no text where they are not valid UTF-8.
pub open spec fn text_or_empty(bytes: Seq<u8>) -> Seq<char> {
    if valid_utf8(bytes) {
        decode_utf8(bytes)
    } else {
        Seq::empty()
    }
}

/// Decodes bytes; those that are not valid UTF-8 give no text.
pub fn decode_or_empty(bytes: &[u8]) -> (text: &str)
    ensures
        text@ == text_or_empty(bytes@),
{
    match from_utf8(bytes) {
        Some(text) => text,
        None => {
            proof {
                reveal_strlit("");
            }
            assert(""@ =~= Seq::<char>::empty());
            ""
        },
    }
}

/// A text starts with a pattern where the pattern is a prefix of it, and ends
/// with it where it is a suffix.
pub proof fn law_start_and_end(s: Seq<char>, pattern: Seq<char>)
    ensures
        starts_with_text(s, pattern) <==> pattern.is_prefix_of(s),
        ends_with_text(s, pattern) <==> pattern.is_suffix_of(s),
{
}

/// A text contains a pattern where it is something, the pattern and something.
pub proof fn law_containing(s: Seq<char>, pattern: Seq<char>)
    ensures
        contains_text(s, pattern) <==> exists|before: Seq<char>, after: Seq<char>|
            s == #[trigger] (before + pattern + after),
{
    if contains_text(s, pattern) {
        let at = choose|at: int| occurs_at(s, pattern, at);
        let before = s.take(at);
        let after = s.skip(at + pattern.len());
        assert(s =~= before + s.subrange(at, at + pattern.len()) + after);
        assert(s == before + pattern + after);
    }
    if exists|before: Seq<char>, after: Seq<char>| s == #[trigger] (before + pattern + after) {
        let (before, after) = choose|before: Seq<char>, after: Seq<char>|
            s == #[trigger] (before + pattern + after);
        let at = before.len() as int;
        assert(s.subrange(at, at + pattern.len()) =~= pattern);
        assert(occurs_at(s, pattern, at));
    }
}

/// How a text is split: nothing has no lines, a text without a newline is one
/// line, and what stands before a newline is a line, without a carriage return at
/// its end, followed by the lines of the rest.
pub proof fn law_how_lines_are_split(line: Seq<char>, rest: Seq<char>)
    requires
        !line.contains('\n'),
    ensures
        lines_of(Seq::empty()) == Seq::<Seq<char>>::empty(),
        line.len() > 0 ==> lines_of(line) == seq![line],
        line.len() == 0 || line.last() != '\r' ==> lines_of(line + seq!['\n'] + rest) == seq![line]
            + lines_of(rest),
        lines_of(line + seq!['\r', '\n'] + rest) == seq![line] + lines_of(rest),
{
    let longer = line.push('\r');
    assert(line + seq!['\n'] + rest =~= line.push('\n') + rest);
    assert(line + seq!['\r', '\n'] + rest =~= longer.push('\n') + rest);
    assert(!longer.contains('\n')) by {
        if longer.contains('\n') {
            let k = choose|k: int| 0 <= k < longer.len() && longer[k] == '\n';
            assert(line.contains(line[k]));
        }
    }
    assert(longer.drop_last() =~= line);
    lemma_first_line(line, rest);
    lemma_first_line(longer, rest);
}

/// Bytes that are UTF-8 give the text that they encode, others give no text.
pub proof fn law_decoding(bytes: Seq<u8>)
    ensures
        valid_utf8(bytes) ==> text_or_empty(bytes) == decode_utf8(bytes),
        !valid_utf8(bytes) ==> text_or_empty(bytes).len() == 0,
{
}

/// A pattern stands at a place of a text where its characters follow one another
/// there.
pub proof fn law_occurrence(s: Seq<char>, pattern: Seq<char>, at: int)
    ensures
        occurs_at(s, pattern, at) <==> 0 <= at && at + pattern.len() <= s.len() && forall|k: int|
            0 <= k < pattern.len() ==> s[at + k] == #[trigger] pattern[k],
{
    if occurs_at(s, pattern, at) {
        assert forall|k: int| 0 <= k < pattern.len() implies s[at + k] == #[trigger] pattern[k] by {
            assert(s.subrange(at, at + pattern.len())[k] == s[at + k]);
        }
    } else if 0 <= at && at + pattern.len() <= s.len() && forall|k: int|
        0 <= k < pattern.len() ==> s[at + k] == #[trigger] pattern[k] {
        assert(s.subrange(at, at + pattern.len()) =~= pattern);
    }
}

} // verus!
