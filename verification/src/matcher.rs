//! Line-by-line regex matching.

use crate::keys::bytes_equal;
use crate::sort::{
    bytes_are_ordered_at_their_first_difference, bytes_before, is_bytes_before,
    lemma_bytes_before_is_an_order, lemma_bytes_before_total, lemma_sorted_map, sorted,
    sorted_is_sorted, sorted_is_stable, sorted_keeps_the_items, stable_sort, Ordered, Ranked,
};
use crate::text::{lossy_text, text_from_bytes};
use regex::bytes::Regex;
use vstd::prelude::*;
use vstd::slice::slice_subrange;
use vstd::utf8::encode_utf8;

verus! {

#[verifier::external_type_specification]
#[verifier::external_body]
pub struct ExRegex(regex::bytes::Regex);

#[verifier::external_type_specification]
#[verifier::external_body]
pub struct ExRegexError(regex::Error);

/// The byte ranges of the successive non-overlapping matches of `re` in
/// `haystack`.
pub uninterp spec fn regex_spans(re: Regex, haystack: Seq<u8>) -> Seq<(usize, usize)>;

/// The byte ranges of the successive non-overlapping matches in `haystack` of
/// the regex that `pattern` compiles to.
pub uninterp spec fn pattern_spans(
    pattern: Seq<char>,
    ignore_case: bool,
    haystack: Seq<u8>,
) -> Seq<(usize, usize)>;

/// Compiling `pattern`, with this case flag, ends in a syntax error.
pub uninterp spec fn is_malformed(pattern: Seq<char>, ignore_case: bool) -> bool;

/// The pattern is made of ASCII letters, digits, underscores and spaces, which
/// stand for themselves.
pub open spec fn is_plain(pattern: Seq<char>) -> bool {
    forall|i: int|
        0 <= i < pattern.len() ==> {
            let c = #[trigger] pattern[i];
            'a' <= c <= 'z' || 'A' <= c <= 'Z' || '0' <= c <= '9' || c == '_' || c == ' '
        }
}

/// Plain patterns of up to so many characters are sure to compile.
pub const PLAIN_LIMIT: usize = 1024;

/// `regex::bytes::RegexBuilder`: compiles `pattern`, case-insensitively if so
/// asked. With an error comes whether it is a syntax error, which depends on the
/// pattern and the case flag alone; a plain pattern has none. The one other
/// error is that the compiled program is too big for the size limit. That is
/// counted in bytes of memory, so which patterns it hits is left open but for
/// plain ones of up to [`PLAIN_LIMIT`] characters. Such a pattern compiles: for
/// each character there are a few states of a few dozen bytes each, and the
/// limit is ten mebibytes.
///
/// The matches of the compiled regex depend on the pattern, the case flag and
/// the haystack alone.
#[verifier::external_body]
pub(crate) fn compile_pattern(pattern: &str, ignore_case: bool) -> (compiled: Result<
    Regex,
    (regex::Error, bool),
>)
    ensures
        match compiled {
            Ok(_) => !is_malformed(pattern@, ignore_case),
            Err((_, malformed)) => malformed == is_malformed(pattern@, ignore_case),
        },
        compiled matches Err((_, malformed)) ==> is_plain(pattern@) ==> !malformed,
        is_plain(pattern@) && pattern@.len() <= PLAIN_LIMIT ==> compiled is Ok,
        compiled matches Ok(re) ==> forall|haystack: Seq<u8>| #[trigger]
            regex_spans(re, haystack) == pattern_spans(pattern@, ignore_case, haystack),
{
    match regex::bytes::RegexBuilder::new(pattern).case_insensitive(ignore_case).build() {
        Ok(re) => Ok(re),
        Err(error) => {
            let malformed: bool = matches!(error, regex::Error::Syntax(_));
            Err((error, malformed))
        },
    }
}

/// `Regex::find_iter`, with the start and end of each match it yields. They
/// lie within the haystack.
#[verifier::external_body]
fn find_spans(re: &Regex, haystack: &[u8]) -> (spans: Vec<(usize, usize)>)
    ensures
        spans@ == regex_spans(*re, haystack@),
        forall|k: int|
            0 <= k < spans@.len() ==> (#[trigger] spans@[k]).0 <= spans@[k].1
                && spans@[k].1 <= haystack@.len(),
{
    re.find_iter(haystack).map(|m| (m.start(), m.end())).collect()
}

/// `Regex::is_match`: whether there is a match anywhere in the haystack.
#[verifier::external_body]
fn has_match(re: &Regex, haystack: &[u8]) -> (found: bool)
    ensures
        found == (regex_spans(*re, haystack@).len() > 0),
{
    re.is_match(haystack)
}

/// One matching line in one file.
#[derive(Clone, Debug)]
pub struct Match {
    /// Absolute path of the file containing the match.
    pub path: String,
    /// 1-based line number within the file.
    pub line: u32,
    /// The matching line's text (with its trailing newline removed).
    pub text: String,
    /// Byte offsets of matches within `text` (only populated in JSON mode).
    pub submatches: Vec<(usize, usize)>,
}

/// What a [`Match`] stands for.
#[verifier::ext_equal]
pub ghost struct MatchView {
    pub path: Seq<char>,
    pub line: u32,
    pub text: Seq<char>,
    pub submatches: Seq<(usize, usize)>,
}

impl View for Match {
    type V = MatchView;

    open spec fn view(&self) -> MatchView {
        MatchView {
            path: self.path@,
            line: self.line,
            text: self.text@,
            submatches: self.submatches@,
        }
    }
}

/// What a list of matches stands for.
pub open spec fn match_views(matches: Seq<Match>) -> Seq<MatchView> {
    matches.map_values(|m: Match| m@)
}

/// Matches are ordered by the bytes of their path, then by line.
pub open spec fn match_before(a: MatchView, b: MatchView) -> bool {
    bytes_before(encode_utf8(a.path), encode_utf8(b.path)) || (encode_utf8(a.path) == encode_utf8(
        b.path,
    ) && a.line < b.line)
}

proof fn lemma_match_before_is_an_order(a: MatchView, b: MatchView, c: MatchView)
    ensures
        !match_before(a, a),
        match_before(a, b) ==> match_before(a, c) || match_before(c, b),
        match_before(a, b) && match_before(b, c) ==> match_before(a, c),
{
    let (x, y, z) = (encode_utf8(a.path), encode_utf8(b.path), encode_utf8(c.path));
    lemma_bytes_before_is_an_order(x, y, z, 0);
    lemma_bytes_before_is_an_order(y, z, x, 0);
    if !bytes_before(x, z) && !bytes_before(z, x) {
        lemma_bytes_before_total(x, z);
    }
    if !bytes_before(y, z) && !bytes_before(z, y) {
        lemma_bytes_before_total(y, z);
    }
    lemma_bytes_before_is_an_order(x, z, y, 0);
    lemma_bytes_before_is_an_order(z, x, y, 0);
    lemma_bytes_before_is_an_order(z, y, x, 0);
}

impl Ordered for MatchView {
    open spec fn before(&self, other: &Self) -> bool {
        match_before(*self, *other)
    }

    proof fn before_is_an_order(a: &Self, b: &Self, c: &Self) {
        lemma_match_before_is_an_order(*a, *b, *c);
    }
}

impl Ordered for Match {
    open spec fn before(&self, other: &Self) -> bool {
        match_before(self@, other@)
    }

    proof fn before_is_an_order(a: &Self, b: &Self, c: &Self) {
        lemma_match_before_is_an_order(a@, b@, c@);
    }
}

impl Ranked for Match {
    fn is_before(&self, other: &Self) -> (yes: bool) {
        let a = self.path.as_str().as_bytes();
        let b = other.path.as_str().as_bytes();
        if is_bytes_before(a, b) {
            true
        } else if is_bytes_before(b, a) {
            proof {
                lemma_bytes_before_is_an_order(b@, a@, b@, 0);
                lemma_bytes_before_is_an_order(a@, b@, a@, 0);
            }
            false
        } else {
            proof {
                lemma_bytes_before_total(a@, b@);
            }
            self.line < other.line
        }
    }
}

/// Sort matches by path, then by line. Matches of the same line keep their
/// order.
pub fn sort_matches(matches: Vec<Match>) -> (out: Vec<Match>)
    ensures
        match_views(out@) == sorted(match_views(matches@)),
{
    proof {
        lemma_sorted_map(matches@, |m: Match| m@);
    }
    stable_sort(matches)
}

/// Where the line that goes through `at` ends: at the next newline, or at the
/// end.
pub open spec fn line_end(content: Seq<u8>, at: int) -> int
    decreases content.len() - at,
{
    if at >= content.len() || content[at] == 10 {
        at
    } else {
        line_end(content, at + 1)
    }
}

pub proof fn lemma_line_end_range(content: Seq<u8>, at: int)
    ensures
        at <= line_end(content, at),
        at <= content.len() ==> line_end(content, at) <= content.len(),
    decreases content.len() - at,
{
    if at < content.len() && content[at] != 10 {
        lemma_line_end_range(content, at + 1);
    }
}

/// The lines of `content` from `start` on: what stands between newlines. After
/// a last newline comes one empty line more.
pub open spec fn lines_from(content: Seq<u8>, start: int) -> Seq<Seq<u8>>
    decreases content.len() - start,
{
    let end = line_end(content, start);
    if end >= content.len() {
        seq![content.subrange(start, content.len() as int)]
    } else {
        proof {
            lemma_line_end_range(content, start);
        }
        seq![content.subrange(start, end)] + lines_from(content, end + 1)
    }
}

/// The number of the line at index `k`, counted from one.
pub open spec fn line_number(k: int) -> u32 {
    if k < u32::MAX {
        (k + 1) as u32
    } else {
        u32::MAX
    }
}

/// The bytes of the text of a line, with replacement characters for whatever
/// in the line is not UTF-8.
pub open spec fn text_bytes(line: Seq<u8>) -> Seq<u8> {
    encode_utf8(lossy_text(line))
}

/// A line cut at `at` is read like the whole: the cut splits no character of
/// its text.
pub open spec fn is_clean_cut(line: Seq<u8>, at: int) -> bool {
    text_bytes(line.take(at)) + text_bytes(line.skip(at)) == text_bytes(line)
}

/// Where the character that `at` is in starts in the text of a line.
pub open spec fn offset_before(line: Seq<u8>, at: int) -> nat
    decreases at,
{
    if at <= 0 {
        0
    } else if is_clean_cut(line, at) {
        text_bytes(line.take(at)).len()
    } else {
        offset_before(line, at - 1)
    }
}

/// Where the character that `at` is in ends in the text of a line.
pub open spec fn offset_after(line: Seq<u8>, at: int) -> nat
    decreases line.len() - at,
{
    if at >= line.len() {
        text_bytes(line).len()
    } else if is_clean_cut(line, at) {
        text_bytes(line.take(at)).len()
    } else {
        offset_after(line, at + 1)
    }
}

/// The byte range in the text of a line for a byte range in the line. It is the
/// same where the text is the line byte for byte. Otherwise it is that of the
/// characters which the range touches.
pub open spec fn text_span(line: Seq<u8>, span: (usize, usize)) -> (usize, usize) {
    if text_bytes(line) == line {
        span
    } else {
        (
            offset_before(line, span.0 as int) as usize,
            offset_after(line, span.1 as int) as usize,
        )
    }
}

/// The byte ranges in the text of a line for byte ranges in the line.
pub open spec fn text_spans(line: Seq<u8>, spans: Seq<(usize, usize)>) -> Seq<(usize, usize)> {
    spans.map_values(|span: (usize, usize)| text_span(line, span))
}

proof fn lemma_offset_before_in_text(line: Seq<u8>, at: int)
    ensures
        offset_before(line, at) <= text_bytes(line).len(),
    decreases at,
{
    if at > 0 {
        if is_clean_cut(line, at) {
            assert((text_bytes(line.take(at)) + text_bytes(line.skip(at))).len()
                == text_bytes(line).len());
        } else {
            lemma_offset_before_in_text(line, at - 1);
        }
    }
}

proof fn lemma_offset_after_in_text(line: Seq<u8>, at: int)
    ensures
        offset_after(line, at) <= text_bytes(line).len(),
    decreases line.len() - at,
{
    if at < line.len() {
        if is_clean_cut(line, at) {
            assert((text_bytes(line.take(at)) + text_bytes(line.skip(at))).len()
                == text_bytes(line).len());
        } else {
            lemma_offset_after_in_text(line, at + 1);
        }
    }
}

/// A range in a line is recorded as one in its text, and a range between clean
/// cuts as the place of just these characters.
pub proof fn submatches_lie_in_the_text(line: Seq<u8>, span: (usize, usize))
    requires
        span.0 <= span.1 <= line.len(),
        text_bytes(line).len() <= usize::MAX,
    ensures
        text_span(line, span).0 <= text_bytes(line).len(),
        text_span(line, span).1 <= text_bytes(line).len(),
        text_bytes(line) != line && 0 < span.0 && span.1 < line.len() && is_clean_cut(
            line,
            span.0 as int,
        ) && is_clean_cut(line, span.1 as int) ==> text_span(line, span).0 == text_bytes(
            line.take(span.0 as int),
        ).len() && text_span(line, span).1 == text_bytes(line.take(span.1 as int)).len(),
{
    lemma_offset_before_in_text(line, span.0 as int);
    lemma_offset_after_in_text(line, span.1 as int);
}

/// The matching ones among the first `k` lines, as matches. `spans` gives the
/// matches in a line.
pub open spec fn line_matches(
    spans: spec_fn(Seq<u8>) -> Seq<(usize, usize)>,
    lines: Seq<Seq<u8>>,
    k: int,
    path: Seq<char>,
    json: bool,
) -> Seq<MatchView>
    decreases k,
{
    if k <= 0 {
        Seq::empty()
    } else {
        let rest = line_matches(spans, lines, k - 1, path, json);
        let line = lines[k - 1];
        if spans(line).len() == 0 {
            rest
        } else {
            rest.push(
                MatchView {
                    path,
                    line: line_number(k - 1),
                    text: lossy_text(line),
                    submatches: if json {
                        text_spans(line, spans(line))
                    } else {
                        Seq::empty()
                    },
                },
            )
        }
    }
}

/// The matches in a file.
pub open spec fn content_matches(
    spans: spec_fn(Seq<u8>) -> Seq<(usize, usize)>,
    content: Seq<u8>,
    path: Seq<char>,
    json: bool,
) -> Seq<MatchView> {
    let lines = lines_from(content, 0);
    line_matches(spans, lines, lines.len() as int, path, json)
}

/// What matches in a line, by this regex.
pub open spec fn spans_of(re: Regex) -> spec_fn(Seq<u8>) -> Seq<(usize, usize)> {
    |line: Seq<u8>| regex_spans(re, line)
}

/// What matches in a line, by this pattern.
pub open spec fn spans_of_pattern(
    pattern: Seq<char>,
    ignore_case: bool,
) -> spec_fn(Seq<u8>) -> Seq<(usize, usize)> {
    |line: Seq<u8>| pattern_spans(pattern, ignore_case, line)
}

/// Finds the end of the line that starts at `start`.
fn find_line_end(content: &[u8], start: usize) -> (end: usize)
    requires
        start <= content@.len(),
    ensures
        end == line_end(content@, start as int),
        start <= end <= content@.len(),
{
    let mut end: usize = start;
    while end < content.len() && content[end] != 10
        invariant
            start <= end <= content@.len(),
            line_end(content@, start as int) == line_end(content@, end as int),
        decreases content@.len() - end,
    {
        end += 1;
    }
    end
}

/// Whether a cut splits no character. `text` are the bytes of the line's text.
fn cuts_cleanly(line: &[u8], at: usize, text: &[u8]) -> (clean: Option<usize>)
    requires
        at <= line@.len(),
        text@ == text_bytes(line@),
    ensures
        match clean {
            Some(offset) => is_clean_cut(line@, at as int) && offset == text_bytes(
                line@.take(at as int),
            ).len(),
            None => !is_clean_cut(line@, at as int),
        },
{
    let before = slice_subrange(line, 0, at);
    let after = slice_subrange(line, at, line.len());
    assert(before@ =~= line@.take(at as int));
    assert(after@ =~= line@.skip(at as int));
    let left = text_from_bytes(before);
    let right = text_from_bytes(after);
    let (a, b) = (left.as_str().as_bytes(), right.as_str().as_bytes());
    let offset: usize = a.len();
    if offset > text.len() {
        assert((a@ + b@).len() > text@.len());
        return None;
    }
    let head = slice_subrange(text, 0, offset);
    let tail = slice_subrange(text, offset, text.len());
    if bytes_equal(head, a) && bytes_equal(tail, b) {
        assert(a@ + b@ =~= text@);
        Some(offset)
    } else {
        assert(a@ + b@ != text@) by {
            if a@ + b@ == text@ {
                assert(head@ =~= a@);
                assert(tail@ =~= b@);
            }
        }
        None
    }
}

/// Finds where the character that `at` is in starts in the text.
fn find_offset_before(line: &[u8], at: usize, text: &[u8]) -> (offset: usize)
    requires
        at <= line@.len(),
        text@ == text_bytes(line@),
    ensures
        offset == offset_before(line@, at as int),
{
    let mut p: usize = at;
    while p > 0
        invariant
            p <= line@.len(),
            text@ == text_bytes(line@),
            offset_before(line@, at as int) == offset_before(line@, p as int),
        decreases p,
    {
        match cuts_cleanly(line, p, text) {
            Some(offset) => {
                return offset;
            },
            None => {},
        }
        p -= 1;
    }
    0
}

/// Finds where the character that `at` is in ends in the text.
fn find_offset_after(line: &[u8], at: usize, text: &[u8]) -> (offset: usize)
    requires
        at <= line@.len(),
        text@ == text_bytes(line@),
    ensures
        offset == offset_after(line@, at as int),
{
    let mut p: usize = at;
    while p < line.len()
        invariant
            p <= line@.len(),
            text@ == text_bytes(line@),
            offset_after(line@, at as int) == offset_after(line@, p as int),
        decreases line@.len() - p,
    {
        match cuts_cleanly(line, p, text) {
            Some(offset) => {
                return offset;
            },
            None => {},
        }
        p += 1;
    }
    text.len()
}

/// Where the matches in a line are in its text.
fn spans_in_text(line: &[u8], spans: Vec<(usize, usize)>, text: &[u8]) -> (out: Vec<
    (usize, usize),
>)
    requires
        text@ == text_bytes(line@),
        forall|k: int|
            0 <= k < spans@.len() ==> (#[trigger] spans@[k]).0 <= line@.len() && spans@[k].1
                <= line@.len(),
    ensures
        out@ == text_spans(line@, spans@),
{
    if bytes_equal(text, line) {
        assert(spans@ =~= text_spans(line@, spans@));
        return spans;
    }
    let mut out: Vec<(usize, usize)> = Vec::new();
    let mut i: usize = 0;
    assert(out@ =~= text_spans(line@, spans@.take(0)));
    while i < spans.len()
        invariant
            i <= spans@.len(),
            text@ == text_bytes(line@),
            text@ != line@,
            forall|k: int|
                0 <= k < spans@.len() ==> (#[trigger] spans@[k]).0 <= line@.len() && spans@[k].1
                    <= line@.len(),
            out@ == text_spans(line@, spans@.take(i as int)),
        decreases spans@.len() - i,
    {
        let (start, end): (usize, usize) = spans[i];
        assert(spans@[i as int] == (start, end));
        let from: usize = find_offset_before(line, start, text);
        let to: usize = find_offset_after(line, end, text);
        out.push((from, to));
        i += 1;
        assert(out@ =~= text_spans(line@, spans@.take(i as int)));
    }
    assert(spans@.take(i as int) =~= spans@);
    out
}

/// Scan `content` line by line, appending every matching line to `out`.
///
/// Line numbers are 1-based and stop at the largest there is. In JSON mode
/// submatch byte offsets in the text are recorded; otherwise only a boolean per line is
/// tested (faster).
pub fn match_content(re: &Regex, content: &[u8], path: String, json: bool, out: &mut Vec<Match>)
    ensures
        match_views(final(out)@) == match_views(old(out)@) + content_matches(
            spans_of(*re),
            content@,
            path@,
            json,
        ),
{
    let ghost base = match_views(out@);
    let ghost spans = spans_of(*re);
    let ghost lines = lines_from(content@, 0);
    let len: usize = content.len();
    let mut start: usize = 0;
    let mut line_no: u32 = 1;
    let ghost mut k: int = 0;
    let mut more: bool = true;
    assert(lines.skip(0) =~= lines);
    assert(match_views(out@) =~= base + line_matches(spans, lines, 0, path@, json));
    while more
        invariant
            0 <= k <= lines.len(),
            len == content@.len(),
            more ==> start <= len && lines.skip(k) == lines_from(content@, start as int),
            !more ==> k == lines.len(),
            line_no == line_number(k),
            spans == spans_of(*re),
            match_views(out@) == base + line_matches(spans, lines, k, path@, json),
        decreases (if more {
            len - start + 1
        } else {
            0
        }),
    {
        let end: usize = find_line_end(content, start);
        let line = slice_subrange(content, start, end);
        proof {
            lemma_lines_step(content@, start as int, lines, k);
        }
        assert(line@ == lines[k]);
        let found: Option<Vec<(usize, usize)>> = if json {
            let v = find_spans(re, line);
            if v.len() == 0 {
                None
            } else {
                Some(v)
            }
        } else if has_match(re, line) {
            Some(Vec::new())
        } else {
            None
        };
        let ghost had = out@;
        match found {
            Some(spans_found) => {
                let text = text_from_bytes(line);
                let submatches = spans_in_text(line, spans_found, text.as_str().as_bytes());
                assert(!json ==> submatches@ =~= Seq::empty());
                let found_match = Match { path: path.clone(), line: line_no, text, submatches };
                out.push(found_match);
                assert(match_views(out@) =~= match_views(had).push(found_match@));
            },
            None => {},
        }
        assert(match_views(out@) =~= base + line_matches(spans, lines, k + 1, path@, json));
        line_no = line_no.saturating_add(1);
        proof {
            k = k + 1;
        }
        if end >= len {
            more = false;
        } else {
            start = end + 1;
        }
    }
}

/// The next line, and what is left after it.
proof fn lemma_lines_step(content: Seq<u8>, start: int, lines: Seq<Seq<u8>>, k: int)
    requires
        0 <= start <= content.len(),
        0 <= k <= lines.len(),
        lines.skip(k) == lines_from(content, start),
    ensures
        k < lines.len(),
        lines[k] == content.subrange(start, line_end(content, start)),
        line_end(content, start) >= content.len() ==> k + 1 == lines.len(),
        line_end(content, start) < content.len() ==> lines.skip(k + 1) == lines_from(
            content,
            line_end(content, start) + 1,
        ),
{
    lemma_line_end_range(content, start);
    let end = line_end(content, start);
    let here = lines.skip(k);
    assert(here.len() > 0);
    assert(here[0] == lines[k]);
    if end >= content.len() {
        assert(here.len() == 1);
    } else {
        assert(lines.skip(k + 1) =~= here.skip(1));
        assert(here.skip(1) =~= lines_from(content, end + 1));
    }
}

/// A list of matches stands for its matches, each with all it holds.
pub proof fn match_views_show_every_match(matches: Seq<Match>)
    ensures
        match_views(matches).len() == matches.len(),
        forall|i: int|
            0 <= i < matches.len() ==> {
                let m = #[trigger] match_views(matches)[i];
                &&& m.path == matches[i].path@
                &&& m.line == matches[i].line
                &&& m.text == matches[i].text@
                &&& m.submatches == matches[i].submatches@
            },
{
}

/// A line of `content` runs from `from` to `to`: it starts at the beginning or
/// behind a newline, ends at a newline or at the end, and has none inside.
pub open spec fn is_line(content: Seq<u8>, from: int, to: int) -> bool {
    &&& 0 <= from <= to <= content.len()
    &&& from > 0 ==> content[from - 1] == 10
    &&& to < content.len() ==> content[to] == 10
    &&& forall|i: int| from <= i < to ==> #[trigger] content[i] != 10
}

/// How many newlines there are in `content` before `at`.
pub open spec fn newlines_before(content: Seq<u8>, at: int) -> nat {
    content.take(at).filter(|b: u8| b == 10).len()
}

proof fn lemma_newlines_step(content: Seq<u8>, at: int)
    requires
        0 <= at < content.len(),
    ensures
        newlines_before(content, at + 1) == newlines_before(content, at) + if content[at] == 10 {
            1nat
        } else {
            0
        },
{
    reveal(Seq::filter);
    assert(content.take(at + 1).drop_last() =~= content.take(at));
}

proof fn lemma_newlines_in_line(content: Seq<u8>, from: int, to: int)
    requires
        0 <= from <= to <= content.len(),
        forall|i: int| from <= i < to ==> #[trigger] content[i] != 10,
    ensures
        newlines_before(content, to) == newlines_before(content, from),
    decreases to - from,
{
    if from < to {
        lemma_newlines_in_line(content, from, to - 1);
        lemma_newlines_step(content, to - 1);
    }
}

proof fn lemma_newlines_grow(content: Seq<u8>, i: int, j: int)
    requires
        0 <= i <= j <= content.len(),
    ensures
        newlines_before(content, i) <= newlines_before(content, j),
    decreases j - i,
{
    if i < j {
        lemma_newlines_grow(content, i, j - 1);
        lemma_newlines_step(content, j - 1);
    }
}

proof fn lemma_line_end(content: Seq<u8>, at: int)
    requires
        0 <= at <= content.len(),
    ensures
        at <= line_end(content, at) <= content.len(),
        line_end(content, at) < content.len() ==> content[line_end(content, at)] == 10,
        forall|i: int| at <= i < line_end(content, at) ==> #[trigger] content[i] != 10,
    decreases content.len() - at,
{
    if at < content.len() && content[at] != 10 {
        lemma_line_end(content, at + 1);
    }
}

/// Where line number `k` of those from `start` on is.
proof fn lemma_line_place(content: Seq<u8>, start: int, k: int) -> (place: (int, int))
    requires
        0 <= start <= content.len(),
        start > 0 ==> content[start - 1] == 10,
        0 <= k < lines_from(content, start).len(),
    ensures
        start <= place.0,
        is_line(content, place.0, place.1),
        lines_from(content, start)[k] == content.subrange(place.0, place.1),
        newlines_before(content, place.0) == newlines_before(content, start) + k,
    decreases k,
{
    let end = line_end(content, start);
    lemma_line_end(content, start);
    if k == 0 {
        (start, end)
    } else {
        lemma_newlines_in_line(content, start, end);
        lemma_newlines_step(content, end);
        assert(lines_from(content, start)[k] == lines_from(content, end + 1)[k - 1]);
        lemma_line_place(content, end + 1, k - 1)
    }
}

/// The lines from `start` on are as many as the newlines, and one more.
proof fn lemma_line_count(content: Seq<u8>, start: int)
    requires
        0 <= start <= content.len(),
    ensures
        newlines_before(content, start) + lines_from(content, start).len() == newlines_before(
            content,
            content.len() as int,
        ) + 1,
    decreases content.len() - start,
{
    let end = line_end(content, start);
    lemma_line_end(content, start);
    lemma_newlines_in_line(content, start, end);
    if end < content.len() {
        lemma_newlines_step(content, end);
        lemma_line_count(content, end + 1);
    }
}

/// A line behind `start` is among the lines from there on, at the number of
/// newlines on the way.
proof fn lemma_line_found(content: Seq<u8>, start: int, from: int, to: int)
    requires
        0 <= start <= from,
        start > 0 ==> content[start - 1] == 10,
        is_line(content, from, to),
    ensures
        newlines_before(content, start) <= newlines_before(content, from),
        newlines_before(content, from) - newlines_before(content, start) < lines_from(
            content,
            start,
        ).len(),
        lines_from(content, start)[newlines_before(content, from) - newlines_before(
            content,
            start,
        )] == content.subrange(from, to),
    decreases content.len() - start,
{
    let end = line_end(content, start);
    lemma_line_end(content, start);
    lemma_newlines_grow(content, start, from);
    if from == start {
        assert(to == end) by {
            if to < end {
                assert(content[to] != 10);
            }
            if end < to {
                assert(content[end] != 10);
            }
        }
    } else {
        assert(end < from) by {
            if from <= end {
                assert(content[from - 1] != 10);
            }
        }
        lemma_newlines_in_line(content, start, end);
        lemma_newlines_step(content, end);
        lemma_line_found(content, end + 1, from, to);
    }
}

/// What the matches in the first `k` lines are: one for each line that matches,
/// in order.
proof fn lemma_line_matches(
    spans: spec_fn(Seq<u8>) -> Seq<(usize, usize)>,
    lines: Seq<Seq<u8>>,
    k: int,
    path: Seq<char>,
    json: bool,
)
    requires
        0 <= k <= lines.len() <= u32::MAX,
    ensures
        line_matches(spans, lines, k, path, json).len() == lines.take(k).filter(
            |line: Seq<u8>| spans(line).len() > 0,
        ).len(),
        forall|i: int|
            0 <= i < line_matches(spans, lines, k, path, json).len() ==> {
                let m = #[trigger] line_matches(spans, lines, k, path, json)[i];
                &&& 1 <= m.line <= k
                &&& spans(lines[m.line - 1]).len() > 0
                &&& m.path == path
                &&& m.text == lossy_text(lines[m.line - 1])
                &&& m.submatches == if json {
                    text_spans(lines[m.line - 1], spans(lines[m.line - 1]))
                } else {
                    Seq::empty()
                }
            },
        forall|i: int, j: int|
            0 <= i < j < line_matches(spans, lines, k, path, json).len() ==> (
            #[trigger] line_matches(spans, lines, k, path, json)[i]).line < (
            #[trigger] line_matches(spans, lines, k, path, json)[j]).line,
        forall|x: int|
            0 <= x < k && spans(#[trigger] lines[x]).len() > 0 ==> exists|i: int|
                0 <= i < line_matches(spans, lines, k, path, json).len() && (
                #[trigger] line_matches(spans, lines, k, path, json)[i]).line == x + 1,
    decreases k,
{
    reveal(Seq::filter);
    let here = line_matches(spans, lines, k, path, json);
    if k > 0 {
        lemma_line_matches(spans, lines, k - 1, path, json);
        let rest = line_matches(spans, lines, k - 1, path, json);
        assert(lines.take(k).drop_last() =~= lines.take(k - 1));
        assert(lines.take(k).last() == lines[k - 1]);
        assert forall|x: int| 0 <= x < k && spans(#[trigger] lines[x]).len() > 0 implies exists|
            i: int,
        | 0 <= i < here.len() && (#[trigger] here[i]).line == x + 1 by {
            if x < k - 1 {
                let i = choose|i: int|
                    0 <= i < rest.len() && (#[trigger] rest[i]).line == x + 1;
                assert(here[i] == rest[i]);
            } else {
                assert(here[here.len() - 1].line == x + 1);
            }
        }
    }
}

/// Every line of a file is told apart from all others by its number, which is
/// one more than the newlines before it, and is reported under it if and only if
/// the regex matches somewhere in it.
pub proof fn every_matching_line_is_reported(
    spans: spec_fn(Seq<u8>) -> Seq<(usize, usize)>,
    content: Seq<u8>,
    path: Seq<char>,
    json: bool,
    from: int,
    to: int,
)
    requires
        is_line(content, from, to),
        newlines_before(content, content.len() as int) < u32::MAX,
    ensures
        spans(content.subrange(from, to)).len() > 0 <==> exists|i: int|
            0 <= i < content_matches(spans, content, path, json).len() && (
            #[trigger] content_matches(spans, content, path, json)[i]).line == newlines_before(
                content,
                from,
            ) + 1,
        forall|i: int|
            0 <= i < content_matches(spans, content, path, json).len() && (
            #[trigger] content_matches(spans, content, path, json)[i]).line == newlines_before(
                content,
                from,
            ) + 1 ==> content_matches(spans, content, path, json)[i].text == lossy_text(
                content.subrange(from, to),
            ),
{
    let lines = lines_from(content, 0);
    let n = newlines_before(content, from);
    assert(content.take(0) =~= Seq::empty());
    assert(newlines_before(content, 0) == 0) by {
        reveal(Seq::filter);
    }
    lemma_line_count(content, 0);
    lemma_line_matches(spans, lines, lines.len() as int, path, json);
    lemma_line_found(content, 0, from, to);
    assert(lines[n as int] == content.subrange(from, to));
    let all = line_matches(spans, lines, lines.len() as int, path, json);
    let found = content_matches(spans, content, path, json);
    if spans(lines[n as int]).len() > 0 {
        let i = choose|i: int| 0 <= i < all.len() && (#[trigger] all[i]).line == n + 1;
        assert(found[i].line == n + 1);
    }
}

/// Whatever is reported of a file is a line of it that the regex matches, with
/// its number, its text and the path of the file. In JSON mode it has a submatch
/// for each match in the line, in order: the place of that match in the text,
/// which is the match itself where the line is its own text. Otherwise it has
/// none. Line numbers increase, and there are as many reports as lines that
/// match.
pub proof fn every_report_is_a_matching_line(
    spans: spec_fn(Seq<u8>) -> Seq<(usize, usize)>,
    content: Seq<u8>,
    path: Seq<char>,
    json: bool,
) -> (places: Seq<(int, int)>)
    requires
        newlines_before(content, content.len() as int) < u32::MAX,
    ensures
        places.len() == content_matches(spans, content, path, json).len(),
        forall|i: int|
            0 <= i < places.len() ==> {
                let m = #[trigger] content_matches(spans, content, path, json)[i];
                let (from, to) = places[i];
                let line = content.subrange(from, to);
                &&& is_line(content, from, to)
                &&& spans(line).len() > 0
                &&& m.path == path
                &&& m.line == newlines_before(content, from) + 1
                &&& m.text == lossy_text(line)
                &&& m.submatches.len() == if json {
                    spans(line).len()
                } else {
                    0
                }
                &&& forall|k: int|
                    0 <= k < m.submatches.len() ==> #[trigger] m.submatches[k] == text_span(
                        line,
                        spans(line)[k],
                    )
                &&& json && encode_utf8(lossy_text(line)) == line ==> m.submatches == spans(line)
            },
        forall|i: int, j: int|
            0 <= i < j < places.len() ==> (#[trigger] content_matches(
                spans,
                content,
                path,
                json,
            )[i]).line < (#[trigger] content_matches(spans, content, path, json)[j]).line,
{
    let lines = lines_from(content, 0);
    let found = content_matches(spans, content, path, json);
    assert(content.take(0) =~= Seq::empty());
    assert(newlines_before(content, 0) == 0) by {
        reveal(Seq::filter);
    }
    lemma_line_count(content, 0);
    lemma_line_matches(spans, lines, lines.len() as int, path, json);
    let places = Seq::new(
        found.len(),
        |i: int|
            choose|place: (int, int)|
                is_line(content, place.0, place.1) && newlines_before(content, place.0)
                    == found[i].line - 1 && content.subrange(place.0, place.1)
                    == lines[found[i].line - 1],
    );
    assert forall|i: int| 0 <= i < places.len() implies {
        let m = #[trigger] found[i];
        let (from, to) = places[i];
        let line = content.subrange(from, to);
        &&& is_line(content, from, to)
        &&& spans(line).len() > 0
        &&& m.path == path
        &&& m.line == newlines_before(content, from) + 1
        &&& m.text == lossy_text(line)
        &&& m.submatches.len() == if json {
            spans(line).len()
        } else {
            0
        }
        &&& forall|k: int|
            0 <= k < m.submatches.len() ==> #[trigger] m.submatches[k] == text_span(
                line,
                spans(line)[k],
            )
        &&& json && encode_utf8(lossy_text(line)) == line ==> m.submatches == spans(line)
    } by {
        let place = lemma_line_place(content, 0, found[i].line - 1);
        let (from, to) = places[i];
        assert(is_line(content, place.0, place.1) && newlines_before(content, place.0)
            == found[i].line - 1 && content.subrange(place.0, place.1) == lines[found[i].line - 1]);
        let line = content.subrange(from, to);
        if json && encode_utf8(lossy_text(line)) == line {
            assert(found[i].submatches =~= spans(line));
        }
    }
    places
}

/// The reports on a file are as many as its lines that match, and say the text
/// of each: taking a line more, behind a newline, adds its report if it matches
/// and nothing otherwise.
pub proof fn one_more_line_adds_its_own_report(
    spans: spec_fn(Seq<u8>) -> Seq<(usize, usize)>,
    content: Seq<u8>,
    line: Seq<u8>,
    path: Seq<char>,
    json: bool,
)
    requires
        !line.contains(10),
        newlines_before(content, content.len() as int) + 1 < u32::MAX,
    ensures
        ({
            let before = content_matches(spans, content, path, json);
            let after = content_matches(spans, content + seq![10u8] + line, path, json);
            if spans(line).len() == 0 {
                after == before
            } else {
                &&& after.len() == before.len() + 1
                &&& after.drop_last() == before
                &&& after.last().line == newlines_before(content, content.len() as int) + 2
                &&& after.last().path == path
                &&& after.last().text == lossy_text(line)
                &&& after.last().submatches.len() == if json {
                    spans(line).len()
                } else {
                    0
                }
            }
        }),
{
    let longer = content + seq![10u8] + line;
    let (a, b) = (lines_from(content, 0), lines_from(longer, 0));
    assert(content.take(0) =~= Seq::empty());
    assert(newlines_before(content, 0) == 0) by {
        reveal(Seq::filter);
    }
    lemma_line_count(content, 0);
    lemma_lines_appended(content, line, 0);
    let n = a.len() as int;
    lemma_line_matches_prefix(spans, b, a, n, path, json);
    let (before, after) = (
        content_matches(spans, content, path, json),
        content_matches(spans, longer, path, json),
    );
    assert(b[n] == line);
    if spans(line).len() > 0 {
        assert(after.drop_last() =~= before);
    }
}

proof fn lemma_line_matches_prefix(
    spans: spec_fn(Seq<u8>) -> Seq<(usize, usize)>,
    a: Seq<Seq<u8>>,
    b: Seq<Seq<u8>>,
    k: int,
    path: Seq<char>,
    json: bool,
)
    requires
        k <= a.len(),
        k <= b.len(),
        forall|i: int| 0 <= i < k ==> a[i] == b[i],
    ensures
        line_matches(spans, a, k, path, json) == line_matches(spans, b, k, path, json),
    decreases k,
{
    if k > 0 {
        lemma_line_matches_prefix(spans, a, b, k - 1, path, json);
        assert(a[k - 1] == b[k - 1]);
    }
}

/// The lines of a content with a line more.
proof fn lemma_lines_appended(content: Seq<u8>, line: Seq<u8>, start: int)
    requires
        0 <= start <= content.len(),
        !line.contains(10),
    ensures
        lines_from(content + seq![10u8] + line, start) == lines_from(content, start).push(line),
    decreases content.len() - start,
{
    let longer = content + seq![10u8] + line;
    let (x, y) = (line_end(content, start), line_end(longer, start));
    lemma_line_end(content, start);
    lemma_line_end(longer, start);
    assert(x == y) by {
        if x < y {
            assert(longer[x] != 10);
        }
        if y < x {
            assert(content[y] != 10);
        }
    }
    assert(longer.subrange(start, x) =~= content.subrange(start, x));
    if x < content.len() {
        lemma_lines_appended(content, line, x + 1);
        assert(lines_from(longer, start) =~= lines_from(content, start).push(line));
    } else {
        let z = line_end(longer, x + 1);
        lemma_line_end(longer, x + 1);
        assert(z == longer.len()) by {
            if z < longer.len() {
                assert(line[z - x - 1] == 10);
            }
        }
        assert(longer.subrange(x + 1, longer.len() as int) =~= line);
        assert(lines_from(longer, x + 1) =~= seq![line]);
        assert(lines_from(longer, start) =~= lines_from(content, start).push(line));
    }
}

/// A range of a line that is its own text, byte for byte, is its own place
/// there. In another text it is the place of the characters it touches: no more
/// and no less than what the clean cuts around it, the nearest ones, leave of
/// the text.
pub proof fn submatches_point_at_what_matched(line: Seq<u8>, span: (usize, usize), a: int, b: int)
    requires
        span.0 <= span.1 <= line.len(),
        0 <= a <= span.0,
        span.1 <= b <= line.len(),
        encode_utf8(lossy_text(line)).len() <= usize::MAX,
        forall|at: int|
            a < at <= span.0 ==> encode_utf8(lossy_text(line.take(at))) + encode_utf8(
                lossy_text(#[trigger] line.skip(at)),
            ) != encode_utf8(lossy_text(line)),
        forall|at: int|
            span.1 <= at < b ==> encode_utf8(lossy_text(line.take(at))) + encode_utf8(
                lossy_text(#[trigger] line.skip(at)),
            ) != encode_utf8(lossy_text(line)),
        a > 0 ==> encode_utf8(lossy_text(line.take(a))) + encode_utf8(lossy_text(line.skip(a)))
            == encode_utf8(lossy_text(line)),
        b < line.len() ==> encode_utf8(lossy_text(line.take(b))) + encode_utf8(
            lossy_text(line.skip(b)),
        ) == encode_utf8(lossy_text(line)),
    ensures
        encode_utf8(lossy_text(line)) == line ==> text_span(line, span) == span,
        encode_utf8(lossy_text(line)) != line ==> text_span(line, span).0 == if a == 0 {
            0
        } else {
            encode_utf8(lossy_text(line.take(a))).len()
        },
        encode_utf8(lossy_text(line)) != line ==> text_span(line, span).1 == if b == line.len() {
            encode_utf8(lossy_text(line)).len()
        } else {
            encode_utf8(lossy_text(line.take(b))).len()
        },
{
    lemma_nearest_before(line, a, span.0 as int);
    lemma_nearest_after(line, span.1 as int, b);
    lemma_offset_before_in_text(line, span.0 as int);
    lemma_offset_after_in_text(line, span.1 as int);
}

proof fn lemma_nearest_before(line: Seq<u8>, a: int, at: int)
    requires
        0 <= a <= at <= line.len(),
        forall|p: int|
            a < p <= at ==> text_bytes(line.take(p)) + text_bytes(#[trigger] line.skip(p))
                != text_bytes(line),
        a > 0 ==> is_clean_cut(line, a),
    ensures
        offset_before(line, at) == if a == 0 {
            0
        } else {
            text_bytes(line.take(a)).len()
        },
    decreases at - a,
{
    if a < at {
        assert(line.skip(at) == line.skip(at));
        assert(!is_clean_cut(line, at));
        lemma_nearest_before(line, a, at - 1);
    }
}

proof fn lemma_nearest_after(line: Seq<u8>, at: int, b: int)
    requires
        0 <= at <= b <= line.len(),
        forall|p: int|
            at <= p < b ==> text_bytes(line.take(p)) + text_bytes(#[trigger] line.skip(p))
                != text_bytes(line),
        b < line.len() ==> is_clean_cut(line, b),
    ensures
        offset_after(line, at) == if b == line.len() {
            text_bytes(line).len()
        } else {
            text_bytes(line.take(b)).len()
        },
    decreases b - at,
{
    if at < b {
        assert(line.skip(at) == line.skip(at));
        assert(!is_clean_cut(line, at));
        lemma_nearest_after(line, at + 1, b);
    }
}

/// Sorting matches loses none and adds none. They come out by the bytes of their
/// path, and those of one path by line.
pub proof fn sorted_matches_go_by_path_and_line(matches: Seq<MatchView>)
    ensures
        sorted(matches).to_multiset() == matches.to_multiset(),
        forall|i: int, j: int|
            0 <= i < j < matches.len() ==> {
                let (a, b) = (#[trigger] sorted(matches)[i], #[trigger] sorted(matches)[j]);
                let (x, y) = (encode_utf8(a.path), encode_utf8(b.path));
                &&& x == y ==> a.line <= b.line
                &&& x != y ==> {
                    ||| x.len() < y.len() && y.take(x.len() as int) == x
                    ||| exists|k: int|
                        0 <= k < x.len() && k < y.len() && x.take(k) == y.take(k)
                            && #[trigger] x[k] < #[trigger] y[k]
                }
            },
{
    sorted_keeps_the_items(matches);
    sorted_is_sorted(matches);
    assert forall|i: int, j: int| 0 <= i < j < matches.len() implies {
        let (a, b) = (#[trigger] sorted(matches)[i], #[trigger] sorted(matches)[j]);
        let (x, y) = (encode_utf8(a.path), encode_utf8(b.path));
        &&& x == y ==> a.line <= b.line
        &&& x != y ==> {
            ||| x.len() < y.len() && y.take(x.len() as int) == x
            ||| exists|k: int|
                0 <= k < x.len() && k < y.len() && x.take(k) == y.take(k) && #[trigger] x[k]
                    < #[trigger] y[k]
        }
    } by {
        let (a, b) = (sorted(matches)[i], sorted(matches)[j]);
        let (x, y) = (encode_utf8(a.path), encode_utf8(b.path));
        assert(!b.before(&a));
        if x != y {
            if !bytes_before(x, y) {
                lemma_bytes_before_total(x, y);
            }
            bytes_are_ordered_at_their_first_difference(x, y);
        }
    }
}

/// Matches of one path and line come out of sorting in the order in which they
/// went in.
pub proof fn sorted_matches_of_one_line_keep_their_order(
    matches: Seq<MatchView>,
    path: Seq<char>,
    line: u32,
)
    ensures
        sorted(matches).filter(|m: MatchView| m.path == path && m.line == line) == matches.filter(
            |m: MatchView| m.path == path && m.line == line,
        ),
{
    let key = MatchView { path, line, text: Seq::empty(), submatches: Seq::empty() };
    sorted_is_stable(matches, key);
    let same = |m: MatchView| m.path == path && m.line == line;
    let tied = |m: MatchView| !m.before(&key) && !key.before(&m);
    assert forall|m: MatchView| #[trigger] same(m) == tied(m) by {
        let (x, y) = (encode_utf8(m.path), encode_utf8(path));
        lemma_bytes_before_is_an_order(x, x, x, 0);
        lemma_bytes_before_is_an_order(y, y, y, 0);
        if tied(m) {
            lemma_bytes_before_total(x, y);
            vstd::utf8::encode_utf8_decode_utf8(m.path);
            vstd::utf8::encode_utf8_decode_utf8(path);
        }
    }
    assert(same =~= tied);
}

/// Letters and digits of ASCII, underscores and spaces are plain, one by one, and
/// nothing else is.
pub proof fn plain_patterns_are_made_of_plain_characters(pattern: Seq<char>, c: char)
    ensures
        is_plain(Seq::empty()),
        is_plain(pattern.push(c)) <==> is_plain(pattern) && ('a' <= c <= 'z' || 'A' <= c <= 'Z'
            || '0' <= c <= '9' || c == '_' || c == ' '),
        PLAIN_LIMIT == 1024,
{
    let all = pattern.push(c);
    assert(all[pattern.len() as int] == c);
    if is_plain(all) {
        assert forall|i: int| 0 <= i < pattern.len() implies {
            let d = #[trigger] pattern[i];
            'a' <= d <= 'z' || 'A' <= d <= 'Z' || '0' <= d <= '9' || d == '_' || d == ' '
        } by {
            assert(all[i] == pattern[i]);
        }
    }
}

} // verus!
