//! Searching an index: candidates, matching, and what a search promises.

use crate::builder::{
    all_postings, cache_file, file_record, file_records, record_entries, record_tables, RecordView,
    SourceView,
};
use crate::cache::cache_of;
use crate::grams::{
    content_keys, content_keys_are_the_gram_keys, fold, gram_keys, is_increasing,
    without_repeats_keeps_members,
};
use crate::incremental::{
    is_honest_version, lemma_all_records, update_after_build_equals_fresh_build,
};
use crate::index::{open_tables, path_of, postings_of, Index, IndexView};
use crate::matcher::{
    compile_pattern, content_matches, every_matching_line_is_reported,
    every_report_is_a_matching_line, is_line, is_malformed, is_plain, lemma_line_end_range,
    line_end, line_matches, lines_from, match_content, match_views, newlines_before, pattern_spans,
    sort_matches, spans_of, spans_of_pattern, Match, MatchView, PLAIN_LIMIT,
};
use crate::ngram::{
    all_grams, covering_grams, covering_grams_occur_in_document, gram_key, DEFAULT_MAX_NGRAM_LENGTH,
};
use crate::query::{
    branch_grams, branch_ids, branch_of, branches_of, candidates, candidates_of, decompose,
    decompose_ignoring_case, has_empty_branch, intersection_of_increasing, is_framed,
    literal_branches, lowered, plan_is_required, plan_of, prefix_literals, side_ids, side_of,
    suffix_literals, union, union_of_increasing, union_sorted, BranchView, PlanView, QueryPlan,
    CLASS_LIMIT, LITERAL_LIMIT,
};
use crate::roundtrip::{built_index_opens, entries_fit, holds_records, ids_increasing};
use crate::sort::{is_sorted, sorted, sorted_is_sorted, sorted_keeps_the_items};
use crate::tables::{TablesView, MAX_POSTINGS};
use crate::text::{lossy_text, stored_path, text_from_bytes};
use regex::bytes::Regex;
use vstd::prelude::*;

verus! {

/// The pattern does not compile.
pub struct InvalidPattern {
    pub error: regex::Error,
    /// Whether that is for its syntax. Otherwise its compiled program is too
    /// big.
    pub malformed: bool,
}

/// All file ids of an index with `count` files.
pub open spec fn all_ids(count: nat) -> Seq<u32> {
    Seq::new((count as u32) as nat, |i: int| i as u32)
}

/// The files to search: the candidates of the plan, or all files where it
/// imposes no constraint.
pub open spec fn searched_ids(index: IndexView, plan: PlanView) -> Seq<u32> {
    match candidates_of(index, plan) {
        Some(ids) => ids,
        None => all_ids(index.file_offsets.len()),
    }
}

/// What reading files gave, by file id.
pub open spec fn content_views(contents: Seq<Option<Vec<u8>>>) -> Seq<Option<Seq<u8>>> {
    contents.map_values(
        |c: Option<Vec<u8>>|
            match c {
                Some(v) => Some(v@),
                None => None,
            },
    )
}

/// The matches in file `id`. A file without a path, or that could not be read,
/// has none.
pub open spec fn id_matches(
    index: IndexView,
    spans: spec_fn(Seq<u8>) -> Seq<(usize, usize)>,
    id: u32,
    contents: Seq<Option<Seq<u8>>>,
    json: bool,
) -> Seq<MatchView> {
    match path_of(index, id as int) {
        None => Seq::empty(),
        Some(path) => if id >= contents.len() {
            Seq::empty()
        } else {
            match contents[id as int] {
                None => Seq::empty(),
                Some(content) => content_matches(spans, content, lossy_text(path), json),
            }
        },
    }
}

/// The matches in the files `ids`, one file after another.
pub open spec fn ids_matches(
    index: IndexView,
    spans: spec_fn(Seq<u8>) -> Seq<(usize, usize)>,
    ids: Seq<u32>,
    contents: Seq<Option<Seq<u8>>>,
    json: bool,
) -> Seq<MatchView>
    decreases ids.len(),
{
    if ids.len() == 0 {
        Seq::empty()
    } else {
        ids_matches(index, spans, ids.drop_last(), contents, json) + id_matches(
            index,
            spans,
            ids.last(),
            contents,
            json,
        )
    }
}

/// The plan of a pattern. It is folded, like the index.
pub open spec fn search_plan(pattern: Seq<char>) -> PlanView {
    plan_of(
        prefix_literals(pattern, false, LITERAL_LIMIT, CLASS_LIMIT),
        suffix_literals(pattern, false, LITERAL_LIMIT, CLASS_LIMIT),
        true,
    )
}

/// The plan of a pattern that is read case-insensitively.
pub open spec fn caseless_plan(pattern: Seq<char>) -> PlanView {
    plan_of(
        lowered(prefix_literals(pattern, true, LITERAL_LIMIT, CLASS_LIMIT)),
        lowered(suffix_literals(pattern, true, LITERAL_LIMIT, CLASS_LIMIT)),
        true,
    )
}

/// The plan with whose literals every match starts and ends, matched with this
/// case flag.
pub open spec fn required_plan(pattern: Seq<char>, ignore_case: bool) -> PlanView {
    if ignore_case {
        caseless_plan(pattern)
    } else {
        search_plan(pattern)
    }
}

/// The files that a search looks at: the candidates of its plan. A letter may
/// match others than its own two cases, such as `k` the Kelvin sign. So a
/// case-insensitive search also looks at what only its case-insensitive reading
/// lets through.
pub open spec fn search_ids(index: IndexView, pattern: Seq<char>, ignore_case: bool) -> Seq<u32> {
    let ids = searched_ids(index, search_plan(pattern));
    if ignore_case {
        union(ids, searched_ids(index, caseless_plan(pattern)))
    } else {
        ids
    }
}

/// Adds to the candidates `ids` of a pattern those that only its
/// case-insensitive reading lets through.
pub fn widen_candidates(index: &Index, pattern: &str, ids: Vec<u32>) -> (wide: Vec<u32>)
    ensures
        wide@ == union(ids@, searched_ids(index@, caseless_plan(pattern@))),
        plan_is_required(caseless_plan(pattern@), pattern@, true, true),
{
    let plan = decompose_ignoring_case(pattern);
    let more = search_candidates(index, &plan);
    union_sorted(ids.as_slice(), more.as_slice())
}

/// The keys under which a readable file is indexed are those of its content.
pub open spec fn describes(records: Seq<RecordView>, contents: Seq<Option<Seq<u8>>>) -> bool {
    forall|i: int|
        0 <= i < records.len() && i < contents.len() ==> ((#[trigger] contents[i]) matches Some(c)
            ==> records[i].grams == content_keys(c))
}

/// The files to search: the candidates, or all files.
pub fn search_candidates(index: &Index, plan: &QueryPlan) -> (ids: Vec<u32>)
    ensures
        ids@ == searched_ids(index@, plan@),
{
    match candidates(index, plan) {
        Some(ids) => ids,
        None => {
            #[verifier::truncate]
            let count: u32 = index.file_count() as u32;
            let mut ids: Vec<u32> = Vec::new();
            let mut i: u32 = 0;
            while i < count
                invariant
                    i <= count,
                    ids@ == Seq::new(i as nat, |i: int| i as u32),
                decreases count - i,
            {
                ids.push(i);
                i += 1;
                assert(ids@ =~= Seq::new(i as nat, |i: int| i as u32));
            }
            ids
        },
    }
}

/// Adds the matches in file `id` to `out`. `content` is what reading the file
/// gave.
pub fn match_file(
    index: &Index,
    id: u32,
    content: &Option<Vec<u8>>,
    re: &Regex,
    json: bool,
    out: &mut Vec<Match>,
)
    ensures
        match_views(final(out)@) == match_views(old(out)@) + match (
            path_of(index@, id as int),
            *content,
        ) {
            (Some(path), Some(bytes)) => content_matches(
                spans_of(*re),
                bytes@,
                lossy_text(path),
                json,
            ),
            _ => Seq::empty(),
        },
{
    assert(match_views(out@) + Seq::empty() =~= match_views(out@));
    match (index.file_path(id), content) {
        (Some(path), Some(bytes)) => {
            match_content(re, bytes.as_slice(), text_from_bytes(path), json, out);
        },
        _ => {},
    }
}

/// The matches in the files `ids`, one file after another.
pub fn match_files(
    index: &Index,
    ids: &[u32],
    contents: &[Option<Vec<u8>>],
    re: &Regex,
    json: bool,
) -> (matches: Vec<Match>)
    ensures
        match_views(matches@) == ids_matches(
            index@,
            spans_of(*re),
            ids@,
            content_views(contents@),
            json,
        ),
{
    let ghost views = content_views(contents@);
    let mut out: Vec<Match> = Vec::new();
    let mut i: usize = 0;
    assert(match_views(out@) =~= Seq::empty());
    while i < ids.len()
        invariant
            i <= ids@.len(),
            views == content_views(contents@),
            match_views(out@) == ids_matches(
                index@,
                spans_of(*re),
                ids@.take(i as int),
                views,
                json,
            ),
        decreases ids@.len() - i,
    {
        let id: u32 = ids[i];
        assert(ids@.take(i + 1).drop_last() =~= ids@.take(i as int));
        assert(match_views(out@) + Seq::empty() =~= match_views(out@));
        if (id as usize) < contents.len() {
            match_file(index, id, &contents[id as usize], re, json, &mut out);
        }
        i += 1;
    }
    assert(ids@.take(i as int) =~= ids@);
    out
}

/// Compile a pattern, case-insensitively if so asked. One that is malformed is
/// an error of that kind, and one that is not fails only if its program is too
/// big. A plain pattern of up to [`PLAIN_LIMIT`] characters compiles.
pub fn compile(pattern: &str, ignore_case: bool) -> (compiled: Result<Regex, InvalidPattern>)
    ensures
        match compiled {
            Ok(_) => !is_malformed(pattern@, ignore_case),
            Err(invalid) => invalid.malformed == is_malformed(pattern@, ignore_case),
        },
        is_plain(pattern@) ==> !is_malformed(pattern@, ignore_case),
        is_plain(pattern@) && pattern@.len() <= PLAIN_LIMIT ==> compiled is Ok,
        compiled matches Ok(re) ==> spans_of(re) == spans_of_pattern(pattern@, ignore_case),
{
    match compile_pattern(pattern, ignore_case) {
        Ok(re) => {
            assert(spans_of(re) =~= spans_of_pattern(pattern@, ignore_case));
            Ok(re)
        },
        Err((error, malformed)) => Err(InvalidPattern { error, malformed }),
    }
}

/// Match the files `ids` with a compiled pattern, and sort what is found by
/// path, then by line. A pattern that did not compile is handed back as the
/// error.
pub fn match_and_sort(
    index: &Index,
    ids: &[u32],
    contents: &[Option<Vec<u8>>],
    compiled: Result<Regex, InvalidPattern>,
    json: bool,
) -> (found: Result<Vec<Match>, InvalidPattern>)
    ensures
        match (compiled, found) {
            (Ok(re), Ok(matches)) => match_views(matches@) == sorted(
                ids_matches(index@, spans_of(re), ids@, content_views(contents@), json),
            ),
            (Err(error), Err(invalid)) => invalid == error,
            _ => false,
        },
{
    match compiled {
        Ok(re) => Ok(sort_matches(match_files(index, ids, contents, &re, json))),
        Err(invalid) => Err(invalid),
    }
}

/// Search an already-loaded [`Index`] for `pattern`, returning every matching
/// line sorted by path then line number. `contents` is what reading the files
/// gave, by file id; only those of candidates are looked at.
///
/// The pattern is decomposed into a covering n-gram plan, candidates are
/// pruned through the index, and each candidate is verified exactly with
/// `regex`. When the pattern yields no useful literals, every indexed file is
/// a candidate. A malformed pattern is an error; one that is not, as a plain
/// pattern never is, fails only if its compiled program is too big, as that of a
/// plain pattern of up to [`PLAIN_LIMIT`] characters never is.
///
/// Where the index holds the keys of the contents, the search finds just what
/// matching every file would.
pub fn search(
    index: &Index,
    contents: &[Option<Vec<u8>>],
    pattern: &str,
    ignore_case: bool,
) -> (found: Result<Vec<Match>, InvalidPattern>)
    ensures
        match found {
            Ok(_) => !is_malformed(pattern@, ignore_case),
            Err(invalid) => invalid.malformed == is_malformed(pattern@, ignore_case),
        },
        is_plain(pattern@) ==> !is_malformed(pattern@, ignore_case),
        is_plain(pattern@) && pattern@.len() <= PLAIN_LIMIT ==> found is Ok,
        found matches Ok(matches) ==> {
            &&& match_views(matches@) == sorted(
                ids_matches(
                    index@,
                    spans_of_pattern(pattern@, ignore_case),
                    search_ids(index@, pattern@, ignore_case),
                    content_views(contents@),
                    false,
                ),
            )
            &&& is_sorted(match_views(matches@))
            &&& forall|records: Seq<RecordView>| #[trigger]
                holds_records(index@, records) && describes(records, content_views(contents@))
                    && records.len() <= u32::MAX ==> match_views(matches@) == sorted(
                    ids_matches(
                        index@,
                        spans_of_pattern(pattern@, ignore_case),
                        all_ids(records.len()),
                        content_views(contents@),
                        false,
                    ),
                )
        },
{
    let plan = decompose(pattern, true);
    let narrow = search_candidates(index, &plan);
    let ids = if ignore_case {
        widen_candidates(index, pattern, narrow)
    } else {
        narrow
    };
    let compiled = compile(pattern, ignore_case);
    proof {
        let spans = spans_of_pattern(pattern@, ignore_case);
        let views = content_views(contents@);
        sorted_is_sorted(ids_matches(index@, spans, ids@, views, false));
        assert forall|records: Seq<RecordView>| #[trigger]
            holds_records(index@, records) && describes(records, views) && records.len()
                <= u32::MAX implies ids_matches(index@, spans, ids@, views, false)
            == ids_matches(index@, spans, all_ids(records.len()), views, false) by {
            candidates_lose_no_match(index@, records, views, pattern@, ignore_case, false);
        }
    }
    match_and_sort(index, ids.as_slice(), contents, compiled, false)
}

/// The bytes of `literal` stand somewhere in `text`.
spec fn occurs_in(literal: Seq<u8>, text: Seq<u8>) -> bool {
    exists|at: int|
        0 <= at && at + literal.len() <= text.len() && #[trigger] text.subrange(
            at,
            at + literal.len(),
        ) == literal
}

/// One of the literals of a side occurs in `text`, if the side has any.
spec fn side_occurs(branches: Seq<BranchView>, text: Seq<u8>) -> bool {
    branches.len() > 0 ==> exists|b: int|
        0 <= b < branches.len() && occurs_in((#[trigger] branches[b]).literal, text)
}

/// A file is found under the first `k` n-grams if and only if it has all of
/// their keys.
proof fn lemma_branch_ids(
    index: IndexView,
    records: Seq<RecordView>,
    grams: Seq<Seq<u8>>,
    k: int,
)
    requires
        holds_records(index, records),
        1 <= k <= grams.len(),
    ensures
        ids_increasing(branch_ids(index, grams, k)),
        forall|id: u32| #[trigger]
            branch_ids(index, grams, k).contains(id) <==> id < records.len() && forall|j: int|
                0 <= j < k ==> records[id as int].grams.contains(gram_key(#[trigger] grams[j])),
    decreases k,
{
    let here = postings_of(index, gram_key(grams[k - 1]));
    assert(ids_increasing(here));
    if k > 1 {
        lemma_branch_ids(index, records, grams, k - 1);
        intersection_of_increasing(branch_ids(index, grams, k - 1), here);
    }
    assert forall|id: u32| #[trigger]
        branch_ids(index, grams, k).contains(id) <==> id < records.len() && forall|j: int|
            0 <= j < k ==> records[id as int].grams.contains(gram_key(#[trigger] grams[j])) by {
        assert(here.contains(id) <==> id < records.len() && records[id as int].grams.contains(
            gram_key(grams[k - 1]),
        ));
        if k > 1 {
            assert(branch_ids(index, grams, k - 1).contains(id) <==> id < records.len()
                && forall|j: int|
                0 <= j < k - 1 ==> records[id as int].grams.contains(
                    gram_key(#[trigger] grams[j]),
                ));
        }
    }
}

/// The file has every n-gram of the branch, going by their keys.
pub open spec fn has_all_grams(record: RecordView, branch: BranchView) -> bool {
    forall|j: int|
        0 <= j < branch.grams.len() ==> record.grams.contains(gram_key(#[trigger] branch.grams[j]))
}

/// The file has every n-gram of one of the branches. Without branches there is
/// nothing to have.
pub open spec fn passes_side(record: RecordView, branches: Seq<BranchView>) -> bool {
    branches.len() > 0 ==> exists|b: int|
        0 <= b < branches.len() && has_all_grams(record, #[trigger] branches[b])
}

proof fn lemma_side_ids(
    index: IndexView,
    records: Seq<RecordView>,
    branches: Seq<BranchView>,
    k: int,
)
    requires
        holds_records(index, records),
        0 <= k <= branches.len(),
        !has_empty_branch(branches),
    ensures
        ids_increasing(side_ids(index, branches, k)),
        forall|id: u32| #[trigger]
            side_ids(index, branches, k).contains(id) <==> id < records.len() && exists|b: int|
                0 <= b < k && has_all_grams(records[id as int], #[trigger] branches[b]),
    decreases k,
{
    if k > 0 {
        let grams = branches[k - 1].grams;
        let before = side_ids(index, branches, k - 1);
        let here = branch_ids(index, grams, grams.len() as int);
        assert(grams.len() > 0) by {
            if grams.len() == 0 {
                assert(branches[k - 1].grams.len() == 0);
            }
        }
        lemma_side_ids(index, records, branches, k - 1);
        lemma_branch_ids(index, records, grams, grams.len() as int);
        union_of_increasing(before, here);
        assert forall|id: u32| #[trigger]
            side_ids(index, branches, k).contains(id) <==> id < records.len() && exists|b: int|
                0 <= b < k && has_all_grams(records[id as int], #[trigger] branches[b]) by {
            assert(here.contains(id) <==> id < records.len() && has_all_grams(
                records[id as int],
                branches[k - 1],
            ));
            if before.contains(id) {
                let b = choose|b: int|
                    0 <= b < k - 1 && has_all_grams(records[id as int], #[trigger] branches[b]);
                assert(has_all_grams(records[id as int], branches[b]));
            }
        }
    }
}

/// The candidates of a plan are exactly the files that have every covering
/// n-gram of at least one prefix literal and of at least one suffix literal, in
/// increasing order. Where there are none to be had, every file has them.
pub proof fn candidates_are_the_passing_files(
    index: IndexView,
    records: Seq<RecordView>,
    plan: PlanView,
)
    requires
        holds_records(index, records),
        records.len() <= u32::MAX,
        plan.none ==> plan.prefix.len() == 0 && plan.suffix.len() == 0,
    ensures
        ids_increasing(searched_ids(index, plan)),
        forall|id: u32| #[trigger]
            searched_ids(index, plan).contains(id) <==> id < records.len() && passes_side(
                records[id as int],
                plan.prefix,
            ) && passes_side(records[id as int], plan.suffix),
{
    let (p, s) = (side_of(index, plan.prefix), side_of(index, plan.suffix));
    lemma_side(index, records, plan.prefix);
    lemma_side(index, records, plan.suffix);
    if p is Some && s is Some {
        intersection_of_increasing(p->0, s->0);
    }
    let n = records.len();
    assert forall|id: u32| #[trigger] all_ids(n).contains(id) <==> id < n by {
        if id < n {
            assert(all_ids(n)[id as int] == id);
        }
    }
}

/// What one side of a plan lets through.
proof fn lemma_side(index: IndexView, records: Seq<RecordView>, branches: Seq<BranchView>)
    requires
        holds_records(index, records),
    ensures
        match side_of(index, branches) {
            Some(ids) => ids_increasing(ids) && forall|id: u32| #[trigger]
                ids.contains(id) <==> id < records.len() && passes_side(
                    records[id as int],
                    branches,
                ),
            None => forall|i: int|
                0 <= i < records.len() ==> passes_side(#[trigger] records[i], branches),
        },
{
    if branches.len() == 0 {
    } else if has_empty_branch(branches) {
        let b = choose|b: int| 0 <= b < branches.len() && (#[trigger] branches[b]).grams.len() == 0;
        assert forall|i: int| 0 <= i < records.len() implies passes_side(
            #[trigger] records[i],
            branches,
        ) by {
            assert(has_all_grams(records[i], branches[b]));
        }
    } else {
        lemma_side_ids(index, records, branches, branches.len() as int);
    }
}

/// A file whose folded content holds a literal has every n-gram of the
/// literal's branch.
proof fn lemma_literal_passes(record: RecordView, content: Seq<u8>, literal: Seq<u8>)
    requires
        record.grams == content_keys(content),
        occurs_in(literal, fold(content)),
    ensures
        forall|j: int|
            0 <= j < branch_grams(literal).len() ==> record.grams.contains(
                gram_key(#[trigger] branch_grams(literal)[j]),
            ),
{
    let document = fold(content);
    let at = choose|at: int|
        0 <= at && at + literal.len() <= document.len() && #[trigger] document.subrange(
            at,
            at + literal.len(),
        ) == literal;
    let grams = covering_grams(literal, DEFAULT_MAX_NGRAM_LENGTH as int);
    covering_grams_occur_in_document(
        document,
        at,
        at + literal.len(),
        DEFAULT_MAX_NGRAM_LENGTH as int,
    );
    sorted_keeps_the_items(grams);
    without_repeats_keeps_members(sorted(grams));
    content_keys_are_the_gram_keys(content);
    assert forall|j: int| 0 <= j < branch_grams(literal).len() implies record.grams.contains(
        gram_key(#[trigger] branch_grams(literal)[j]),
    ) by {
        let g = branch_grams(literal)[j];
        assert(branch_grams(literal).contains(g));
        assert(sorted(grams).contains(g));
        assert(grams.contains(g));
        let k = grams.index_of(g);
        assert(all_grams(document).contains(grams[k]));
        let m = all_grams(document).index_of(g);
        assert(gram_keys(all_grams(document))[m] == gram_key(g));
        assert(gram_keys(all_grams(document)).contains(gram_key(g)));
    }
}

/// A side of whose literals one occurs in the folded content lets the file
/// through.
proof fn lemma_side_passes(
    record: RecordView,
    content: Seq<u8>,
    literals: Option<Seq<Seq<u8>>>,
)
    requires
        record.grams == content_keys(content),
        side_occurs(branches_of(literals, true), fold(content)),
    ensures
        passes_side(record, branches_of(literals, true)),
{
    let branches = branches_of(literals, true);
    if branches.len() > 0 {
        let b = choose|b: int|
            0 <= b < branches.len() && occurs_in((#[trigger] branches[b]).literal, fold(content));
        lemma_literal_passes(record, content, branches[b].literal);
        assert(branches == literal_branches(literals->0, true));
        assert(branches[b] == branch_of(literals->0[b], true));
        assert(branches[b].grams == branch_grams(branches[b].literal));
        assert(has_all_grams(record, branches[b]));
    }
}

/// Whatever occurs in a part of a text occurs in the text.
proof fn lemma_occurs_in_part(literal: Seq<u8>, text: Seq<u8>, from: int, to: int)
    requires
        0 <= from <= to <= text.len(),
        occurs_in(literal, fold(text.subrange(from, to))),
    ensures
        occurs_in(literal, fold(text)),
{
    let part = fold(text.subrange(from, to));
    let at = choose|at: int|
        0 <= at && at + literal.len() <= part.len() && #[trigger] part.subrange(
            at,
            at + literal.len(),
        ) == literal;
    assert(fold(text).subrange(from + at, from + at + literal.len()) =~= part.subrange(
        at,
        at + literal.len(),
    ));
}

/// Each line is a part of the content.
proof fn lemma_line_is_part(content: Seq<u8>, start: int, k: int)
    requires
        0 <= start <= content.len(),
        0 <= k < lines_from(content, start).len(),
    ensures
        exists|from: int, to: int|
            0 <= from <= to <= content.len() && #[trigger] content.subrange(from, to)
                == lines_from(content, start)[k],
    decreases k,
{
    lemma_line_end_range(content, start);
    let end = line_end(content, start);
    if k == 0 {
        assert(content.subrange(start, end) == lines_from(content, start)[0]);
    } else {
        lemma_line_is_part(content, end + 1, k - 1);
        let (from, to) = choose|from: int, to: int|
            0 <= from <= to <= content.len() && #[trigger] content.subrange(from, to)
                == lines_from(content, end + 1)[k - 1];
        assert(content.subrange(from, to) == lines_from(content, start)[k]);
    }
}

/// Where there are matches there is a line that matches.
proof fn lemma_some_line_matches(
    spans: spec_fn(Seq<u8>) -> Seq<(usize, usize)>,
    lines: Seq<Seq<u8>>,
    k: int,
    path: Seq<char>,
    json: bool,
)
    requires
        0 <= k <= lines.len(),
        line_matches(spans, lines, k, path, json).len() > 0,
    ensures
        exists|i: int| 0 <= i < k && spans(#[trigger] lines[i]).len() > 0,
    decreases k,
{
    if k > 0 && spans(lines[k - 1]).len() == 0 {
        lemma_some_line_matches(spans, lines, k - 1, path, json);
    }
}

/// What is framed by literals of the plan, in a line that is a part of a text,
/// makes the folded text hold a literal of each side.
proof fn lemma_framed_occurs(
    plan: PlanView,
    text: Seq<u8>,
    from: int,
    to: int,
    span: (usize, usize),
)
    requires
        0 <= from <= to <= text.len(),
        is_framed(plan, text.subrange(from, to), span, true),
    ensures
        side_occurs(plan.prefix, fold(text)),
        side_occurs(plan.suffix, fold(text)),
{
    let line = text.subrange(from, to);
    if plan.prefix.len() + plan.suffix.len() > 0 {
        let (s, e) = (from + span.0, from + span.1);
        let found = fold(line.subrange(span.0 as int, span.1 as int));
        assert(found =~= fold(text.subrange(s, e)));
        if plan.prefix.len() > 0 {
            let b = choose|b: int|
                0 <= b < plan.prefix.len() && (#[trigger] plan.prefix[b]).literal.is_prefix_of(
                    found,
                );
            let l = plan.prefix[b].literal;
            assert(found.subrange(0int, 0int + l.len()) == l);
            lemma_occurs_in_part(l, text, s, e);
        }
        if plan.suffix.len() > 0 {
            let b = choose|b: int|
                0 <= b < plan.suffix.len() && (#[trigger] plan.suffix[b]).literal.is_suffix_of(
                    found,
                );
            let l = plan.suffix[b].literal;
            let at = found.len() - l.len();
            assert(found.subrange(at, at + l.len()) == l);
            lemma_occurs_in_part(l, text, s, e);
        }
    }
}

/// A file with a match is let through by the plan that its matches require.
proof fn lemma_matching_file_passes(
    record: RecordView,
    content: Seq<u8>,
    pattern: Seq<char>,
    ignore_case: bool,
    path: Seq<char>,
    json: bool,
)
    requires
        record.grams == content_keys(content),
        plan_is_required(required_plan(pattern, ignore_case), pattern, ignore_case, true),
        content_matches(spans_of_pattern(pattern, ignore_case), content, path, json).len() > 0,
    ensures
        passes_side(record, required_plan(pattern, ignore_case).prefix),
        passes_side(record, required_plan(pattern, ignore_case).suffix),
{
    let spans = spans_of_pattern(pattern, ignore_case);
    let lines = lines_from(content, 0);
    let plan = required_plan(pattern, ignore_case);
    lemma_some_line_matches(spans, lines, lines.len() as int, path, json);
    let k = choose|k: int| 0 <= k < lines.len() && spans(#[trigger] lines[k]).len() > 0;
    lemma_line_is_part(content, 0, k);
    let (from, to) = choose|from: int, to: int|
        0 <= from <= to <= content.len() && #[trigger] content.subrange(from, to) == lines[k];
    let span = pattern_spans(pattern, ignore_case, lines[k])[0];
    assert(is_framed(plan, lines[k], span, true));
    lemma_framed_occurs(plan, content, from, to, span);
    let prefix = prefix_literals(pattern, ignore_case, LITERAL_LIMIT, CLASS_LIMIT);
    let suffix = suffix_literals(pattern, ignore_case, LITERAL_LIMIT, CLASS_LIMIT);
    if ignore_case {
        lemma_side_passes(record, content, lowered(prefix));
        lemma_side_passes(record, content, lowered(suffix));
    } else {
        lemma_side_passes(record, content, prefix);
        lemma_side_passes(record, content, suffix);
    }
}

/// Leaving out files without matches loses nothing.
proof fn lemma_skipping_empty_files(
    index: IndexView,
    spans: spec_fn(Seq<u8>) -> Seq<(usize, usize)>,
    ids: Seq<u32>,
    n: nat,
    contents: Seq<Option<Seq<u8>>>,
    json: bool,
)
    requires
        n <= u32::MAX,
        ids_increasing(ids),
        forall|i: int| 0 <= i < ids.len() ==> (#[trigger] ids[i]) < n,
        forall|id: u32|
            id < n && !ids.contains(id) ==> (#[trigger] id_matches(
                index,
                spans,
                id,
                contents,
                json,
            )).len() == 0,
    ensures
        ids_matches(index, spans, ids, contents, json) == ids_matches(
            index,
            spans,
            all_ids(n),
            contents,
            json,
        ),
    decreases n,
{
    if n == 0 {
        if ids.len() > 0 {
            assert(ids[0] < n);
        }
    } else {
        let m = (n - 1) as nat;
        let last = m as u32;
        assert(all_ids(n).drop_last() =~= all_ids(m));
        assert(all_ids(n).last() == last);
        if ids.contains(last) {
            let k = ids.index_of(last);
            assert(k == ids.len() - 1) by {
                if k < ids.len() - 1 {
                    assert(ids[k] < ids[ids.len() - 1]);
                    assert(ids[ids.len() - 1] < n);
                }
            }
            let rest = ids.drop_last();
            assert forall|i: int| 0 <= i < rest.len() implies (#[trigger] rest[i]) < m by {
                assert(ids[i] < ids[ids.len() - 1]);
            }
            assert forall|id: u32| id < m && !rest.contains(id) implies (#[trigger] id_matches(
                index,
                spans,
                id,
                contents,
                json,
            )).len() == 0 by {
                if ids.contains(id) {
                    let j = ids.index_of(id);
                    assert(rest[j] == id);
                }
            }
            lemma_skipping_empty_files(index, spans, rest, m, contents, json);
        } else {
            assert forall|i: int| 0 <= i < ids.len() implies (#[trigger] ids[i]) < m by {
                assert(ids[i] < n);
                assert(ids.contains(ids[i]));
            }
            lemma_skipping_empty_files(index, spans, ids, m, contents, json);
            let none = id_matches(index, spans, last, contents, json);
            assert(none =~= Seq::empty());
            assert(ids_matches(index, spans, all_ids(m), contents, json) + none =~= ids_matches(
                index,
                spans,
                all_ids(m),
                contents,
                json,
            ));
        }
    }
}

/// Pruning loses no match: every match starts and ends with literals of the
/// pattern's plan, as [`decompose`] and [`widen_candidates`] ensure.
pub proof fn candidates_lose_no_match(
    index: IndexView,
    records: Seq<RecordView>,
    contents: Seq<Option<Seq<u8>>>,
    pattern: Seq<char>,
    ignore_case: bool,
    json: bool,
)
    requires
        holds_records(index, records),
        describes(records, contents),
        records.len() <= u32::MAX,
        plan_is_required(required_plan(pattern, ignore_case), pattern, ignore_case, true),
    ensures
        ids_matches(
            index,
            spans_of_pattern(pattern, ignore_case),
            search_ids(index, pattern, ignore_case),
            contents,
            json,
        ) == ids_matches(
            index,
            spans_of_pattern(pattern, ignore_case),
            all_ids(records.len()),
            contents,
            json,
        ),
{
    let spans = spans_of_pattern(pattern, ignore_case);
    let ids = search_ids(index, pattern, ignore_case);
    let required = searched_ids(index, required_plan(pattern, ignore_case));
    candidates_are_the_passing_files(index, records, search_plan(pattern));
    candidates_are_the_passing_files(index, records, required_plan(pattern, ignore_case));
    if ignore_case {
        union_of_increasing(searched_ids(index, search_plan(pattern)), required);
    }
    assert forall|i: int| 0 <= i < ids.len() implies (#[trigger] ids[i]) < records.len() by {
        assert(ids.contains(ids[i]));
    }
    assert forall|id: u32| id < records.len() && !ids.contains(id) implies (#[trigger] id_matches(
        index,
        spans,
        id,
        contents,
        json,
    )).len() == 0 by {
        if id_matches(index, spans, id, contents, json).len() > 0 {
            let content = contents[id as int]->0;
            assert(records[id as int].grams == content_keys(content));
            assert(!required.contains(id));
            lemma_matching_file_passes(
                records[id as int],
                content,
                pattern,
                ignore_case,
                lossy_text(path_of(index, id as int)->0),
                json,
            );
        }
    }
    lemma_skipping_empty_files(index, spans, ids, records.len(), contents, json);
}

/// What reading the files gave.
pub open spec fn source_contents(files: Seq<SourceView>) -> Seq<Option<Seq<u8>>> {
    files.map_values(|f: SourceView| f.content)
}

/// An index built from readable files, few and small enough for its tables,
/// opens, knows exactly these files, and holds the keys of their contents. So
/// whatever a case-sensitive search of it finds is all there is to find.
pub proof fn built_index_describes_its_files(files: Seq<SourceView>)
    requires
        forall|i: int|
            0 <= i < files.len() ==> (#[trigger] files[i]).meta is Some && files[i].content is Some,
        files.len() <= u32::MAX,
        all_postings(file_records(files, None)).len() <= MAX_POSTINGS,
        entries_fit(record_entries(file_records(files, None))),
    ensures
        ({
            let records = file_records(files, None);
            let t = record_tables(records);
            match open_tables(t.lookup, t.postings, t.files, t.meta) {
                Ok(index) => holds_records(index, records) && describes(
                    records,
                    source_contents(files),
                ) && records.len() == files.len(),
                Err(_) => false,
            }
        }),
{
    let records = file_records(files, None);
    lemma_all_records(files, None);
    assert forall|i: int| 0 <= i < records.len() implies is_increasing(
        (#[trigger] records[i]).grams,
    ) by {
        assert(Some(records[i]) == file_record(files[i], None));
        content_keys_are_the_gram_keys(files[i].content->0);
    }
    built_index_opens(records);
    assert forall|i: int|
        0 <= i < records.len() && i < source_contents(files).len() implies ((
    #[trigger] source_contents(files)[i]) matches Some(c) ==> records[i].grams
        == content_keys(c)) by {
        assert(Some(records[i]) == file_record(files[i], None));
    }
}

/// The matches in the first `k` files, one file after another, without an
/// index.
pub open spec fn brute_force_matches(
    files: Seq<SourceView>,
    spans: spec_fn(Seq<u8>) -> Seq<(usize, usize)>,
    json: bool,
    k: int,
) -> Seq<MatchView>
    decreases k,
{
    if k <= 0 {
        Seq::empty()
    } else {
        brute_force_matches(files, spans, json, k - 1) + match files[k - 1].content {
            Some(content) => content_matches(spans, content, lossy_text(files[k - 1].path), json),
            None => Seq::empty(),
        }
    }
}

proof fn lemma_brute_force(
    index: IndexView,
    files: Seq<SourceView>,
    spans: spec_fn(Seq<u8>) -> Seq<(usize, usize)>,
    json: bool,
    k: nat,
)
    requires
        k <= files.len() <= u32::MAX,
        forall|i: int| 0 <= i < files.len() ==> #[trigger] path_of(index, i) == Some(files[i].path),
    ensures
        ids_matches(index, spans, all_ids(k), source_contents(files), json) == brute_force_matches(
            files,
            spans,
            json,
            k as int,
        ),
    decreases k,
{
    if k > 0 {
        let m = (k - 1) as nat;
        lemma_brute_force(index, files, spans, json, m);
        assert(all_ids(k).drop_last() =~= all_ids(m));
        assert(all_ids(k).last() == m as u32);
        assert(path_of(index, m as int) == Some(files[m as int].path));
        assert(source_contents(files)[m as int] == files[m as int].content);
    }
}

/// Searching all files of a built index is matching the files themselves, one
/// after another. So a case-sensitive search of the index, which finds what
/// searching all its files would, finds what brute force does.
pub proof fn searching_the_index_is_brute_force(
    files: Seq<SourceView>,
    spans: spec_fn(Seq<u8>) -> Seq<(usize, usize)>,
    json: bool,
)
    requires
        forall|i: int|
            0 <= i < files.len() ==> (#[trigger] files[i]).meta is Some && files[i].content is Some
                && stored_path(files[i].path) == files[i].path,
        files.len() <= u32::MAX,
        all_postings(file_records(files, None)).len() <= MAX_POSTINGS,
        entries_fit(record_entries(file_records(files, None))),
    ensures
        ({
            let t = record_tables(file_records(files, None));
            match open_tables(t.lookup, t.postings, t.files, t.meta) {
                Ok(index) => ids_matches(
                    index,
                    spans,
                    all_ids(files.len()),
                    source_contents(files),
                    json,
                ) == brute_force_matches(files, spans, json, files.len() as int),
                Err(_) => false,
            }
        }),
{
    let records = file_records(files, None);
    let t = record_tables(records);
    built_index_describes_its_files(files);
    lemma_all_records(files, None);
    let index = open_tables(t.lookup, t.postings, t.files, t.meta)->Ok_0;
    assert forall|i: int| 0 <= i < files.len() implies #[trigger] path_of(index, i) == Some(
        files[i].path,
    ) by {
        assert(Some(records[i]) == file_record(files[i], None));
    }
    lemma_brute_force(index, files, spans, json, files.len());
}

/// Every file that has an n-gram is listed under its key, whatever other
/// n-grams share the key.
pub proof fn gram_leads_to_its_files(
    index: IndexView,
    records: Seq<RecordView>,
    contents: Seq<Option<Seq<u8>>>,
    id: u32,
    gram: Seq<u8>,
)
    requires
        holds_records(index, records),
        describes(records, contents),
        id < records.len(),
        id < contents.len(),
        contents[id as int] matches Some(c) && all_grams(fold(c)).contains(gram),
    ensures
        postings_of(index, gram_key(gram)).contains(id),
{
    let content = contents[id as int]->0;
    let grams = all_grams(fold(content));
    content_keys_are_the_gram_keys(content);
    let k = grams.index_of(gram);
    assert(gram_keys(grams)[k] == gram_key(gram));
    assert(gram_keys(grams).contains(gram_key(gram)));
    assert(records[id as int].grams == content_keys(content));
}

/// What reading files gave stands for what was read, file by file.
pub proof fn content_views_show_every_content(contents: Seq<Option<Vec<u8>>>)
    ensures
        content_views(contents).len() == contents.len(),
        forall|i: int|
            0 <= i < contents.len() ==> {
                let c = #[trigger] content_views(contents)[i];
                &&& c is Some <==> contents[i] is Some
                &&& contents[i] matches Some(v) ==> c == Some(v@)
            },
{
}

/// All files of an index are those from the first to the last.
pub proof fn all_ids_count_up(count: nat)
    requires
        count <= u32::MAX,
    ensures
        all_ids(count).len() == count,
        forall|i: int| 0 <= i < count ==> #[trigger] all_ids(count)[i] == i,
{
}

/// Files are matched one after another: one more adds its own matches, under
/// its stored path, and nothing if it has no path or could not be read.
pub proof fn one_more_file_adds_its_own_matches(
    index: IndexView,
    spans: spec_fn(Seq<u8>) -> Seq<(usize, usize)>,
    ids: Seq<u32>,
    id: u32,
    contents: Seq<Option<Seq<u8>>>,
    json: bool,
)
    ensures
        ids_matches(index, spans, Seq::empty(), contents, json).len() == 0,
        ids_matches(index, spans, ids.push(id), contents, json) == ids_matches(
            index,
            spans,
            ids,
            contents,
            json,
        ) + if id < contents.len() && contents[id as int] is Some && path_of(
            index,
            id as int,
        ) is Some {
            content_matches(
                spans,
                contents[id as int]->0,
                lossy_text(path_of(index, id as int)->0),
                json,
            )
        } else {
            Seq::empty()
        },
{
    assert(ids.push(id).drop_last() =~= ids);
}

/// A match is among those of the first `k` files if it is one of one of them.
proof fn lemma_brute_force_contains(
    files: Seq<SourceView>,
    spans: spec_fn(Seq<u8>) -> Seq<(usize, usize)>,
    json: bool,
    k: int,
    m: MatchView,
)
    requires
        0 <= k <= files.len(),
    ensures
        brute_force_matches(files, spans, json, k).contains(m) <==> exists|i: int|
            0 <= i < k && (#[trigger] files[i]).content is Some && content_matches(
                spans,
                files[i].content->0,
                lossy_text(files[i].path),
                json,
            ).contains(m),
    decreases k,
{
    if k > 0 {
        lemma_brute_force_contains(files, spans, json, k - 1, m);
        let rest = brute_force_matches(files, spans, json, k - 1);
        let last = match files[k - 1].content {
            Some(content) => content_matches(spans, content, lossy_text(files[k - 1].path), json),
            None => Seq::empty(),
        };
        let all = brute_force_matches(files, spans, json, k);
        assert(all == rest + last);
        if rest.contains(m) {
            assert(all[rest.index_of(m)] == m);
        }
        if last.contains(m) {
            assert(all[rest.len() + last.index_of(m)] == m);
        }
        if all.contains(m) {
            let x = all.index_of(m);
            if x < rest.len() {
                assert(rest[x] == m);
            } else {
                assert(last[x - rest.len()] == m);
            }
        }
    }
}

/// Files that an index can be built of and searched by for this pattern: they
/// can be read, their paths are UTF-8, they are few and small enough for the
/// tables, and every match starts and ends with literals of the pattern's plan,
/// as [`decompose`] and [`widen_candidates`] ensure.
pub open spec fn can_be_searched(
    files: Seq<SourceView>,
    pattern: Seq<char>,
    ignore_case: bool,
) -> bool {
    &&& forall|i: int|
        0 <= i < files.len() ==> (#[trigger] files[i]).meta is Some && files[i].content is Some
            && stored_path(files[i].path) == files[i].path
    &&& files.len() <= u32::MAX
    &&& all_postings(file_records(files, None)).len() <= MAX_POSTINGS
    &&& entries_fit(record_entries(file_records(files, None)))
    &&& plan_is_required(required_plan(pattern, ignore_case), pattern, ignore_case, true)
}

/// What a search of the index with these tables finds in the contents.
pub open spec fn found_in_tables(
    tables: TablesView,
    contents: Seq<Option<Seq<u8>>>,
    pattern: Seq<char>,
    ignore_case: bool,
    json: bool,
) -> Seq<MatchView> {
    let index = open_tables(tables.lookup, tables.postings, tables.files, tables.meta)->Ok_0;
    sorted(
        ids_matches(
            index,
            spans_of_pattern(pattern, ignore_case),
            search_ids(index, pattern, ignore_case),
            contents,
            json,
        ),
    )
}

/// What a search of the index built of `files` finds.
pub open spec fn found_in_built_index(
    files: Seq<SourceView>,
    pattern: Seq<char>,
    ignore_case: bool,
    json: bool,
) -> Seq<MatchView> {
    found_in_tables(
        record_tables(file_records(files, None)),
        source_contents(files),
        pattern,
        ignore_case,
        json,
    )
}

proof fn lemma_found_contains(
    files: Seq<SourceView>,
    pattern: Seq<char>,
    ignore_case: bool,
    json: bool,
    m: MatchView,
)
    requires
        can_be_searched(files, pattern, ignore_case),
    ensures
        found_in_built_index(files, pattern, ignore_case, json).contains(m) <==> exists|i: int|
            0 <= i < files.len() && (#[trigger] files[i]).content is Some && content_matches(
                spans_of_pattern(pattern, ignore_case),
                files[i].content->0,
                lossy_text(files[i].path),
                json,
            ).contains(m),
{
    let spans = spans_of_pattern(pattern, ignore_case);
    let records = file_records(files, None);
    let t = record_tables(records);
    built_index_describes_its_files(files);
    searching_the_index_is_brute_force(files, spans, json);
    candidates_lose_no_match(
        open_tables(t.lookup, t.postings, t.files, t.meta)->Ok_0,
        records,
        source_contents(files),
        pattern,
        ignore_case,
        json,
    );
    let brute = brute_force_matches(files, spans, json, files.len() as int);
    sorted_keeps_the_items(brute);
    lemma_brute_force_contains(files, spans, json, files.len() as int, m);
    assert(brute.contains(m) == sorted(brute).contains(m));
}

/// A search of an index finds every line of every file that the pattern
/// matches, under the path of the file and the number of the line.
pub proof fn search_finds_every_matching_line(
    files: Seq<SourceView>,
    pattern: Seq<char>,
    ignore_case: bool,
    json: bool,
    i: int,
    from: int,
    to: int,
)
    requires
        can_be_searched(files, pattern, ignore_case),
        0 <= i < files.len(),
        is_line(files[i].content->0, from, to),
        newlines_before(files[i].content->0, files[i].content->0.len() as int) < u32::MAX,
        pattern_spans(pattern, ignore_case, files[i].content->0.subrange(from, to)).len() > 0,
    ensures
        exists|k: int|
            0 <= k < found_in_built_index(files, pattern, ignore_case, json).len() && {
                let m = #[trigger] found_in_built_index(files, pattern, ignore_case, json)[k];
                &&& m.path == lossy_text(files[i].path)
                &&& m.line == newlines_before(files[i].content->0, from) + 1
                &&& m.text == lossy_text(files[i].content->0.subrange(from, to))
            },
{
    let spans = spans_of_pattern(pattern, ignore_case);
    let content = files[i].content->0;
    let path = lossy_text(files[i].path);
    let found = found_in_built_index(files, pattern, ignore_case, json);
    let own = content_matches(spans, content, path, json);
    assert(files[i].content is Some);
    every_matching_line_is_reported(spans, content, path, json, from, to);
    every_report_is_a_matching_line(spans, content, path, json);
    assert(spans(content.subrange(from, to)).len() > 0);
    let x = choose|x: int|
        0 <= x < own.len() && (#[trigger] own[x]).line == newlines_before(content, from) + 1;
    assert(own.contains(own[x]));
    lemma_found_contains(files, pattern, ignore_case, json, own[x]);
    let k = found.index_of(own[x]);
    assert(found[k] == own[x]);
}

/// Whatever a search of an index finds is a line of one of its files that the
/// pattern matches, under the path of that file and the number of the line.
pub proof fn search_finds_only_matching_lines(
    files: Seq<SourceView>,
    pattern: Seq<char>,
    ignore_case: bool,
    json: bool,
    k: int,
) -> (place: (int, int, int))
    requires
        can_be_searched(files, pattern, ignore_case),
        forall|i: int|
            0 <= i < files.len() ==> newlines_before(
                (#[trigger] files[i]).content->0,
                files[i].content->0.len() as int,
            ) < u32::MAX,
        0 <= k < found_in_built_index(files, pattern, ignore_case, json).len(),
    ensures
        ({
            let m = found_in_built_index(files, pattern, ignore_case, json)[k];
            let (i, from, to) = place;
            &&& 0 <= i < files.len()
            &&& is_line(files[i].content->0, from, to)
            &&& pattern_spans(pattern, ignore_case, files[i].content->0.subrange(from, to)).len()
                > 0
            &&& m.path == lossy_text(files[i].path)
            &&& m.line == newlines_before(files[i].content->0, from) + 1
            &&& m.text == lossy_text(files[i].content->0.subrange(from, to))
        }),
{
    let spans = spans_of_pattern(pattern, ignore_case);
    let found = found_in_built_index(files, pattern, ignore_case, json);
    let m = found[k];
    assert(found.contains(m));
    lemma_found_contains(files, pattern, ignore_case, json, m);
    let i = choose|i: int|
        0 <= i < files.len() && (#[trigger] files[i]).content is Some && content_matches(
            spans,
            files[i].content->0,
            lossy_text(files[i].path),
            json,
        ).contains(m);
    let content = files[i].content->0;
    let path = lossy_text(files[i].path);
    let own = content_matches(spans, content, path, json);
    let places = every_report_is_a_matching_line(spans, content, path, json);
    let x = own.index_of(m);
    assert(own[x] == m);
    assert(spans(content.subrange(places[x].0, places[x].1)) == pattern_spans(
        pattern,
        ignore_case,
        content.subrange(places[x].0, places[x].1),
    ));
    (i, places[x].0, places[x].1)
}

/// A search reports as often as the lines of the files call for: it finds as
/// many matches as there are in the files, added up one file after another.
pub proof fn search_finds_each_line_once(
    files: Seq<SourceView>,
    pattern: Seq<char>,
    ignore_case: bool,
    json: bool,
    k: int,
)
    requires
        can_be_searched(files, pattern, ignore_case),
        0 <= k < files.len(),
    ensures
        ({
            let spans = spans_of_pattern(pattern, ignore_case);
            let n = files.len() as int;
            &&& found_in_built_index(files, pattern, ignore_case, json).to_multiset()
                == brute_force_matches(files, spans, json, n).to_multiset()
            &&& found_in_built_index(files, pattern, ignore_case, json).len()
                == brute_force_matches(files, spans, json, n).len()
            &&& brute_force_matches(files, spans, json, 0).len() == 0
            &&& brute_force_matches(files, spans, json, k + 1) == brute_force_matches(
                files,
                spans,
                json,
                k,
            ) + content_matches(spans, files[k].content->0, lossy_text(files[k].path), json)
        }),
{
    let spans = spans_of_pattern(pattern, ignore_case);
    let records = file_records(files, None);
    let t = record_tables(records);
    built_index_describes_its_files(files);
    searching_the_index_is_brute_force(files, spans, json);
    candidates_lose_no_match(
        open_tables(t.lookup, t.postings, t.files, t.meta)->Ok_0,
        records,
        source_contents(files),
        pattern,
        ignore_case,
        json,
    );
    sorted_keeps_the_items(brute_force_matches(files, spans, json, files.len() as int));
    assert(files[k].content is Some);
}

/// The files that a search looks at are those that have every n-gram of a
/// prefix literal and of a suffix literal of the pattern, in increasing order;
/// if it goes without case, also those that have them as the pattern is read
/// without case. Of a side without literals there is nothing to have.
pub proof fn search_looks_at_the_candidates_alone(
    index: IndexView,
    records: Seq<RecordView>,
    pattern: Seq<char>,
    ignore_case: bool,
    id: u32,
)
    requires
        holds_records(index, records),
        records.len() <= u32::MAX,
    ensures
        ids_increasing(search_ids(index, pattern, ignore_case)),
        ({
            let plan = plan_of(
                prefix_literals(pattern, false, 128, 16),
                suffix_literals(pattern, false, 128, 16),
                true,
            );
            let wide = plan_of(
                lowered(prefix_literals(pattern, true, 128, 16)),
                lowered(suffix_literals(pattern, true, 128, 16)),
                true,
            );
            let record = records[id as int];
            search_ids(index, pattern, ignore_case).contains(id) <==> id < records.len() && ((
            passes_side(record, plan.prefix) && passes_side(record, plan.suffix)) || (ignore_case
                && passes_side(record, wide.prefix) && passes_side(record, wide.suffix)))
        }),
{
    let (a, b) = (search_plan(pattern), caseless_plan(pattern));
    candidates_are_the_passing_files(index, records, a);
    candidates_are_the_passing_files(index, records, b);
    union_of_increasing(searched_ids(index, a), searched_ids(index, b));
    assert(searched_ids(index, a).contains(id) <==> id < records.len() && passes_side(
        records[id as int],
        a.prefix,
    ) && passes_side(records[id as int], a.suffix));
    assert(searched_ids(index, b).contains(id) <==> id < records.len() && passes_side(
        records[id as int],
        b.prefix,
    ) && passes_side(records[id as int], b.suffix));
}

/// After an update, a search sees the files as they are now. An index built from
/// `earlier` files and updated to `later` ones is searched like one built from
/// the later files: it finds every line of theirs that the pattern matches.
pub proof fn search_after_update_sees_the_new_content(
    earlier: Seq<SourceView>,
    later: Seq<SourceView>,
    pattern: Seq<char>,
    ignore_case: bool,
    json: bool,
    i: int,
    from: int,
    to: int,
)
    requires
        cache_file(file_records(earlier, None)).len() <= u64::MAX,
        forall|j: int, k: int|
            0 <= j < earlier.len() && 0 <= k < later.len() ==> is_honest_version(
                #[trigger] earlier[j],
                #[trigger] later[k],
            ),
        can_be_searched(later, pattern, ignore_case),
        0 <= i < later.len(),
        is_line(later[i].content->0, from, to),
        newlines_before(later[i].content->0, later[i].content->0.len() as int) < u32::MAX,
        pattern_spans(pattern, ignore_case, later[i].content->0.subrange(from, to)).len() > 0,
    ensures
        ({
            let updated = file_records(later, cache_of(cache_file(file_records(earlier, None))));
            let found = found_in_tables(
                record_tables(updated),
                source_contents(later),
                pattern,
                ignore_case,
                json,
            );
            exists|k: int|
                0 <= k < found.len() && {
                    let m = #[trigger] found[k];
                    &&& m.path == lossy_text(later[i].path)
                    &&& m.line == newlines_before(later[i].content->0, from) + 1
                    &&& m.text == lossy_text(later[i].content->0.subrange(from, to))
                }
        }),
{
    update_after_build_equals_fresh_build(earlier, later);
    search_finds_every_matching_line(later, pattern, ignore_case, json, i, from, to);
    let found = found_in_built_index(later, pattern, ignore_case, json);
    let k = choose|k: int|
        0 <= k < found.len() && {
            let m = #[trigger] found[k];
            &&& m.path == lossy_text(later[i].path)
            &&& m.line == newlines_before(later[i].content->0, from) + 1
            &&& m.text == lossy_text(later[i].content->0.subrange(from, to))
        };
    let updated = file_records(later, cache_of(cache_file(file_records(earlier, None))));
    assert(found_in_tables(
        record_tables(updated),
        source_contents(later),
        pattern,
        ignore_case,
        json,
    )[k] == found[k]);
}

} // verus!
