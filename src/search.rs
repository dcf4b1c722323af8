use vstd::prelude::*;
use vstd::string::StringExecFns;
use vstd::utf8::encode_utf8;

use crate::text::{
    chars_of, find_occurrences, is_blank, is_blank_text, lines_from, lines_of, next_line,
    occurrences, positions,
};

verus! {

/// The number of matches past which a search stops scanning.
pub const MATCH_CAP: usize = 10000;

/// A half-open byte range `[start, end)` within one line.
#[derive(Clone, Copy, Debug, PartialEq, Eq)]
pub struct MatchRange {
    pub start: usize,
    pub end: usize,
}

/// A line with at least one match: its 1-based number, its full text, and
/// its matches from left to right.
#[derive(Debug)]
pub struct SearchMatch {
    pub line_number: usize,
    pub line: String,
    pub matches: Vec<MatchRange>,
}

/// The outcome of a search: the number of matches counted, the matching
/// lines in ascending order, and the time the search took.
#[derive(Debug)]
pub struct SearchResult {
    pub count: usize,
    pub matches: Vec<SearchMatch>,
    pub duration_ms: u128,
}

/// A matching line as a value: line number, line text, and byte ranges.
pub type LineHits = (int, Seq<char>, Seq<(int, int)>);

/// The ranges of a line as pairs of integers.
pub open spec fn ranges_view(v: Seq<MatchRange>) -> Seq<(int, int)> {
    v.map_values(|m: MatchRange| (m.start as int, m.end as int))
}

impl View for SearchMatch {
    type V = LineHits;

    open spec fn view(&self) -> LineHits {
        (self.line_number as int, self.line@, ranges_view(self.matches@))
    }
}

/// The matching lines as values.
pub open spec fn hits_view(v: Seq<SearchMatch>) -> Seq<LineHits> {
    v.map_values(|m: SearchMatch| m@)
}

/// `a + b`, held at the largest `usize` where it would exceed it.
pub open spec fn capped_sum(a: int, b: int) -> int {
    if a + b > usize::MAX {
        usize::MAX as int
    } else {
        a + b
    }
}

/// The matches reported for each line and the running count, from line
/// index `i` on, where `count` matches have been counted before it.
/// `hits(line, budget)` gives the ranges found on a line where `budget` more
/// matches take the count past the cap. Only lines with a match are
/// reported; once the count exceeds the cap no further line is scanned.
pub open spec fn scan_lines(
    lines: Seq<Seq<char>>,
    hits: spec_fn(Seq<char>, int) -> Seq<(int, int)>,
    i: int,
    count: int,
) -> (Seq<LineHits>, int)
    decreases lines.len() - i,
{
    if i < 0 || i >= lines.len() || count > MATCH_CAP {
        (seq![], count)
    } else {
        let spans = hits(lines[i], MATCH_CAP + 1 - count);
        let rest = scan_lines(lines, hits, i + 1, capped_sum(count, spans.len() as int));
        if spans.len() > 0 {
            (seq![(i + 1, lines[i], spans)] + rest.0, rest.1)
        } else {
            rest
        }
    }
}

/// The lowercase form of a text, as `str::to_lowercase` gives it.
pub uninterp spec fn lower_of(s: Seq<char>) -> Seq<char>;

/// Relies on `str::to_lowercase`: the result depends on the characters alone.
#[verifier::external_body]
fn to_lower(s: &str) -> (r: String)
    ensures
        r@ == lower_of(s@),
{
    s.to_lowercase()
}

/// The ranges that fast search reports on one line, given the lowercase
/// bytes of the line and of the query and the byte length of the query as
/// typed: the first `budget` occurrences of the lowercase query in the
/// lowercase line, each from its position to that position plus the query's
/// length.
pub open spec fn fast_line_spans(lowered_line: Seq<u8>, lowered_query: Seq<u8>, query_len: int, budget: int) -> Seq<(int, int)> {
    let occ = occurrences(lowered_line, lowered_query, 0);
    let k = if occ.len() < budget { occ.len() as int } else { budget };
    occ.take(k).map_values(|p: int| (p, capped_sum(p, query_len)))
}

/// What fast search finds on each line for the query `q`.
pub open spec fn fast_hits(q: Seq<char>) -> spec_fn(Seq<char>, int) -> Seq<(int, int)> {
    |line: Seq<char>, budget: int|
        fast_line_spans(
            encode_utf8(lower_of(line)),
            encode_utf8(lower_of(q)),
            (encode_utf8(q).len() as usize) as int,
            budget,
        )
}

/// The ranges on one line for fast search, from the lowercase line, the
/// lowercase query, and the byte length of the query as typed.
pub fn fast_line_ranges(lowered_line: &str, lowered_query: &str, query_len: usize, budget: usize) -> (r: Vec<MatchRange>)
    ensures
        ranges_view(r@) == fast_line_spans(
            encode_utf8(lowered_line@),
            encode_utf8(lowered_query@),
            query_len as int,
            budget as int,
        ),
{
    let hay = lowered_line.as_bytes();
    let needle = lowered_query.as_bytes();
    let found = find_occurrences(hay, needle, budget);
    let ghost occ = occurrences(hay@, needle@, 0);
    let mut out: Vec<MatchRange> = Vec::new();
    let mut j: usize = 0;
    while j < found.len()
        invariant
            j <= found.len(),
            out@.len() == j,
            forall|k: int|
                0 <= k < j ==> (#[trigger] out@[k]).start == found@[k] && out@[k].end as int
                    == capped_sum(found@[k] as int, query_len as int),
        decreases found.len() - j,
    {
        let p = found[j];
        let end = if p > usize::MAX - query_len {
            usize::MAX
        } else {
            p + query_len
        };
        out.push(MatchRange { start: p, end });
        j = j + 1;
    }
    proof {
        let k = if occ.len() < budget { occ.len() as int } else { budget as int };
        assert(positions(found@) == occ.take(k));
        assert(ranges_view(out@) =~= occ.take(k).map_values(
            |p: int| (p, capped_sum(p, query_len as int)),
        ));
    }
    out
}

/// Case-insensitive literal search of `query` in each line of `text`.
fn scan_fast(text: &str, query: &str) -> (r: (usize, Vec<SearchMatch>))
    ensures
        (hits_view(r.1@), r.0 as int) == scan_lines(lines_of(text@), fast_hits(query@), 0, 0),
{
    let ghost lines = lines_of(text@);
    let ghost hits = fast_hits(query@);
    let lowered_query = to_lower(query);
    let query_len = query.len();
    let chars = chars_of(text);
    let mut matches: Vec<SearchMatch> = Vec::new();
    let mut count: usize = 0;
    let mut pos: usize = 0;
    let mut line_index: usize = 0;
    proof {
        assert(lines.skip(0) =~= lines);
        assert(hits_view(matches@) + scan_lines(lines, hits, 0, 0).0 =~= scan_lines(
            lines,
            hits,
            0,
            0,
        ).0);
    }
    while pos < chars.len() && count <= MATCH_CAP
        invariant
            chars@ == text@,
            lines == lines_of(text@),
            hits == fast_hits(query@),
            lowered_query@ == lower_of(query@),
            query_len as int == (encode_utf8(query@).len() as usize) as int,
            pos <= chars.len(),
            line_index <= pos,
            line_index <= lines.len(),
            lines_from(chars@, pos as int, pos as int) == lines.skip(line_index as int),
            scan_lines(lines, hits, 0, 0) == (
                hits_view(matches@) + scan_lines(lines, hits, line_index as int, count as int).0,
                scan_lines(lines, hits, line_index as int, count as int).1,
            ),
        decreases chars.len() - pos,
    {
        let (line, next) = next_line(&chars, pos);
        let ghost i = line_index as int;
        proof {
            assert(lines.skip(i).len() > 0);
            assert(lines.skip(i)[0] == lines[i]);
            assert(lines.skip(i).drop_first() =~= lines.skip(i + 1));
        }
        let lowered_line = to_lower(line.as_str());
        let ranges = fast_line_ranges(lowered_line.as_str(), lowered_query.as_str(), query_len, MATCH_CAP + 1 - count);
        let ghost before = matches@;
        let ghost spans = hits(lines[i], MATCH_CAP + 1 - count);
        assert(ranges_view(ranges@) == spans);
        let n = ranges.len();
        if n > 0 {
            let m = SearchMatch { line_number: line_index + 1, line, matches: ranges };
            matches.push(m);
            proof {
                assert(hits_view(matches@) =~= hits_view(before).push((i + 1, lines[i], spans)));
                assert(hits_view(matches@) + scan_lines(lines, hits, i + 1, count + n).0 =~= hits_view(
                    before,
                ) + (seq![(i + 1, lines[i], spans)] + scan_lines(lines, hits, i + 1, count + n).0));
            }
        }
        count = count + n;
        pos = next;
        line_index = line_index + 1;
    }
    proof {
        let i = line_index as int;
        if count <= MATCH_CAP {
            assert(lines_from(chars@, pos as int, pos as int) =~= seq![]);
            assert(lines.skip(i).len() == 0);
        }
        assert(scan_lines(lines, hits, i, count as int).0 =~= seq![]);
        assert(hits_view(matches@) + seq![] =~= hits_view(matches@));
    }
    (count, matches)
}

/// Whether `regex::Regex::new` accepts the expression `pattern`.
pub uninterp spec fn pattern_is_valid(pattern: Seq<char>) -> bool;

/// The byte ranges of the successive matches of the expression `pattern` in
/// `line`, as `regex::Regex::find_iter` yields them.
pub uninterp spec fn regex_spans(pattern: Seq<char>, line: Seq<char>) -> Seq<(int, int)>;

#[verifier::external_type_specification]
#[verifier::external_body]
pub struct ExRegex(regex::Regex);

#[verifier::external_type_specification]
#[verifier::external_body]
pub struct ExInstant(std::time::Instant);

/// Relies on `Instant::now`: the clock is read; nothing is known of the value.
pub assume_specification[ std::time::Instant::now ]() -> std::time::Instant;

/// Relies on `Instant::elapsed`: the time since the instant; nothing is known
/// of the value.
pub assume_specification[ std::time::Instant::elapsed ](i: &std::time::Instant) -> std::time::Duration;

/// Relies on `Duration::as_millis`: the whole milliseconds of a duration.
pub assume_specification[ core::time::Duration::as_millis ](d: &core::time::Duration) -> u128;

/// A compiled regular expression together with the text it was compiled from.
pub struct Pattern {
    source: String,
    re: regex::Regex,
}

impl View for Pattern {
    type V = Seq<char>;

    closed spec fn view(&self) -> Seq<char> {
        self.source@
    }
}

/// Relies on `regex::Regex::new`: it compiles `source`, and fails exactly
/// where `source` is not an expression it accepts; the error's text is its
/// diagnostic.
#[verifier::external_body]
fn compile_pattern(source: &str) -> (r: Result<Pattern, String>)
    ensures
        r is Ok <==> pattern_is_valid(source@),
        r matches Ok(p) ==> p@ == source@,
{
    match regex::Regex::new(source) {
        Ok(re) => Ok(Pattern { source: source.to_string(), re }),
        Err(e) => Err(e.to_string()),
    }
}

/// The pairs as pairs of integers.
pub open spec fn pair_positions(v: Seq<(usize, usize)>) -> Seq<(int, int)> {
    v.map_values(|p: (usize, usize)| (p.0 as int, p.1 as int))
}

/// Relies on `regex::Regex::find_iter`, `Match::start` and `Match::end`: the
/// successive non-overlapping matches in `line`, left to right, each as a
/// byte range with start at most end, within the line.
#[verifier::external_body]
fn find_spans(p: &Pattern, line: &str) -> (r: Vec<(usize, usize)>)
    ensures
        pair_positions(r@) == regex_spans(p@, line@),
        forall|k: int| 0 <= k < r@.len() ==> (#[trigger] r@[k]).0 <= r@[k].1 <= encode_utf8(line@).len(),
        forall|k: int| 0 < k < r@.len() ==> r@[k - 1].1 <= (#[trigger] r@[k]).0,
{
    p.re.find_iter(line).map(|m| (m.start(), m.end())).collect()
}

/// What regex search finds on each line for the expression `pattern`: all
/// of its matches, whatever the budget.
pub open spec fn regex_hits(pattern: Seq<char>) -> spec_fn(Seq<char>, int) -> Seq<(int, int)> {
    |line: Seq<char>, budget: int| regex_spans(pattern, line)
}

/// The pairs as match ranges.
fn ranges_of(spans: &Vec<(usize, usize)>) -> (r: Vec<MatchRange>)
    ensures
        ranges_view(r@) == pair_positions(spans@),
        forall|k: int| 0 <= k < r@.len() ==> (#[trigger] r@[k]).start == spans@[k].0 && r@[k].end == spans@[k].1,
{
    let mut out: Vec<MatchRange> = Vec::new();
    let mut j: usize = 0;
    while j < spans.len()
        invariant
            j <= spans.len(),
            out@.len() == j,
            forall|k: int| 0 <= k < j ==> (#[trigger] out@[k]).start == spans@[k].0 && out@[k].end == spans@[k].1,
        decreases spans.len() - j,
    {
        out.push(MatchRange { start: spans[j].0, end: spans[j].1 });
        j = j + 1;
    }
    proof {
        assert(ranges_view(out@) =~= pair_positions(spans@));
    }
    out
}

/// Regular-expression search of `pattern` in each line of `text`.
fn scan_regex(text: &str, pattern: &Pattern) -> (r: (usize, Vec<SearchMatch>))
    ensures
        (hits_view(r.1@), r.0 as int) == scan_lines(lines_of(text@), regex_hits(pattern@), 0, 0),
        forall|k: int, j: int| 0 <= k < r.1@.len() && 0 <= j < r.1@[k].matches@.len() ==>
            (#[trigger] r.1@[k].matches@[j]).start <= r.1@[k].matches@[j].end <= encode_utf8(r.1@[k].line@).len(),
{
    let ghost lines = lines_of(text@);
    let ghost hits = regex_hits(pattern@);
    let chars = chars_of(text);
    let mut matches: Vec<SearchMatch> = Vec::new();
    let mut count: usize = 0;
    let mut pos: usize = 0;
    let mut line_index: usize = 0;
    proof {
        assert(lines.skip(0) =~= lines);
        assert(hits_view(matches@) + scan_lines(lines, hits, 0, 0).0 =~= scan_lines(
            lines,
            hits,
            0,
            0,
        ).0);
    }
    while pos < chars.len() && count <= MATCH_CAP
        invariant
            chars@ == text@,
            lines == lines_of(text@),
            hits == regex_hits(pattern@),
            pos <= chars.len(),
            line_index <= pos,
            line_index <= lines.len(),
            lines_from(chars@, pos as int, pos as int) == lines.skip(line_index as int),
            scan_lines(lines, hits, 0, 0) == (
                hits_view(matches@) + scan_lines(lines, hits, line_index as int, count as int).0,
                scan_lines(lines, hits, line_index as int, count as int).1,
            ),
            forall|k: int, j: int| 0 <= k < matches@.len() && 0 <= j < matches@[k].matches@.len() ==>
                (#[trigger] matches@[k].matches@[j]).start <= matches@[k].matches@[j].end <= encode_utf8(matches@[k].line@).len(),
        decreases chars.len() - pos,
    {
        let (line, next) = next_line(&chars, pos);
        let ghost i = line_index as int;
        proof {
            assert(lines.skip(i).len() > 0);
            assert(lines.skip(i)[0] == lines[i]);
            assert(lines.skip(i).drop_first() =~= lines.skip(i + 1));
        }
        let spans = find_spans(pattern, line.as_str());
        let ranges = ranges_of(&spans);
        let ghost before = matches@;
        let ghost line_spans = hits(lines[i], MATCH_CAP + 1 - count);
        assert(ranges_view(ranges@) == line_spans);
        let n = ranges.len();
        let next_count = if n > usize::MAX - count {
            usize::MAX
        } else {
            count + n
        };
        if n > 0 {
            let m = SearchMatch { line_number: line_index + 1, line, matches: ranges };
            matches.push(m);
            proof {
                assert(hits_view(matches@) =~= hits_view(before).push((i + 1, lines[i], line_spans)));
                assert(hits_view(matches@) + scan_lines(lines, hits, i + 1, next_count as int).0 =~= hits_view(
                    before,
                ) + (seq![(i + 1, lines[i], line_spans)] + scan_lines(lines, hits, i + 1, next_count as int).0));
            }
        }
        count = next_count;
        pos = next;
        line_index = line_index + 1;
    }
    proof {
        let i = line_index as int;
        if count <= MATCH_CAP {
            assert(lines_from(chars@, pos as int, pos as int) =~= seq![]);
            assert(lines.skip(i).len() == 0);
        }
        assert(scan_lines(lines, hits, i, count as int).0 =~= seq![]);
        assert(hits_view(matches@) + seq![] =~= hits_view(matches@));
    }
    (count, matches)
}

/// The two matching strategies.
#[derive(Clone, Copy, Debug, PartialEq, Eq)]
pub enum SearchMode {
    /// The query is a regular expression, matched case-sensitively unless it
    /// asks otherwise.
    Regex,
    /// The query is literal text, matched without regard to case.
    FastSubstring,
}

/// Why a search could not run.
#[derive(Debug, PartialEq, Eq)]
pub enum SearchError {
    /// The query is not a valid regular expression; the text says why.
    InvalidPattern(String),
}

impl SearchError {
    /// The error as a sentence.
    pub fn message(&self) -> (r: String)
        ensures
            self matches SearchError::InvalidPattern(d) ==> r@ == invalid_pattern_text(d@),
    {
        match self {
            SearchError::InvalidPattern(d) => {
                let mut m = String::new();
                m.append("Invalid regex pattern: ");
                m.append(d.as_str());
                proof {
                    assert(m@ =~= invalid_pattern_text(d@));
                }
                m
            },
        }
    }
}

/// The message for an expression that does not compile, with the diagnostic
/// `d`.
pub open spec fn invalid_pattern_text(d: Seq<char>) -> Seq<char> {
    "Invalid regex pattern: "@ + d
}

/// The lines and count that a search for `query` in `text` reports, for a
/// query that is not blank.
pub open spec fn search_outcome(text: Seq<char>, query: Seq<char>, mode: SearchMode) -> (Seq<LineHits>, int) {
    match mode {
        SearchMode::Regex => scan_lines(lines_of(text), regex_hits(query), 0, 0),
        SearchMode::FastSubstring => scan_lines(lines_of(text), fast_hits(query), 0, 0),
    }
}

/// Whether `res` reports `outcome`.
pub open spec fn reports(res: SearchResult, outcome: (Seq<LineHits>, int)) -> bool {
    hits_view(res.matches@) == outcome.0 && res.count as int == outcome.1
}

/// Whether each range of `res` lies within its line.
pub open spec fn ranges_within_lines(res: SearchResult) -> bool {
    forall|k: int, j: int|
        0 <= k < res.matches@.len() && 0 <= j < res.matches@[k].matches@.len() ==> (
        #[trigger] res.matches@[k].matches@[j]).start <= res.matches@[k].matches@[j].end
            <= encode_utf8(res.matches@[k].line@).len()
}

/// The empty result of a blank query.
pub open spec fn is_empty_result(res: SearchResult) -> bool {
    res.count == 0 && res.matches@.len() == 0 && res.duration_ms == 0
}

/// Searches `text`, line by line, for `query` in the given mode.
///
/// A blank query matches nothing and returns at once, with no time taken.
/// Otherwise the result lists each line with a match, in order, and the
/// number of matches, as `search_outcome` gives them; scanning stops once
/// that number exceeds `MATCH_CAP`. The only failure is a regular expression
/// that does not compile.
pub fn search(text: &str, query: &str, mode: SearchMode) -> (r: Result<SearchResult, SearchError>)
    ensures
        is_blank_text(query@) ==> (r matches Ok(res) && is_empty_result(res)),
        !is_blank_text(query@) ==> (r is Ok <==> (mode == SearchMode::FastSubstring
            || pattern_is_valid(query@))),
        !is_blank_text(query@) ==> (r matches Ok(res) ==> reports(res, search_outcome(text@, query@, mode))),
        r matches Ok(res) ==> (mode == SearchMode::Regex ==> ranges_within_lines(res)),
{
    let start = std::time::Instant::now();
    if is_blank(query) {
        return Ok(SearchResult { count: 0, matches: Vec::new(), duration_ms: 0 });
    }
    let (count, matches) = match mode {
        SearchMode::Regex => {
            let pattern = match compile_pattern(query) {
                Ok(p) => p,
                Err(d) => {
                    return Err(SearchError::InvalidPattern(d));
                },
            };
            scan_regex(text, &pattern)
        },
        SearchMode::FastSubstring => scan_fast(text, query),
    };
    let duration_ms = start.elapsed().as_millis();
    Ok(SearchResult { count, matches, duration_ms })
}

/// Regular-expression search of `search_term` in `json_response`; see
/// `search`. An expression that does not compile gives its message.
pub fn perform_search(json_response: String, search_term: String) -> (r: Result<SearchResult, String>)
    ensures
        is_blank_text(search_term@) ==> (r matches Ok(res) && is_empty_result(res)),
        !is_blank_text(search_term@) ==> (r is Ok <==> pattern_is_valid(search_term@)),
        !is_blank_text(search_term@) ==> (r matches Ok(res) ==> reports(
            res,
            search_outcome(json_response@, search_term@, SearchMode::Regex),
        )),
        r matches Err(m) ==> exists|d: Seq<char>| m@ == #[trigger] invalid_pattern_text(d),
{
    match search(json_response.as_str(), search_term.as_str(), SearchMode::Regex) {
        Ok(res) => Ok(res),
        Err(e) => {
            let m = e.message();
            Err(m)
        },
    }
}

/// Case-insensitive literal search of `search_term` in `json_response`; see
/// `search`. It always succeeds.
pub fn perform_fast_search(json_response: String, search_term: String) -> (r: Result<SearchResult, String>)
    ensures
        r is Ok,
        is_blank_text(search_term@) ==> (r matches Ok(res) && is_empty_result(res)),
        !is_blank_text(search_term@) ==> (r matches Ok(res) && reports(
            res,
            search_outcome(json_response@, search_term@, SearchMode::FastSubstring),
        )),
{
    match search(json_response.as_str(), search_term.as_str(), SearchMode::FastSubstring) {
        Ok(res) => Ok(res),
        Err(e) => {
            let m = e.message();
            Err(m)
        },
    }
}

} // verus!
