//! Splitting text into lines, filtering them by search and ignore terms, and
//! extracting a delimited span of each.
use vstd::prelude::*;
use crate::text::{
    chars_of, contains, copy_range, find, find_from, lemma_found_occurs, lemma_occurs_found,
    lemma_trim_bounds, lemma_trim_idempotent, occurs_at, string_of, trim, trimmed, white_space,
};

verus! {

/// Why a span could not be taken out of a line.
#[derive(Debug, Clone, Copy, PartialEq, Eq, Structural)]
pub enum ExtractError {
    /// One marker is empty and the other is not.
    MismatchedMarkers,
    /// The begin marker does not occur in the line.
    BeginNotFound,
    /// The end marker does not occur after the begin marker.
    EndNotFound,
}

/// The views of a sequence of character vectors.
pub open spec fn views(v: Seq<Vec<char>>) -> Seq<Seq<char>> {
    v.map_values(|x: Vec<char>| x@)
}

/// The views of a sequence of strings.
pub open spec fn string_views(v: Seq<String>) -> Seq<Seq<char>> {
    v.map_values(|x: String| x@)
}

/// The pieces of `s` between occurrences of `d`, in order; there is always
/// one more piece than there are occurrences.
pub open spec fn split_on(s: Seq<char>, d: char) -> Seq<Seq<char>>
    decreases s.len(),
{
    if s.len() == 0 {
        seq![Seq::<char>::empty()]
    } else {
        let init = split_on(s.drop_last(), d);
        if s.last() == d {
            init.push(Seq::<char>::empty())
        } else {
            init.update(init.len() - 1, init.last().push(s.last()))
        }
    }
}

proof fn lemma_split_nonempty(s: Seq<char>, d: char)
    ensures
        split_on(s, d).len() >= 1,
    decreases s.len(),
{
    if s.len() > 0 {
        lemma_split_nonempty(s.drop_last(), d);
    }
}

/// The pieces of `s` between occurrences of `d`.
pub fn split(s: &[char], d: char) -> (r: Vec<Vec<char>>)
    ensures
        views(r@) == split_on(s@, d),
{
    let mut parts: Vec<Vec<char>> = Vec::new();
    let mut cur: Vec<char> = Vec::new();
    let mut i: usize = 0;
    assert(s@.take(0) =~= Seq::<char>::empty());
    assert(views(parts@).push(cur@) =~= split_on(s@.take(0), d));
    while i < s.len()
        invariant
            i <= s@.len(),
            views(parts@).push(cur@) == split_on(s@.take(i as int), d),
        decreases s@.len() - i,
    {
        let ghost before = split_on(s@.take(i as int), d);
        proof {
            lemma_split_nonempty(s@.take(i as int), d);
        }
        assert(s@.take(i + 1).drop_last() =~= s@.take(i as int));
        let c = s[i];
        if c == d {
            parts.push(cur);
            cur = Vec::new();
        } else {
            cur.push(c);
        }
        i = i + 1;
        assert(views(parts@).push(cur@) =~= split_on(s@.take(i as int), d));
    }
    assert(s@.take(s@.len() as int) =~= s@);
    parts.push(cur);
    assert(views(parts@) =~= split_on(s@, d));
    parts
}

/// Trimmed pieces that are not empty, in order.
pub open spec fn nonblank_trimmed(parts: Seq<Seq<char>>) -> Seq<Seq<char>>
    decreases parts.len(),
{
    if parts.len() == 0 {
        Seq::empty()
    } else {
        let init = nonblank_trimmed(parts.drop_last());
        let t = trim(parts.last());
        if t.len() > 0 {
            init.push(t)
        } else {
            init
        }
    }
}

/// The terms of a comma-separated list: each trimmed, empty ones left out.
pub open spec fn terms_of(s: Seq<char>) -> Seq<Seq<char>> {
    nonblank_trimmed(split_on(s, ','))
}

/// The terms of the comma-separated list `s`.
pub fn parse_terms(s: &str) -> (r: Vec<Vec<char>>)
    ensures
        views(r@) == terms_of(s@),
{
    let cs = chars_of(s);
    let parts = split(cs.as_slice(), ',');
    let mut terms: Vec<Vec<char>> = Vec::new();
    let mut i: usize = 0;
    while i < parts.len()
        invariant
            i <= parts@.len(),
            views(parts@) == split_on(s@, ','),
            views(terms@) == nonblank_trimmed(views(parts@).take(i as int)),
        decreases parts@.len() - i,
    {
        assert(views(parts@).take(i + 1).drop_last() =~= views(parts@).take(i as int));
        let t = trimmed(parts[i].as_slice());
        if t.len() > 0 {
            terms.push(t);
        }
        i = i + 1;
        assert(views(terms@) =~= nonblank_trimmed(views(parts@).take(i as int)));
    }
    assert(views(parts@).take(parts@.len() as int) =~= views(parts@));
    terms
}

/// Some term occurs in `line`.
pub open spec fn any_term(terms: Seq<Seq<char>>, line: Seq<char>) -> bool {
    exists|k: int| 0 <= k < terms.len() && contains(line, #[trigger] terms[k])
}

/// Whether some term of `matchers` occurs in `line`.
pub fn match_lines(matchers: &Vec<Vec<char>>, line: &[char]) -> (r: bool)
    ensures
        r == any_term(views(matchers@), line@),
{
    let mut i: usize = 0;
    while i < matchers.len()
        invariant
            i <= matchers@.len(),
            forall|k: int| 0 <= k < i ==> !contains(line@, #[trigger] views(matchers@)[k]),
        decreases matchers@.len() - i,
    {
        if find(line, matchers[i].as_slice(), 0).is_some() {
            assert(contains(line@, views(matchers@)[i as int]));
            return true;
        }
        i = i + 1;
    }
    false
}

/// A line is kept when it holds no ignore term and, where search terms are
/// given, at least one of them.
pub open spec fn keeps(line: Seq<char>, search: Seq<Seq<char>>, ignore: Seq<Seq<char>>) -> bool {
    !any_term(ignore, line) && (search.len() == 0 || any_term(search, line))
}

/// The markers are both empty or both non-empty.
pub open spec fn markers_agree(begin: Seq<char>, end: Seq<char>) -> bool {
    (begin.len() == 0) == (end.len() == 0)
}

/// The span of `line` strictly between the first occurrence of `begin` and
/// the first occurrence of `end` after it; the whole line when both markers
/// are empty.
pub open spec fn span_of(line: Seq<char>, begin: Seq<char>, end: Seq<char>) -> Result<
    Seq<char>,
    ExtractError,
> {
    if begin.len() == 0 && end.len() == 0 {
        Ok(line)
    } else if !markers_agree(begin, end) {
        Err(ExtractError::MismatchedMarkers)
    } else {
        match find_from(line, begin, 0) {
            None => Err(ExtractError::BeginNotFound),
            Some(a) => match find_from(line, end, a + begin.len()) {
                None => Err(ExtractError::EndNotFound),
                Some(b) => Ok(line.subrange(a + begin.len(), b)),
            },
        }
    }
}

proof fn lemma_find_bounds(hay: Seq<char>, needle: Seq<char>, from: int)
    ensures
        find_from(hay, needle, from) matches Some(i) ==> from <= i && i + needle.len() <= hay.len(),
    decreases hay.len() + 1 - from,
{
    if !(from < 0 || from + needle.len() > hay.len()) && !occurs_at(hay, needle, from) {
        lemma_find_bounds(hay, needle, from + 1);
    }
}

/// The span of `line` between `begin` and `end`.
pub fn extract_from_line(line: &[char], begin: &[char], end: &[char]) -> (r: Result<
    Vec<char>,
    ExtractError,
>)
    ensures
        r matches Ok(v) ==> span_of(line@, begin@, end@) == Ok::<Seq<char>, ExtractError>(v@),
        r matches Err(e) ==> span_of(line@, begin@, end@) == Err::<Seq<char>, ExtractError>(e),
{
    if begin.len() == 0 && end.len() == 0 {
        assert(line@.subrange(0, line@.len() as int) =~= line@);
        return Ok(copy_range(line, 0, line.len()));
    }
    if begin.len() == 0 || end.len() == 0 {
        return Err(ExtractError::MismatchedMarkers);
    }
    match find(line, begin, 0) {
        None => Err(ExtractError::BeginNotFound),
        Some(a) => {
            proof {
                lemma_find_bounds(line@, begin@, 0);
            }
            assert(a + begin@.len() <= line.len());
            let from = a + begin.len();
            match find(line, end, from) {
                None => Err(ExtractError::EndNotFound),
                Some(b) => {
                    proof {
                        lemma_find_bounds(line@, end@, from as int);
                    }
                    Ok(copy_range(line, from, b))
                },
            }
        },
    }
}

/// The span of `line` between `begin` and `end`, or the whole line when both
/// are empty.
pub fn parse_line(line: &str, begin_delimiter: &str, end_delimiter: &str) -> (r: Result<
    String,
    ExtractError,
>)
    ensures
        r matches Ok(s) ==> span_of(line@, begin_delimiter@, end_delimiter@) == Ok::<
            Seq<char>,
            ExtractError,
        >(s@),
        r matches Err(e) ==> span_of(line@, begin_delimiter@, end_delimiter@) == Err::<
            Seq<char>,
            ExtractError,
        >(e),
{
    let l = chars_of(line);
    let b = chars_of(begin_delimiter);
    let e = chars_of(end_delimiter);
    match extract_from_line(l.as_slice(), b.as_slice(), e.as_slice()) {
        Ok(v) => Ok(string_of(v.as_slice())),
        Err(err) => Err(err),
    }
}

/// What a line contributes to the result: nothing when it is filtered out,
/// when its span cannot be taken, or when the span is blank; otherwise the
/// trimmed span.
pub open spec fn line_result(
    line: Seq<char>,
    search: Seq<Seq<char>>,
    ignore: Seq<Seq<char>>,
    begin: Seq<char>,
    end: Seq<char>,
) -> Option<Seq<char>> {
    if keeps(line, search, ignore) {
        match span_of(line, begin, end) {
            Ok(x) => if trim(x).len() > 0 {
                Some(trim(x))
            } else {
                None
            },
            Err(_) => None,
        }
    } else {
        None
    }
}

/// The results of `lines`, in order.
pub open spec fn filtered(
    lines: Seq<Seq<char>>,
    search: Seq<Seq<char>>,
    ignore: Seq<Seq<char>>,
    begin: Seq<char>,
    end: Seq<char>,
) -> Seq<Seq<char>>
    decreases lines.len(),
{
    if lines.len() == 0 {
        Seq::empty()
    } else {
        let init = filtered(lines.drop_last(), search, ignore, begin, end);
        match line_result(lines.last(), search, ignore, begin, end) {
            Some(r) => init.push(r),
            None => init,
        }
    }
}

/// The filtered, extracted and trimmed lines of `text`.
pub fn filter_text(
    text: &[char],
    begin: &[char],
    end: &[char],
    search: &Vec<Vec<char>>,
    ignore: &Vec<Vec<char>>,
) -> (r: Vec<String>)
    requires
        markers_agree(begin@, end@),
    ensures
        string_views(r@) == filtered(
            split_on(text@, '\n'),
            views(search@),
            views(ignore@),
            begin@,
            end@,
        ),
{
    let lines = split(text, '\n');
    let ghost ls = views(lines@);
    let mut out: Vec<String> = Vec::new();
    let mut i: usize = 0;
    while i < lines.len()
        invariant
            i <= lines@.len(),
            ls == views(lines@),
            ls == split_on(text@, '\n'),
            markers_agree(begin@, end@),
            string_views(out@) == filtered(ls.take(i as int), views(search@), views(ignore@), begin@, end@),
        decreases lines@.len() - i,
    {
        assert(ls.take(i + 1).drop_last() =~= ls.take(i as int));
        let line = lines[i].as_slice();
        if !match_lines(ignore, line) && (search.len() == 0 || match_lines(search, line)) {
            match extract_from_line(line, begin, end) {
                Ok(span) => {
                    let t = trimmed(span.as_slice());
                    if t.len() > 0 {
                        out.push(string_of(t.as_slice()));
                    }
                },
                Err(_) => {},
            }
        }
        i = i + 1;
        assert(string_views(out@) =~= filtered(ls.take(i as int), views(search@), views(ignore@), begin@, end@));
    }
    assert(ls.take(lines@.len() as int) =~= ls);
    out
}

/// The lines of `lines` that pass the search and ignore lists, each reduced
/// to its span between the markers and trimmed, blank results left out. An
/// unmatched marker pair skips the line; markers of which one is empty and
/// the other not are refused.
pub fn extract_lines(
    lines: &str,
    begin_delimiter: &str,
    end_delimiter: &str,
    search: &str,
    ignore: &str,
) -> (r: Result<Vec<String>, ExtractError>)
    ensures
        !markers_agree(begin_delimiter@, end_delimiter@) ==> r == Err::<Vec<String>, ExtractError>(
            ExtractError::MismatchedMarkers,
        ),
        markers_agree(begin_delimiter@, end_delimiter@) ==> (r matches Ok(v) && string_views(v@)
            == filtered(
            split_on(lines@, '\n'),
            terms_of(search@),
            terms_of(ignore@),
            begin_delimiter@,
            end_delimiter@,
        )),
{
    let b = chars_of(begin_delimiter);
    let e = chars_of(end_delimiter);
    if (b.len() == 0) != (e.len() == 0) {
        return Err(ExtractError::MismatchedMarkers);
    }
    let text = chars_of(lines);
    let search_terms = parse_terms(search);
    let ignore_terms = parse_terms(ignore);
    Ok(filter_text(text.as_slice(), b.as_slice(), e.as_slice(), &search_terms, &ignore_terms))
}

/// With both markers empty, the span of a line is the whole line.
pub proof fn lemma_empty_markers_whole_line(line: Seq<char>)
    ensures
        span_of(line, Seq::empty(), Seq::empty()) == Ok::<Seq<char>, ExtractError>(line),
{
}

/// Filtering again lines that already pass the search and ignore lists, and
/// are already trimmed and not blank, gives them back unchanged.
pub proof fn lemma_filter_idempotent(
    lines: Seq<Seq<char>>,
    search: Seq<Seq<char>>,
    ignore: Seq<Seq<char>>,
)
    requires
        forall|k: int|
            0 <= k < lines.len() ==> keeps(#[trigger] lines[k], search, ignore) && trim(lines[k])
                == lines[k] && lines[k].len() > 0,
    ensures
        filtered(lines, search, ignore, Seq::empty(), Seq::empty()) == lines,
    decreases lines.len(),
{
    if lines.len() > 0 {
        let init = lines.drop_last();
        assert forall|k: int| 0 <= k < init.len() implies keeps(#[trigger] init[k], search, ignore)
            && trim(init[k]) == init[k] && init[k].len() > 0 by {
            assert(init[k] == lines[k]);
        }
        lemma_filter_idempotent(init, search, ignore);
        assert(keeps(lines[lines.len() - 1], search, ignore));
        assert(init.push(lines.last()) =~= lines);
    }
}

/// `t` is not empty and neither starts nor ends with whitespace.
pub open spec fn solid(t: Seq<char>) -> bool {
    t.len() > 0 && !white_space(t[0]) && !white_space(t.last())
}

proof fn lemma_terms_solid(parts: Seq<Seq<char>>)
    ensures
        forall|k: int|
            0 <= k < nonblank_trimmed(parts).len() ==> solid(#[trigger] nonblank_trimmed(parts)[k]),
    decreases parts.len(),
{
    if parts.len() > 0 {
        lemma_terms_solid(parts.drop_last());
        let (a, b) = lemma_trim_bounds(parts.last());
        let t = trim(parts.last());
        let init = nonblank_trimmed(parts.drop_last());
        let r = nonblank_trimmed(parts);
        if t.len() > 0 {
            assert(t[0] == parts.last()[a]);
            assert(t.last() == parts.last()[b - 1]);
        }
        assert forall|k: int| 0 <= k < r.len() implies solid(#[trigger] r[k]) by {
            if k < init.len() {
                assert(r[k] == init[k]);
            }
        }
    }
}

proof fn lemma_keeps_trimmed(line: Seq<char>, search: Seq<Seq<char>>, ignore: Seq<Seq<char>>)
    requires
        keeps(line, search, ignore),
        forall|k: int| 0 <= k < search.len() ==> solid(#[trigger] search[k]),
    ensures
        keeps(trim(line), search, ignore),
{
    let (a, b) = lemma_trim_bounds(line);
    let tl = trim(line);
    if any_term(ignore, tl) {
        let k = choose|k: int| 0 <= k < ignore.len() && contains(tl, #[trigger] ignore[k]);
        let t = ignore[k];
        lemma_found_occurs(tl, t, 0);
        let i = find_from(tl, t, 0)->0;
        assert(line.subrange(a + i, a + i + t.len()) =~= tl.subrange(i, i + t.len()));
        lemma_occurs_found(line, t, 0, a + i);
        assert(contains(line, ignore[k]));
    }
    if search.len() > 0 {
        let k = choose|k: int| 0 <= k < search.len() && contains(line, #[trigger] search[k]);
        let t = search[k];
        assert(solid(t));
        lemma_found_occurs(line, t, 0);
        let i = find_from(line, t, 0)->0;
        assert(line[i] == line.subrange(i, i + t.len())[0]);
        assert(line[i + t.len() - 1] == line.subrange(i, i + t.len())[t.len() - 1]);
        assert(a <= i);
        assert(i + t.len() <= b);
        assert(tl.subrange(i - a, i - a + t.len()) =~= line.subrange(i, i + t.len()));
        lemma_occurs_found(tl, t, 0, i - a);
        assert(contains(tl, search[k]));
    }
}

proof fn lemma_results_refilterable(
    lines: Seq<Seq<char>>,
    search: Seq<Seq<char>>,
    ignore: Seq<Seq<char>>,
)
    requires
        forall|k: int| 0 <= k < search.len() ==> solid(#[trigger] search[k]),
    ensures
        ({
            let r = filtered(lines, search, ignore, Seq::empty(), Seq::empty());
            forall|k: int|
                0 <= k < r.len() ==> keeps(#[trigger] r[k], search, ignore) && trim(r[k]) == r[k]
                    && r[k].len() > 0
        }),
    decreases lines.len(),
{
    if lines.len() > 0 {
        lemma_results_refilterable(lines.drop_last(), search, ignore);
        let l = lines.last();
        let init = filtered(lines.drop_last(), search, ignore, Seq::empty(), Seq::empty());
        let r = filtered(lines, search, ignore, Seq::empty(), Seq::empty());
        if keeps(l, search, ignore) {
            lemma_keeps_trimmed(l, search, ignore);
            lemma_trim_idempotent(l);
        }
        assert forall|k: int| 0 <= k < r.len() implies keeps(#[trigger] r[k], search, ignore)
            && trim(r[k]) == r[k] && r[k].len() > 0 by {
            if k < init.len() {
                assert(r[k] == init[k]);
            }
        }
    }
}

/// Filtering the result of a filter again, with the same search and ignore
/// lists and no markers, gives that result back unchanged.
pub proof fn lemma_refilter_unchanged(lines: Seq<Seq<char>>, search: Seq<char>, ignore: Seq<char>)
    ensures
        ({
            let s = terms_of(search);
            let i = terms_of(ignore);
            let r = filtered(lines, s, i, Seq::empty(), Seq::empty());
            filtered(r, s, i, Seq::empty(), Seq::empty()) == r
        }),
{
    let s = terms_of(search);
    let i = terms_of(ignore);
    lemma_terms_solid(split_on(search, ','));
    lemma_results_refilterable(lines, s, i);
    lemma_filter_idempotent(filtered(lines, s, i, Seq::empty(), Seq::empty()), s, i);
}

} // verus!
