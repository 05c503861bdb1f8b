//! The retrieval operations: the last lines of a stream, searches over them,
//! and the search for the last matching line.
use vstd::prelude::*;
use vstd::utf8::{decode_utf8, valid_utf8};
use crate::filter::{filter_text, filtered, line_result, parse_terms, split_on, string_views, terms_of};
use crate::text::{trim, trim_end, trim_start};
use crate::locate::{
    backward, count_lines, lemma_all_lines_start_at_zero, lemma_tail_start_in_bounds, line_count,
    tail_start,
};
use crate::blocks::read_span;
use crate::text::{chars_of, decode};

verus! {

/// Why a retrieval failed.
#[derive(Debug, Clone, Copy, PartialEq, Eq, Structural)]
pub enum TailError {
    /// The bytes from the located offset on are not valid UTF-8.
    InvalidUtf8,
}

/// The bytes from where the last `n` lines of `c` begin to its end.
pub open spec fn tail_bytes(c: Seq<u8>, n: nat) -> Seq<u8> {
    c.subrange(tail_start(c, n), c.len() as int)
}

/// The result of searching the last `n` lines of `c`.
pub open spec fn tail_result(c: Seq<u8>, n: nat, search: Seq<char>, ignore: Seq<char>) -> Result<
    Seq<Seq<char>>,
    TailError,
> {
    if valid_utf8(tail_bytes(c, n)) {
        Ok(
            filtered(
                split_on(decode_utf8(tail_bytes(c, n)), '\n'),
                terms_of(search),
                terms_of(ignore),
                Seq::empty(),
                Seq::empty(),
            ),
        )
    } else {
        Err(TailError::InvalidUtf8)
    }
}

/// The number of lines searched for a requested count: 0 stands for all of them.
pub open spec fn window(c: Seq<u8>, n: nat) -> nat {
    if n == 0 {
        line_count(c)
    } else {
        n
    }
}

/// The result of the first window of `k`, `k + 1`, ... up to `total` lines
/// that yields anything (or fails); empty when none does.
pub open spec fn first_match_from(
    c: Seq<u8>,
    k: nat,
    total: nat,
    search: Seq<char>,
    ignore: Seq<char>,
) -> Result<Seq<Seq<char>>, TailError>
    decreases total + 1 - k,
{
    if k == 0 || k > total {
        Ok(Seq::empty())
    } else {
        match tail_result(c, k, search, ignore) {
            Err(e) => Err(e),
            Ok(v) => if v.len() > 0 {
                Ok(v)
            } else {
                first_match_from(c, k + 1, total, search, ignore)
            },
        }
    }
}

/// The result of the smallest window at the end of `c` that yields anything.
pub open spec fn last_match(c: Seq<u8>, search: Seq<char>, ignore: Seq<char>) -> Result<
    Seq<Seq<char>>,
    TailError,
> {
    first_match_from(c, 1, line_count(c), search, ignore)
}

/// `r` is the result that `s` describes.
pub open spec fn same_result(r: Result<Vec<String>, TailError>, s: Result<Seq<Seq<char>>, TailError>) -> bool {
    match r {
        Ok(v) => s == Ok::<Seq<Seq<char>>, TailError>(string_views(v@)),
        Err(e) => s == Err::<Seq<Seq<char>>, TailError>(e),
    }
}

/// The last `lines_number` lines of `file` that pass the search and ignore
/// lists, trimmed, blank ones left out.
fn tail_parse(file: &[u8], lines_number: u64, search: &str, ignore: &str) -> (r: Result<
    Vec<String>,
    TailError,
>)
    ensures
        same_result(r, tail_result(file@, lines_number as nat, search@, ignore@)),
{
    let start = backward(file, lines_number);
    proof {
        lemma_tail_start_in_bounds(file@, lines_number as nat);
    }
    let bytes = read_span(file, start, file.len() as u64);
    match decode(bytes.as_slice()) {
        None => Err(TailError::InvalidUtf8),
        Some(text) => {
            let cs = chars_of(text.as_str());
            let search_terms = parse_terms(search);
            let ignore_terms = parse_terms(ignore);
            let no_marker: Vec<char> = Vec::new();
            Ok(
                filter_text(
                    cs.as_slice(),
                    no_marker.as_slice(),
                    no_marker.as_slice(),
                    &search_terms,
                    &ignore_terms,
                ),
            )
        },
    }
}

/// Searches the last `number_of_lines` lines (all of them for 0), with the
/// ignore list applied only in ignore mode.
pub fn fsearch(file: &[u8], search: &str, ignore: &str, ignore_mode: bool, number_of_lines: u64) -> (r:
    Result<Vec<String>, TailError>)
    ensures
        same_result(
            r,
            tail_result(
                file@,
                window(file@, number_of_lines as nat),
                search@,
                if ignore_mode {
                    ignore@
                } else {
                    Seq::empty()
                },
            ),
        ),
{
    let mut n = number_of_lines;
    if n == 0 {
        n = count_lines(file);
    }
    if ignore_mode {
        tail_parse(file, n, search, ignore)
    } else {
        proof {
            reveal_strlit("");
        }
        tail_parse(file, n, search, "")
    }
}

/// Widens the window one line at a time, from the end of `file`, until the
/// search yields something, and returns that; gives up with an empty result
/// once the window covers every line.
pub fn fsearch_last_line(file: &[u8], search: &str, ignore: &str, ignore_mode: bool) -> (r: Result<
    Vec<String>,
    TailError,
>)
    ensures
        same_result(
            r,
            last_match(
                file@,
                search@,
                if ignore_mode {
                    ignore@
                } else {
                    Seq::empty()
                },
            ),
        ),
{
    let ghost ig = if ignore_mode {
        ignore@
    } else {
        Seq::empty()
    };
    let total = count_lines(file);
    let mut counter: u64 = 0;
    while counter < total
        invariant
            counter <= total,
            total == line_count(file@),
            ig == if ignore_mode {
                ignore@
            } else {
                Seq::<char>::empty()
            },
            last_match(file@, search@, ig) == first_match_from(
                file@,
                (counter + 1) as nat,
                total as nat,
                search@,
                ig,
            ),
        decreases total - counter,
    {
        counter = counter + 1;
        match fsearch(file, search, ignore, ignore_mode, counter) {
            Err(e) => {
                return Err(e);
            },
            Ok(v) => {
                if v.len() > 0 {
                    return Ok(v);
                }
            },
        }
    }
    let none: Vec<String> = Vec::new();
    assert(string_views(none@) =~= Seq::<Seq<char>>::empty());
    Ok(none)
}

/// The last `number_of_lines` lines of `file` (all of them for 0), trimmed,
/// blank ones left out.
pub fn lines(file: &[u8], number_of_lines: u64) -> (r: Result<Vec<String>, TailError>)
    ensures
        same_result(r, tail_result(file@, window(file@, number_of_lines as nat), Seq::empty(), Seq::empty())),
{
    proof {
        reveal_strlit("");
    }
    fsearch(file, "", "", false, number_of_lines)
}

/// The lines among the last `number_of_lines` that hold a search term.
pub fn search_lines(file: &[u8], search: &str, number_of_lines: u64) -> (r: Result<Vec<String>, TailError>)
    ensures
        same_result(r, tail_result(file@, window(file@, number_of_lines as nat), search@, Seq::empty())),
{
    fsearch(file, search, "", false, number_of_lines)
}

/// The lines among the last `number_of_lines` that hold a search term and
/// no ignore term.
pub fn isearch_lines(file: &[u8], search: &str, ignore: &str, number_of_lines: u64) -> (r: Result<
    Vec<String>,
    TailError,
>)
    ensures
        same_result(r, tail_result(file@, window(file@, number_of_lines as nat), search@, ignore@)),
{
    fsearch(file, search, ignore, true, number_of_lines)
}

/// The lines of the whole of `file` that hold a search term.
pub fn search_all(file: &[u8], search: &str) -> (r: Result<Vec<String>, TailError>)
    ensures
        same_result(r, tail_result(file@, line_count(file@), search@, Seq::empty())),
{
    fsearch(file, search, "", false, 0)
}

/// The lines of the whole of `file` that hold a search term and no ignore
/// term.
pub fn isearch_all(file: &[u8], search: &str, ignore: &str) -> (r: Result<Vec<String>, TailError>)
    ensures
        same_result(r, tail_result(file@, line_count(file@), search@, ignore@)),
{
    fsearch(file, search, ignore, true, 0)
}

/// The matches of the smallest window at the end of `file` that has any.
pub fn search_last_line(file: &[u8], search: &str) -> (r: Result<Vec<String>, TailError>)
    ensures
        same_result(r, last_match(file@, search@, Seq::empty())),
{
    fsearch_last_line(file, search, "", false)
}

/// The matches, without ignore terms, of the smallest window at the end of
/// `file` that has any.
pub fn isearch_last_line(file: &[u8], search: &str, ignore: &str) -> (r: Result<Vec<String>, TailError>)
    ensures
        same_result(r, last_match(file@, search@, ignore@)),
{
    fsearch_last_line(file, search, ignore, true)
}

/// Asking for 0 lines is asking for every line: the search then covers the
/// whole stream, as it does when the count of its lines is asked for.
pub proof fn lemma_zero_means_all_lines(c: Seq<u8>, search: Seq<char>, ignore: Seq<char>)
    ensures
        tail_result(c, window(c, 0), search, ignore) == tail_result(c, line_count(c), search, ignore),
        tail_bytes(c, window(c, 0)) == c,
{
    lemma_all_lines_start_at_zero(c);
    assert(c.subrange(0, c.len() as int) =~= c);
}

/// An empty stream yields nothing, whatever is asked of it.
pub proof fn lemma_empty_stream(n: nat, search: Seq<char>, ignore: Seq<char>)
    ensures
        tail_result(Seq::empty(), n, search, ignore) == Ok::<Seq<Seq<char>>, TailError>(Seq::empty()),
        last_match(Seq::empty(), search, ignore) == Ok::<Seq<Seq<char>>, TailError>(Seq::empty()),
{
    let c = Seq::<u8>::empty();
    assert(tail_bytes(c, n) =~= c);
    assert(decode_utf8(c) =~= Seq::<char>::empty());
    let lines = split_on(Seq::<char>::empty(), '\n');
    assert(lines.drop_last() =~= Seq::<Seq<char>>::empty());
    assert(lines =~= seq![Seq::<char>::empty()]);
    assert(valid_utf8(tail_bytes(c, n)));
    assert(split_on(decode_utf8(tail_bytes(c, n)), '\n') == lines);
    assert(trim_start(Seq::<char>::empty()) =~= Seq::<char>::empty());
    assert(trim_end(Seq::<char>::empty()) =~= Seq::<char>::empty());
    assert(trim(lines.last()) =~= Seq::<char>::empty());
    let s = terms_of(search);
    let i = terms_of(ignore);
    assert(line_result(lines.last(), s, i, Seq::empty(), Seq::empty()) is None);
    assert(filtered(lines.drop_last(), s, i, Seq::empty(), Seq::empty()) =~= Seq::<Seq<char>>::empty());
    assert(filtered(lines, s, i, Seq::empty(), Seq::empty()) =~= Seq::<Seq<char>>::empty());
}

} // verus!
