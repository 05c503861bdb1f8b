use tail::{
    backward, count_lines, read_span, BlockSpan, LineLocator, extract_lines, fsearch, fsearch_last_line, isearch_all,
    isearch_last_line, isearch_lines, lines, parse_line, search_all, search_last_line,
    search_lines, ExtractError, ReverseChunks, TailError, BLOCK_SIZE, DELIMITER,
};

const SAMPLE: &[u8] = b"alpha\nbeta\ngamma\n";

fn strings(v: &[&str]) -> Vec<String> {
    v.iter().map(|s| s.to_string()).collect()
}

fn blocks_of(data: &[u8]) -> Vec<Vec<u8>> {
    let mut chunks = ReverseChunks::new(data.len() as u64);
    let mut out = Vec::new();
    while let Some(span) = chunks.next() {
        assert_eq!(chunks.position(), span.offset);
        out.push(read_span(data, span.offset, span.offset + span.len));
    }
    assert_eq!(chunks.position(), 0);
    out
}

fn locate_streaming(data: &[u8], n: u64) -> u64 {
    let mut chunks = ReverseChunks::new(data.len() as u64);
    let mut locator = LineLocator::new(n);
    while let Some(span) = chunks.next() {
        let block = read_span(data, span.offset, span.offset + span.len);
        if let Some(p) = locator.feed(&block, span.offset) {
            return p;
        }
    }
    0
}

#[test]
fn last_two_lines_of_sample() {
    assert_eq!(lines(SAMPLE, 2), Ok(strings(&["beta", "gamma"])));
}

#[test]
fn search_all_keeps_order() {
    assert_eq!(search_all(SAMPLE, "a"), Ok(strings(&["alpha", "beta", "gamma"])));
    assert_eq!(search_all(SAMPLE, "ph"), Ok(strings(&["alpha"])));
    assert_eq!(search_all(SAMPLE, "mm, ph"), Ok(strings(&["alpha", "gamma"])));
}

#[test]
fn search_all_with_ignore() {
    assert_eq!(isearch_all(SAMPLE, "a", "gamma"), Ok(strings(&["alpha", "beta"])));
    assert_eq!(isearch_all(SAMPLE, "a", "gamma, beta"), Ok(strings(&["alpha"])));
    assert_eq!(isearch_all(SAMPLE, "al, ga", "gamma"), Ok(strings(&["alpha"])));
}

#[test]
fn last_lines_exact_count() {
    let f = b"one\ntwo\nthree\nfour\nfive";
    assert_eq!(lines(f, 1), Ok(strings(&["five"])));
    assert_eq!(lines(f, 3), Ok(strings(&["three", "four", "five"])));
    assert_eq!(lines(f, 5), Ok(strings(&["one", "two", "three", "four", "five"])));
    assert_eq!(lines(f, 9), Ok(strings(&["one", "two", "three", "four", "five"])));
}

#[test]
fn zero_means_whole_file() {
    let f = b"one\ntwo\nthree\n";
    assert_eq!(count_lines(f), 3);
    assert_eq!(lines(f, 0), lines(f, count_lines(f)));
    assert_eq!(lines(f, 0), Ok(strings(&["one", "two", "three"])));
}

#[test]
fn trailing_newline_is_no_extra_line() {
    assert_eq!(lines(b"alpha\nbeta", 1), Ok(strings(&["beta"])));
    assert_eq!(lines(b"alpha\nbeta\n", 1), Ok(strings(&["beta"])));
    assert_eq!(count_lines(b"alpha\nbeta"), 2);
    assert_eq!(count_lines(b"alpha\nbeta\n"), 2);
    assert_eq!(backward(b"alpha\nbeta\n", 1), 6);
    assert_eq!(backward(b"alpha\nbeta", 1), 6);
    assert_eq!(backward(b"alpha\nbeta", 2), 0);
}

#[test]
fn empty_file_yields_nothing() {
    let f: &[u8] = b"";
    let none: Vec<String> = Vec::new();
    assert_eq!(count_lines(f), 0);
    assert_eq!(backward(f, 3), 0);
    assert_eq!(lines(f, 0), Ok(none.clone()));
    assert_eq!(lines(f, 4), Ok(none.clone()));
    assert_eq!(search_lines(f, "a", 2), Ok(none.clone()));
    assert_eq!(isearch_lines(f, "a", "b", 2), Ok(none.clone()));
    assert_eq!(search_all(f, "a"), Ok(none.clone()));
    assert_eq!(isearch_all(f, "a", "b"), Ok(none.clone()));
    assert_eq!(search_last_line(f, "a"), Ok(none.clone()));
    assert_eq!(isearch_last_line(f, "a", "b"), Ok(none.clone()));
    assert!(blocks_of(f).is_empty());
}

#[test]
fn file_of_exactly_one_block() {
    let mut f = Vec::new();
    f.extend_from_slice(b"first\n");
    while f.len() < BLOCK_SIZE as usize {
        f.extend_from_slice(b"abcdefg\n");
    }
    f.truncate(BLOCK_SIZE as usize - 1);
    f.push(b'\n');
    assert_eq!(f.len() as u64, BLOCK_SIZE);
    let blocks = blocks_of(&f);
    assert_eq!(blocks.len(), 1);
    assert_eq!(blocks[0], f);
    let total = count_lines(&f);
    assert_eq!(total, 8193);
    assert_eq!(backward(&f, total), 0);
    assert_eq!(backward(&f, total - 1), 6);
    let all = lines(&f, 0).unwrap();
    assert_eq!(all.len() as u64, total);
    assert_eq!(all[0], "first");
    assert_eq!(search_all(&f, "first"), Ok(strings(&["first"])));
}

#[test]
fn file_of_two_whole_blocks() {
    let mut f = Vec::new();
    f.extend_from_slice(b"first\n");
    while f.len() < 2 * BLOCK_SIZE as usize {
        f.extend_from_slice(b"abcdefg\n");
    }
    f.truncate(2 * BLOCK_SIZE as usize - 1);
    f.push(b'\n');
    let blocks = blocks_of(&f);
    assert_eq!(blocks.len(), 2);
    assert_eq!(blocks[0].len() as u64, BLOCK_SIZE);
    assert_eq!(blocks[1].len() as u64, BLOCK_SIZE);
    assert_eq!(search_all(&f, "first"), Ok(strings(&["first"])));
}

#[test]
fn blocks_reassemble_file() {
    let f: Vec<u8> = (0..150000u32).map(|i| (i % 251) as u8).collect();
    let blocks = blocks_of(&f);
    let lens: Vec<usize> = blocks.iter().map(|b| b.len()).collect();
    assert_eq!(lens, vec![65536, 65536, 18928]);
    let mut whole = Vec::new();
    for b in blocks.iter().rev() {
        whole.extend_from_slice(b);
    }
    assert_eq!(whole, f);
}

#[test]
fn lines_across_block_boundary() {
    let mut f = Vec::new();
    let mut n = 0u64;
    while f.len() < 200000 {
        f.extend_from_slice(format!("line {}\n", n).as_bytes());
        n += 1;
    }
    assert_eq!(count_lines(&f), n);
    let last = lines(&f, 3).unwrap();
    assert_eq!(last, vec![format!("line {}", n - 3), format!("line {}", n - 2), format!("line {}", n - 1)]);
    let all = lines(&f, 0).unwrap();
    assert_eq!(all.len() as u64, n);
    assert_eq!(all[0], "line 0");
    assert_eq!(search_all(&f, "line 12345"), Ok(strings(&["line 12345"])));
}

#[test]
fn empty_markers_give_whole_line() {
    assert_eq!(parse_line("some line", "", ""), Ok("some line".to_string()));
    assert_eq!(parse_line("", "", ""), Ok(String::new()));
}

#[test]
fn span_between_brackets() {
    assert_eq!(parse_line("a[b]c", "[", "]"), Ok("b".to_string()));
    assert_eq!(parse_line("x<<key>>y<<z>>", "<<", ">>"), Ok("key".to_string()));
    assert_eq!(parse_line("a]b[c]d", "[", "]"), Ok("c".to_string()));
}

#[test]
fn span_errors() {
    assert_eq!(parse_line("a[b]c", "[", ""), Err(ExtractError::MismatchedMarkers));
    assert_eq!(parse_line("a[b]c", "", "]"), Err(ExtractError::MismatchedMarkers));
    assert_eq!(parse_line("abc", "[", "]"), Err(ExtractError::BeginNotFound));
    assert_eq!(parse_line("a]b[c", "[", "]"), Err(ExtractError::EndNotFound));
}

#[test]
fn extract_lines_filters_and_extracts() {
    let text = "k=[1] ok\nk=[2] skip\nno markers ok\nk=[ ] ok\n";
    assert_eq!(extract_lines(text, "[", "]", "ok", "skip"), Ok(strings(&["1"])));
    assert_eq!(extract_lines(text, "", "", "ok", "skip"), Ok(strings(&["k=[1] ok", "no markers ok", "k=[ ] ok"])));
    assert_eq!(extract_lines(text, "[", "", "ok", ""), Err(ExtractError::MismatchedMarkers));
}

#[test]
fn filtering_again_changes_nothing() {
    let text = "alpha one\nbeta\n  alpha two  \ngamma alpha\n";
    let first = extract_lines(text, "", "", "alpha", "gamma").unwrap();
    assert_eq!(first, strings(&["alpha one", "alpha two"]));
    let again = extract_lines(&first.join("\n"), "", "", "alpha", "gamma").unwrap();
    assert_eq!(again, first);
}

#[test]
fn terms_are_trimmed_and_blank_ones_dropped() {
    let f = b"red apple\ngreen pear\nblue plum\n";
    assert_eq!(search_all(f, " pear , , plum "), Ok(strings(&["green pear", "blue plum"])));
    assert_eq!(search_all(f, " , "), Ok(strings(&["red apple", "green pear", "blue plum"])));
    assert_eq!(isearch_all(f, "", " plum ,"), Ok(strings(&["red apple", "green pear"])));
}

#[test]
fn lines_are_trimmed_and_blank_lines_dropped() {
    let f = "  a  \n\t\n\u{3000}b\u{a0}\n\n".as_bytes();
    assert_eq!(lines(f, 0), Ok(strings(&["a", "b"])));
}

#[test]
fn bounded_searches() {
    let f = b"error one\ninfo\nerror two\ninfo\n";
    assert_eq!(search_lines(f, "error", 2), Ok(strings(&["error two"])));
    assert_eq!(search_lines(f, "error", 0), Ok(strings(&["error one", "error two"])));
    assert_eq!(isearch_lines(f, "error, info", "two", 3), Ok(strings(&["info", "info"])));
    assert_eq!(fsearch(f, "error", "two", false, 0), Ok(strings(&["error one", "error two"])));
    assert_eq!(fsearch(f, "error", "two", true, 0), Ok(strings(&["error one"])));
}

#[test]
fn last_matching_line() {
    let f = b"error one\ninfo\nerror two\ninfo\ninfo\n";
    assert_eq!(search_last_line(f, "error"), Ok(strings(&["error two"])));
    assert_eq!(isearch_last_line(f, "error", "two"), Ok(strings(&["error one"])));
    assert_eq!(search_last_line(f, "warning"), Ok(Vec::new()));
    assert_eq!(fsearch_last_line(f, "error", "two", false), Ok(strings(&["error two"])));
}

#[test]
fn invalid_utf8_is_reported() {
    let f: &[u8] = &[b'a', b'\n', 0xff, 0xfe, b'\n', b'b', b'\n'];
    assert_eq!(lines(f, 1), Ok(strings(&["b"])));
    assert_eq!(lines(f, 2), Err(TailError::InvalidUtf8));
    assert_eq!(search_all(f, "a"), Err(TailError::InvalidUtf8));
}

#[test]
fn delimiter_is_newline() {
    assert_eq!(DELIMITER, b'\n');
    assert_eq!(BLOCK_SIZE, 65536);
}

#[test]
fn block_spans_cover_the_stream_from_its_end() {
    let mut chunks = ReverseChunks::new(2 * BLOCK_SIZE + 5);
    assert_eq!(chunks.next(), Some(BlockSpan { offset: BLOCK_SIZE + 5, len: BLOCK_SIZE }));
    assert_eq!(chunks.next(), Some(BlockSpan { offset: 5, len: BLOCK_SIZE }));
    assert_eq!(chunks.next(), Some(BlockSpan { offset: 0, len: 5 }));
    assert_eq!(chunks.next(), None);
    let mut exact = ReverseChunks::new(BLOCK_SIZE);
    assert_eq!(exact.next(), Some(BlockSpan { offset: 0, len: BLOCK_SIZE }));
    assert_eq!(exact.next(), None);
    let mut empty = ReverseChunks::new(0);
    assert_eq!(empty.next(), None);
}

#[test]
fn locator_fed_block_by_block() {
    let mut f = Vec::new();
    for i in 0..30000u32 {
        f.extend_from_slice(format!("{}\n", i).as_bytes());
    }
    for n in [0u64, 1, 2, 7, 20000, 29999, 30000, 30001] {
        assert_eq!(locate_streaming(&f, n), backward(&f, n));
    }
    let p = backward(&f, 20000) as usize;
    assert_eq!(&f[p..p + 6], b"10000\n");
    assert_eq!(backward(&f, 30000), 0);
    let mut one = LineLocator::new(1);
    assert_eq!(one.feed(b"ab\ncd\n", 10), Some(13));
    let mut two = LineLocator::new(3);
    assert_eq!(two.feed(b"x\ny\n", 4), None);
    assert_eq!(two.feed(b"w\nv\n", 0), Some(2));
}

#[test]
fn multibyte_text_is_decoded() {
    let f = "caf\u{e9} cr\u{e8}me\n\u{65e5}\u{672c} text\n".as_bytes();
    assert_eq!(lines(f, 0), Ok(strings(&["caf\u{e9} cr\u{e8}me", "\u{65e5}\u{672c} text"])));
    assert_eq!(search_all(f, "\u{e8}m"), Ok(strings(&["caf\u{e9} cr\u{e8}me"])));
    assert_eq!(parse_line("\u{65e5}<\u{672c}>x", "<", ">"), Ok("\u{672c}".to_string()));
}
