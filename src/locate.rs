//! Locating where the last lines of a stream begin, and counting its lines.
use vstd::prelude::*;
use crate::blocks::{block_count, read_span, ReverseChunks};

verus! {

/// The byte that ends a line.
pub const DELIMITER: u8 = 10;

/// Number of delimiter bytes in `s`.
pub open spec fn count_delimiters(s: Seq<u8>) -> nat
    decreases s.len(),
{
    if s.len() == 0 {
        0
    } else {
        count_delimiters(s.drop_last()) + if s.last() == DELIMITER {
            1nat
        } else {
            0nat
        }
    }
}

/// Number of lines in `c`: one per delimiter, plus an unterminated last line.
pub open spec fn line_count(c: Seq<u8>) -> nat {
    count_delimiters(c) + if c.len() > 0 && c.last() != DELIMITER {
        1nat
    } else {
        0nat
    }
}

/// End of the part of `c` searched for line starts: a delimiter that ends
/// the stream terminates its last line and starts no new one.
pub open spec fn content_end(c: Seq<u8>) -> int {
    if c.len() > 0 && c.last() == DELIMITER {
        c.len() - 1
    } else {
        c.len() as int
    }
}

/// Scanning `c[..i]` from its end, the offset just after the `need`-th
/// delimiter met (a `need` of 0 counts as 1), or 0 when there are fewer.
pub open spec fn scan_back(c: Seq<u8>, i: int, need: nat) -> int
    decreases i,
{
    if i <= 0 {
        0
    } else if c[i - 1] == DELIMITER {
        if need <= 1 {
            i
        } else {
            scan_back(c, i - 1, (need - 1) as nat)
        }
    } else {
        scan_back(c, i - 1, need)
    }
}

/// Offset at which the last `n` lines of `c` begin.
pub open spec fn tail_start(c: Seq<u8>, n: nat) -> int {
    scan_back(c, content_end(c), n)
}

/// The located offset never lies past the end of the stream.
pub proof fn lemma_tail_start_in_bounds(c: Seq<u8>, n: nat)
    ensures
        0 <= tail_start(c, n) <= c.len(),
{
    lemma_scan_in_bounds(c, content_end(c), n);
}

proof fn lemma_scan_in_bounds(c: Seq<u8>, i: int, need: nat)
    ensures
        0 <= scan_back(c, i, need),
        i >= 0 ==> scan_back(c, i, need) <= i,
    decreases i,
{
    if i > 0 && !(c[i - 1] == DELIMITER && need <= 1) {
        let m: nat = if c[i - 1] == DELIMITER { (need - 1) as nat } else { need };
        lemma_scan_in_bounds(c, i - 1, m);
    }
}

proof fn lemma_count_le_len(s: Seq<u8>)
    ensures
        count_delimiters(s) <= s.len(),
    decreases s.len(),
{
    if s.len() > 0 {
        lemma_count_le_len(s.drop_last());
    }
}

proof fn lemma_scan_short(c: Seq<u8>, i: int, need: nat)
    requires
        0 <= i <= c.len(),
        count_delimiters(c.take(i)) < need,
    ensures
        scan_back(c, i, need) == 0,
    decreases i,
{
    if i > 0 {
        assert(c.take(i).drop_last() =~= c.take(i - 1));
        if c[i - 1] == DELIMITER {
            lemma_scan_short(c, i - 1, (need - 1) as nat);
        } else {
            lemma_scan_short(c, i - 1, need);
        }
    }
}

proof fn lemma_scan_found(c: Seq<u8>, i: int, need: nat)
    requires
        0 <= i <= c.len(),
        need >= 1,
        count_delimiters(c.take(i)) >= need,
    ensures
        1 <= scan_back(c, i, need) <= i,
        c[scan_back(c, i, need) - 1] == DELIMITER,
        count_delimiters(c.subrange(scan_back(c, i, need), i)) == need - 1,
    decreases i,
{
    assert(c.take(i).drop_last() =~= c.take(i - 1));
    if c[i - 1] == DELIMITER && need <= 1 {
        assert(c.subrange(i, i) =~= Seq::<u8>::empty());
    } else {
        let m: nat = if c[i - 1] == DELIMITER { (need - 1) as nat } else { need };
        lemma_scan_found(c, i - 1, m);
        let p = scan_back(c, i - 1, m);
        assert(c.subrange(p, i).drop_last() =~= c.subrange(p, i - 1));
    }
}

/// Where the last `n` lines begin: when `c` holds at least `n` lines before
/// its closing delimiter, just after a delimiter, with exactly `n - 1`
/// delimiters (so exactly `n` lines) from there on; otherwise at offset 0,
/// so that every line is taken.
pub proof fn lemma_tail_start_takes_last_lines(c: Seq<u8>, n: nat)
    requires
        n >= 1,
    ensures
        count_delimiters(c.take(content_end(c))) < n ==> tail_start(c, n) == 0,
        count_delimiters(c.take(content_end(c))) >= n ==> {
            let p = tail_start(c, n);
            &&& 1 <= p <= content_end(c)
            &&& c[p - 1] == DELIMITER
            &&& count_delimiters(c.subrange(p, content_end(c))) == n - 1
        },
{
    if count_delimiters(c.take(content_end(c))) < n {
        lemma_scan_short(c, content_end(c), n);
    } else {
        lemma_scan_found(c, content_end(c), n);
    }
}

proof fn lemma_scan_prefix(c: Seq<u8>, d: Seq<u8>, i: int, need: nat)
    requires
        i <= c.len(),
        i <= d.len(),
        c.take(i) == d.take(i),
    ensures
        scan_back(c, i, need) == scan_back(d, i, need),
    decreases i,
{
    if i > 0 {
        assert(c[i - 1] == c.take(i)[i - 1]);
        assert(d[i - 1] == d.take(i)[i - 1]);
        assert(c.take(i - 1) =~= c.take(i).take(i - 1));
        assert(d.take(i - 1) =~= d.take(i).take(i - 1));
        let m: nat = if c[i - 1] == DELIMITER && need > 1 { (need - 1) as nat } else { need };
        lemma_scan_prefix(c, d, i - 1, m);
    }
}

/// A stream whose last line ends with a delimiter has the same lines as the
/// stream without that delimiter: no line is missing from the one, and no
/// empty line is added to the other.
pub proof fn lemma_closing_delimiter(c: Seq<u8>, n: nat)
    requires
        c.len() > 0,
        c.last() != DELIMITER,
    ensures
        line_count(c.push(DELIMITER)) == line_count(c),
        tail_start(c.push(DELIMITER), n) == tail_start(c, n),
{
    let d = c.push(DELIMITER);
    assert(d.drop_last() =~= c);
    assert(d.take(c.len() as int) =~= c.take(c.len() as int));
    lemma_scan_prefix(d, c, c.len() as int, n);
}

/// Asking for as many lines as the stream has starts at its first byte.
pub proof fn lemma_all_lines_start_at_zero(c: Seq<u8>)
    ensures
        tail_start(c, line_count(c)) == 0,
{
    if c.len() > 0 {
        assert(c.take(c.len() as int) =~= c);
        assert(c.take(c.len() - 1) =~= c.drop_last());
        lemma_scan_short(c, content_end(c), line_count(c));
    }
}

/// Where the scan of a block starts: the delimiter that ends the stream, in
/// the first block, terminates the last line and is not counted.
pub open spec fn scan_end(block: Seq<u8>, at_end: bool) -> int {
    if at_end && block.len() > 0 && block.last() == DELIMITER {
        block.len() - 1
    } else {
        block.len() as int
    }
}

proof fn lemma_need_zero_as_one(c: Seq<u8>, i: int)
    ensures
        scan_back(c, i, 0) == scan_back(c, i, 1),
    decreases i,
{
    if i > 0 && c[i - 1] != DELIMITER {
        lemma_need_zero_as_one(c, i - 1);
    }
}

/// Scanning a stream back through a block of it: either the line start is
/// found in the block, or the scan goes on before the block with fewer
/// delimiters still needed.
proof fn lemma_scan_through_block(c: Seq<u8>, start: int, block: Seq<u8>, e: int, need: nat)
    requires
        0 <= start,
        start + block.len() <= c.len(),
        block == c.subrange(start, start + block.len()),
        0 <= e <= block.len(),
        need >= 1,
    ensures
        scan_back(block, e, need) > 0 ==> scan_back(c, start + e, need) == start + scan_back(
            block,
            e,
            need,
        ),
        scan_back(block, e, need) == 0 ==> count_delimiters(block.take(e)) < need && scan_back(
            c,
            start + e,
            need,
        ) == scan_back(c, start, (need - count_delimiters(block.take(e))) as nat),
    decreases e,
{
    if e == 0 {
        assert(block.take(0) =~= Seq::<u8>::empty());
    } else {
        assert(block.take(e).drop_last() =~= block.take(e - 1));
        assert(block[e - 1] == c[start + e - 1]);
        if block[e - 1] == DELIMITER {
            if need > 1 {
                lemma_scan_through_block(c, start, block, e - 1, (need - 1) as nat);
            }
        } else {
            lemma_scan_through_block(c, start, block, e - 1, need);
        }
    }
}

/// Counts delimiters backwards through the blocks of a stream, fed from the
/// block nearest its end, until the start of the last lines is found.
pub struct LineLocator {
    target: u64,
    counter: u64,
    at_end: bool,
}

impl LineLocator {
    /// Delimiters still to be met (a request for 0 lines counts as 1).
    pub closed spec fn remaining(&self) -> nat {
        (self.target - self.counter) as nat
    }

    /// No block has been fed yet.
    pub closed spec fn at_end(&self) -> bool {
        self.at_end
    }

    pub closed spec fn wf(&self) -> bool {
        &&& self.counter < self.target
        &&& self.at_end ==> self.counter == 0
    }

    /// A locator for the start of the last `num_delimiters` lines.
    pub fn new(num_delimiters: u64) -> (r: LineLocator)
        ensures
            r.wf(),
            r.at_end(),
            r.remaining() >= 1,
            r.remaining() == if num_delimiters == 0 {
                1
            } else {
                num_delimiters
            },
    {
        LineLocator { target: if num_delimiters == 0 { 1 } else { num_delimiters }, counter: 0, at_end: true }
    }

    /// Scans `block`, which starts at offset `start` of the stream and ends
    /// where the previous block began, from its end. Returns the offset at
    /// which the last lines begin when it lies in this block.
    pub fn feed(&mut self, block: &[u8], start: u64) -> (r: Option<u64>)
        requires
            old(self).wf(),
            start + block@.len() <= u64::MAX,
        ensures
            final(self).wf(),
            !final(self).at_end(),
            final(self).remaining() >= 1,
            scan_back(block@, scan_end(block@, old(self).at_end()), old(self).remaining()) > 0 ==> r
                == Some(
                (start + scan_back(block@, scan_end(block@, old(self).at_end()), old(self).remaining()))
                    as u64,
            ),
            scan_back(block@, scan_end(block@, old(self).at_end()), old(self).remaining()) == 0 ==> r
                is None,
            scan_back(block@, scan_end(block@, old(self).at_end()), old(self).remaining()) == 0
                ==> final(self).remaining() == old(self).remaining() - count_delimiters(
                block@.take(scan_end(block@, old(self).at_end())),
            ),
    {
        let ghost e = scan_end(block@, self.at_end);
        let ghost need = self.remaining();
        let ghost counter0 = self.counter;
        let mut i: usize = block.len();
        if self.at_end && block.len() > 0 && block[block.len() - 1] == DELIMITER {
            i = i - 1;
        }
        self.at_end = false;
        while i > 0
            invariant
                0 <= i <= e <= block@.len(),
                start + block@.len() <= u64::MAX,
                !self.at_end,
                counter0 <= self.counter < self.target,
                need == self.target - counter0,
                e == scan_end(block@, old(self).at_end()),
                need == old(self).remaining(),
                scan_back(block@, e, need) == scan_back(block@, i as int, (self.target - self.counter) as nat),
                count_delimiters(block@.take(e)) == count_delimiters(block@.take(i as int)) + (self.counter - counter0),
            decreases i,
        {
            assert(block@.take(i as int).drop_last() =~= block@.take(i - 1));
            i = i - 1;
            if block[i] == DELIMITER {
                if self.counter + 1 >= self.target {
                    assert(scan_back(block@, i + 1, (self.target - self.counter) as nat) == i + 1);
                    return Some(start + i as u64 + 1);
                }
                self.counter = self.counter + 1;
            }
        }
        assert(block@.take(0) =~= Seq::<u8>::empty());
        assert(scan_back(block@, 0, (self.target - self.counter) as nat) == 0);
        None
    }
}

/// Offset at which the last `num_delimiters` lines of `file` begin, found by
/// reading `file` backwards block by block.
pub fn backward(file: &[u8], num_delimiters: u64) -> (r: u64)
    ensures
        r as int == tail_start(file@, num_delimiters as nat),
{
    let ghost c = file@;
    let ghost n: nat = if num_delimiters == 0 { 1 } else { num_delimiters as nat };
    proof {
        lemma_need_zero_as_one(c, content_end(c));
    }
    let len = file.len() as u64;
    let mut chunks = ReverseChunks::new(len);
    let mut locator = LineLocator::new(num_delimiters);
    loop
        invariant
            chunks.wf(),
            chunks.size() == c.len(),
            c == file@,
            len == c.len(),
            locator.wf(),
            locator.remaining() >= 1,
            chunks.index() <= block_count(c.len() as int),
            locator.at_end() <==> chunks.index() == 0,
            locator.at_end() ==> chunks.cursor() == c.len() && locator.remaining() == n,
            0 <= chunks.cursor() <= c.len(),
            tail_start(c, num_delimiters as nat) == tail_start(c, n),
            !locator.at_end() ==> tail_start(c, n) == scan_back(c, chunks.cursor(), locator.remaining()),
        decreases block_count(c.len() as int) - chunks.index(),
    {
        let ghost prev = chunks.cursor();
        let ghost first = locator.at_end();
        match chunks.next() {
            None => {
                // every block was scanned: the cursor is at the start
                return 0;
            },
            Some(span) => {
                let block = read_span(file, span.offset, span.offset + span.len);
                let ghost e = scan_end(block@, first);
                let ghost need = locator.remaining();
                proof {
                    assert(c[span.offset + block@.len() - 1] == block@.last());
                    assert(first ==> content_end(c) == span.offset + e);
                    assert(!first ==> span.offset + e == prev);
                    assert(tail_start(c, n) == scan_back(c, span.offset + e, need));
                    lemma_scan_through_block(c, span.offset as int, block@, e, need);
                    lemma_scan_in_bounds(block@, e, need);
                }
                let bytes = block.as_slice();
                assert(bytes@ == block@);
                match locator.feed(bytes, span.offset) {
                    Some(p) => {
                        return p;
                    },
                    None => {},
                }
            },
        }
    }
}

/// Number of lines in `file`: one per delimiter, plus an unterminated last
/// line.
pub fn count_lines(file: &[u8]) -> (r: u64)
    ensures
        r == line_count(file@),
{
    let mut cnt: u64 = 0;
    let mut i: usize = 0;
    while i < file.len()
        invariant
            i <= file@.len(),
            cnt == count_delimiters(file@.take(i as int)),
        decreases file@.len() - i,
    {
        proof {
            lemma_count_le_len(file@.take(i as int));
        }
        assert(file@.take(i + 1).drop_last() =~= file@.take(i as int));
        if file[i] == DELIMITER {
            cnt = cnt + 1;
        }
        i = i + 1;
    }
    assert(file@.take(file@.len() as int) =~= file@);
    if file.len() > 0 && file[file.len() - 1] != DELIMITER {
        proof {
            lemma_count_le_len(file@.drop_last());
        }
        cnt = cnt + 1;
    }
    cnt
}

} // verus!
