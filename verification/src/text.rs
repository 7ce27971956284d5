//! The line structure of a source text, over its bytes.

use vstd::prelude::*;

verus! {

/// The line feed byte.
pub const LF: u8 = 10u8;

/// The carriage return byte.
pub const CR: u8 = 13u8;

/// A line without the carriage return that may end it.
pub open spec fn without_cr(line: Seq<u8>) -> Seq<u8> {
    if line.len() > 0 && line.last() == CR {
        line.drop_last()
    } else {
        line
    }
}

/// The lines of `s` from position `i` on, where the line in progress began at `start`.
///
/// A line ends at a line feed, and a carriage return directly before that line feed
/// belongs to the line ending. The text after the last line feed is a line of its own
/// unless it is empty.
pub open spec fn scan_lines(s: Seq<u8>, i: int, start: int) -> Seq<Seq<u8>>
    decreases s.len() - i,
{
    if i >= s.len() {
        if start < s.len() {
            seq![s.subrange(start, s.len() as int)]
        } else {
            Seq::empty()
        }
    } else if s[i] == LF {
        seq![without_cr(s.subrange(start, i))] + scan_lines(s, i + 1, i + 1)
    } else {
        scan_lines(s, i + 1, start)
    }
}

/// The lines of a text.
pub open spec fn lines(s: Seq<u8>) -> Seq<Seq<u8>> {
    scan_lines(s, 0, 0)
}

/// The parts, with `sep` between each two neighbours.
pub open spec fn joined(parts: Seq<Seq<u8>>, sep: Seq<u8>) -> Seq<u8>
    decreases parts.len(),
{
    if parts.len() == 0 {
        Seq::empty()
    } else if parts.len() == 1 {
        parts[0]
    } else {
        parts[0] + sep + joined(parts.drop_first(), sep)
    }
}

/// The zero-based line index and column of the end of `consumed`: the index of its last
/// line, and that line's length.
pub open spec fn end_position(consumed: Seq<u8>) -> (int, int) {
    let ls = lines(consumed);
    if ls.len() == 0 {
        (0, 0)
    } else {
        (ls.len() - 1, ls.last().len() as int)
    }
}

/// The first index at or after `from` that holds a line feed, or the length of `bytes`.
pub fn find_line_feed(bytes: &[u8], from: usize) -> (e: usize)
    requires
        from <= bytes@.len(),
    ensures
        from <= e <= bytes@.len(),
        e < bytes@.len() ==> bytes@[e as int] == LF,
        forall|j: int| from <= j < e ==> bytes@[j] != LF,
{
    let mut e: usize = from;
    while e < bytes.len() && bytes[e] != LF
        invariant
            from <= e <= bytes@.len(),
            forall|j: int| from <= j < e ==> bytes@[j] != LF,
        decreases bytes@.len() - e,
    {
        e = e + 1;
    }
    e
}

/// Scanning over bytes that are no line feeds leaves the lines as they are.
pub proof fn lemma_scan_lines_skip(s: Seq<u8>, i: int, e: int, start: int)
    requires
        0 <= i <= e <= s.len(),
        forall|j: int| i <= j < e ==> s[j] != LF,
    ensures
        scan_lines(s, i, start) == scan_lines(s, e, start),
    decreases e - i,
{
    if i < e {
        lemma_scan_lines_skip(s, i + 1, e, start);
    }
}

/// Computes [`end_position`] of the first `loc` bytes of `bytes`.
pub fn position_of(bytes: &[u8], loc: usize) -> (pos: (usize, usize))
    requires
        loc <= bytes@.len(),
    ensures
        (pos.0 as int, pos.1 as int) == end_position(bytes@.take(loc as int)),
{
    let ghost s = bytes@.take(loc as int);
    let ghost mut done: Seq<Seq<u8>> = Seq::empty();
    let mut count: usize = 0;
    let mut last_len: usize = 0;
    let mut start: usize = 0;
    let mut i: usize = 0;
    while i < loc
        invariant
            loc <= bytes@.len(),
            s == bytes@.take(loc as int),
            start <= i <= loc,
            lines(s) == done + scan_lines(s, i as int, start as int),
            count == done.len(),
            count <= i,
            done.len() > 0 ==> last_len == done.last().len(),
            last_len <= loc,
        decreases loc - i,
    {
        if bytes[i] == LF {
            let ghost line = without_cr(s.subrange(start as int, i as int));
            let mut len: usize = i - start;
            if len > 0 && bytes[i - 1] == CR {
                len = len - 1;
            }
            proof {
                assert(done + (seq![line] + scan_lines(s, i + 1, i + 1)) == (done + seq![line])
                    + scan_lines(s, i + 1, i + 1));
                done = done + seq![line];
            }
            count = count + 1;
            last_len = len;
            start = i + 1;
        }
        i = i + 1;
    }
    if start < loc {
        proof {
            done = done + seq![s.subrange(start as int, s.len() as int)];
        }
        (count, loc - start)
    } else {
        if count == 0 {
            (0, 0)
        } else {
            (count - 1, last_len)
        }
    }
}

} // verus!
