//! What holds of comment stripping: it keeps every byte at its line and column, and
//! stripping twice is stripping once.

use vstd::prelude::*;
use crate::grammar_util::{comment_start, cut, erased, without_comment, SLASH};
use crate::text::{joined, lines, scan_lines, without_cr, CR, LF};

verus! {

/// Whether `a` is the beginning of `b`.
pub open spec fn begins(a: Seq<u8>, b: Seq<u8>) -> bool {
    a.len() <= b.len() && b.take(a.len() as int) == a
}

/// Whether a text holds no line feed.
pub open spec fn one_line(t: Seq<u8>) -> bool {
    forall|i: int| 0 <= i < t.len() ==> t[i] != LF
}

/// Whether a text holds a carriage return directly before a line feed.
pub open spec fn holds_crlf(t: Seq<u8>) -> bool {
    exists|i: int| 0 < i < t.len() && #[trigger] t[i] == LF && t[i - 1] == CR
}

/// The lines of a text from an index on are the lines of the text from that index on.
pub proof fn lemma_scan_lines_shift(s: Seq<u8>, a: int, i: int, start: int)
    requires
        0 <= a <= s.len(),
        0 <= start <= i,
    ensures
        scan_lines(s, a + i, a + start) == scan_lines(s.skip(a), i, start),
    decreases s.len() - a - i,
{
    let t = s.skip(a);
    if a + i >= s.len() {
        if a + start < s.len() {
            assert(s.subrange(a + start, s.len() as int) =~= t.subrange(start, t.len() as int));
        }
    } else {
        assert(t[i] == s[a + i]);
        if s[a + i] == LF {
            assert(s.subrange(a + start, a + i) =~= t.subrange(start, i));
            lemma_scan_lines_shift(s, a, i + 1, i + 1);
        } else {
            lemma_scan_lines_shift(s, a, i + 1, start);
        }
    }
}

/// No line of a text holds a line feed.
pub proof fn lemma_lines_are_lines(s: Seq<u8>, i: int, start: int)
    requires
        0 <= start <= i <= s.len(),
        forall|j: int| start <= j < i ==> s[j] != LF,
    ensures
        forall|k: int|
            0 <= k < scan_lines(s, i, start).len() ==> one_line(#[trigger] scan_lines(s, i, start)[k]),
    decreases s.len() - i,
{
    if i >= s.len() {
        if start < s.len() {
            let last = s.subrange(start, s.len() as int);
            assert forall|j: int| 0 <= j < last.len() implies last[j] != LF by {
                assert(last[j] == s[start + j]);
            }
            assert(scan_lines(s, i, start)[0] == last);
            assert(one_line(last));
            assert(scan_lines(s, i, start) =~= seq![last]);
        }
        assert(forall|k: int|
            0 <= k < scan_lines(s, i, start).len() ==> one_line(
                #[trigger] scan_lines(s, i, start)[k],
            ));
    } else if s[i] == LF {
        lemma_lines_are_lines(s, i + 1, i + 1);
        let whole = s.subrange(start, i);
        let head = without_cr(whole);
        let rest = scan_lines(s, i + 1, i + 1);
        assert forall|j: int| 0 <= j < head.len() implies head[j] != LF by {
            assert(head[j] == whole[j]);
            assert(whole[j] == s[start + j]);
        }
        assert(one_line(head));
        assert forall|k: int| 0 <= k < scan_lines(s, i, start).len() implies one_line(
            #[trigger] scan_lines(s, i, start)[k],
        ) by {
            if k > 0 {
                assert(scan_lines(s, i, start)[k] == rest[k - 1]);
            }
        }
    } else {
        lemma_lines_are_lines(s, i + 1, start);
        assert(scan_lines(s, i, start) == scan_lines(s, i + 1, start));
    }
}

/// The lines of a text that holds no line feed: the text itself, unless it is empty.
pub proof fn lemma_lines_of_one_line(t: Seq<u8>, i: int)
    requires
        one_line(t),
        0 <= i <= t.len(),
    ensures
        scan_lines(t, i, 0) == (if t.len() > 0 {
            seq![t]
        } else {
            Seq::<Seq<u8>>::empty()
        }),
    decreases t.len() - i,
{
    if i < t.len() {
        lemma_lines_of_one_line(t, i + 1);
    } else if t.len() > 0 {
        assert(t.subrange(0, t.len() as int) =~= t);
    }
}

/// The part before the first line feed of a text is a line of its own.
pub proof fn lemma_lines_of_first(head: Seq<u8>, tail: Seq<u8>, i: int)
    requires
        one_line(head),
        0 <= i <= head.len(),
    ensures
        scan_lines(head + seq![LF] + tail, i, 0) == seq![without_cr(head)] + lines(tail),
    decreases head.len() - i,
{
    let s = head + seq![LF] + tail;
    if i < head.len() {
        assert(s[i] == head[i]);
        lemma_lines_of_first(head, tail, i + 1);
    } else {
        assert(s[i] == LF);
        assert(s.subrange(0, i) =~= head);
        lemma_scan_lines_shift(s, i + 1, 0, 0);
        assert(s.skip(i + 1) =~= tail);
    }
}

/// What is written with line feeds between lines without carriage returns at their
/// ends, the last of them not empty, has these lines.
pub open spec fn lines_when_joined(parts: Seq<Seq<u8>>) -> Seq<Seq<u8>>
    decreases parts.len(),
{
    if parts.len() == 0 {
        Seq::empty()
    } else if parts.len() == 1 {
        if parts[0].len() > 0 {
            seq![parts[0]]
        } else {
            Seq::empty()
        }
    } else {
        seq![without_cr(parts[0])] + lines_when_joined(parts.drop_first())
    }
}

/// The lines of parts that are joined by line feeds are the parts, each but the last
/// without the carriage return at its end, and the last only if it is not empty.
pub proof fn lemma_lines_of_joined(parts: Seq<Seq<u8>>)
    requires
        forall|k: int| 0 <= k < parts.len() ==> one_line(#[trigger] parts[k]),
    ensures
        lines(joined(parts, seq![LF])) == lines_when_joined(parts),
    decreases parts.len(),
{
    if parts.len() == 0 {
    } else if parts.len() == 1 {
        lemma_lines_of_one_line(parts[0], 0);
    } else {
        let rest = parts.drop_first();
        assert forall|k: int| 0 <= k < rest.len() implies one_line(#[trigger] rest[k]) by {
            assert(rest[k] == parts[k + 1]);
        }
        lemma_lines_of_joined(rest);
        lemma_lines_of_first(parts[0], joined(rest, seq![LF]), 0);
    }
}

/// A line that is cut off where its comment begins holds no comment, and neither does
/// any beginning of it.
pub proof fn lemma_cut_has_no_comment(line: Seq<u8>, from: int, cut: Seq<u8>)
    requires
        0 <= from,
        begins(cut, without_comment_from(line, from)),
    ensures
        comment_start(cut, from) == cut.len(),
    decreases line.len() - from,
{
    let whole = line.take(comment_start(line, from));
    lemma_comment_start_bounds(line, from);
    if from + 1 >= cut.len() {
    } else {
        assert(cut[from] == whole[from]);
        assert(cut[from + 1] == whole[from + 1]);
        assert(whole[from] == line[from]);
        assert(whole[from + 1] == line[from + 1]);
        assert(from + 1 < comment_start(line, from));
        assert(!(line[from] == SLASH && line[from + 1] == SLASH));
        assert(comment_start(line, from) == comment_start(line, from + 1));
        lemma_cut_has_no_comment(line, from + 1, cut);
    }
}

/// The line `line`, cut off where its first comment at or after `from` begins.
pub open spec fn without_comment_from(line: Seq<u8>, from: int) -> Seq<u8> {
    line.take(comment_start(line, from))
}

/// A comment begins at or after the index from which it is looked for, within the line.
pub proof fn lemma_comment_start_bounds(line: Seq<u8>, from: int)
    requires
        0 <= from,
    ensures
        from <= line.len() ==> from <= comment_start(line, from) <= line.len(),
        from > line.len() ==> comment_start(line, from) == line.len(),
    decreases line.len() - from,
{
    if from + 1 < line.len() && !(line[from] == SLASH && line[from + 1] == SLASH) {
        lemma_comment_start_bounds(line, from + 1);
    }
}

/// A text without comment is left as it is when its comment is cut off.
pub proof fn lemma_without_comment_fixed(line: Seq<u8>, cut: Seq<u8>)
    requires
        begins(cut, without_comment(line)),
    ensures
        without_comment(cut) == cut,
{
    lemma_cut_has_no_comment(line, 0, cut);
    assert(cut.take(cut.len() as int) =~= cut);
}

/// A line without the carriage return at its end is a beginning of the line.
pub proof fn lemma_without_cr_begins(line: Seq<u8>)
    ensures
        begins(without_cr(line), line),
{
    if line.len() > 0 && line.last() == CR {
        assert(line.take(line.len() - 1) =~= line.drop_last());
    } else {
        assert(line.take(line.len() as int) =~= line);
    }
}

/// The lines of the stripped text, as they are found from the cut lines of the source.
proof fn lemma_lines_when_joined_begin(parts: Seq<Seq<u8>>, k: int)
    requires
        0 <= k < lines_when_joined(parts).len(),
    ensures
        k < parts.len(),
        begins(lines_when_joined(parts)[k], parts[k]),
    decreases parts.len(),
{
    if parts.len() == 1 {
        assert(parts[0].take(parts[0].len() as int) =~= parts[0]);
    } else if parts.len() >= 2 {
        if k == 0 {
            lemma_without_cr_begins(parts[0]);
        } else {
            let rest = parts.drop_first();
            assert(lines_when_joined(parts)[k] == lines_when_joined(rest)[k - 1]);
            lemma_lines_when_joined_begin(rest, k - 1);
            assert(rest[k - 1] == parts[k]);
        }
    }
}

/// The cut lines of a text hold no line feed.
proof fn lemma_cut_lines(s: Seq<u8>)
    ensures
        cut(lines(s)).len() == lines(s).len(),
        forall|k: int| 0 <= k < lines(s).len() ==> one_line(#[trigger] cut(lines(s))[k]),
{
    lemma_lines_are_lines(s, 0, 0);
    let cut = cut(lines(s));
    assert forall|k: int| 0 <= k < lines(s).len() implies one_line(#[trigger] cut[k]) by {
        let l = lines(s)[k];
        assert(one_line(l));
        lemma_comment_start_bounds(l, 0);
        assert forall|i: int| 0 <= i < cut[k].len() implies cut[k][i] != LF by {
            assert(cut[k][i] == l[i]);
        }
    }
}

/// Comment stripping keeps every byte at its line and column: each line of the
/// stripped text is a beginning of the line of the source with the same number.
pub proof fn lemma_erase_keeps_positions(s: Seq<u8>, k: int)
    requires
        0 <= k < lines(erased(s)).len(),
    ensures
        k < lines(s).len(),
        begins(lines(erased(s))[k], lines(s)[k]),
{
    let cut = cut(lines(s));
    lemma_cut_lines(s);
    lemma_lines_of_joined(cut);
    lemma_lines_when_joined_begin(cut, k);
    let l = lines(s)[k];
    lemma_comment_start_bounds(l, 0);
    let a = lines(erased(s))[k];
    assert(begins(a, cut[k]));
    assert(cut[k] == l.take(comment_start(l, 0)));
    assert(l.take(a.len() as int) =~= cut[k].take(a.len() as int));
}

/// The lines that are joined are the lines of what they are joined to, where that
/// neither ends in a line feed nor holds a carriage return directly before one.
proof fn lemma_lines_when_joined_same(parts: Seq<Seq<u8>>)
    requires
        forall|k: int| 0 <= k < parts.len() ==> one_line(#[trigger] parts[k]),
        !holds_crlf(joined(parts, seq![LF])),
        !(joined(parts, seq![LF]).len() > 0 && joined(parts, seq![LF]).last() == LF),
        parts.len() != 1 || parts[0].len() > 0,
    ensures
        lines_when_joined(parts) == parts,
    decreases parts.len(),
{
    let sep = seq![LF];
    if parts.len() == 0 {
        assert(lines_when_joined(parts) =~= parts);
    } else if parts.len() == 1 {
        assert(lines_when_joined(parts) =~= parts);
    } else {
        let rest = parts.drop_first();
        let tail = joined(rest, sep);
        let whole = joined(parts, sep);
        let n = parts[0].len() as int;
        assert(whole == parts[0] + sep + tail);
        assert(whole[n] == LF);
        if n > 0 && parts[0].last() == CR {
            assert(whole[n - 1] == CR);
            assert(holds_crlf(whole));
        }
        assert(without_cr(parts[0]) == parts[0]);
        assert forall|k: int| 0 <= k < rest.len() implies one_line(#[trigger] rest[k]) by {
            assert(rest[k] == parts[k + 1]);
        }
        if holds_crlf(tail) {
            let i = choose|i: int| 0 < i < tail.len() && #[trigger] tail[i] == LF && tail[i - 1] == CR;
            assert(whole[n + 1 + i] == LF && whole[n + i] == CR);
            assert(holds_crlf(whole));
        }
        if tail.len() > 0 {
            assert(whole.last() == tail.last());
        } else {
            assert(whole.last() == LF);
        }
        if rest.len() == 1 {
            assert(tail == rest[0]);
        }
        lemma_lines_when_joined_same(rest);
        assert(lines_when_joined(parts) =~= parts);
    }
}

/// Stripping the comments of a stripped text changes nothing, where the stripped text
/// neither ends in a line feed nor holds a carriage return directly before one.
pub proof fn lemma_erase_idempotent(s: Seq<u8>)
    requires
        !holds_crlf(erased(s)),
        !(erased(s).len() > 0 && erased(s).last() == LF),
    ensures
        erased(erased(s)) == erased(s),
{
    let parts = cut(lines(s));
    let once = erased(s);
    lemma_cut_lines(s);
    lemma_lines_of_joined(parts);
    if parts.len() == 1 && parts[0].len() == 0 {
        assert(once =~= Seq::<u8>::empty());
        assert(lines(once) =~= Seq::<Seq<u8>>::empty());
        assert(cut(lines(once)) =~= Seq::<Seq<u8>>::empty());
    } else {
        lemma_lines_when_joined_same(parts);
        assert(lines(once) == parts);
        assert forall|k: int| 0 <= k < parts.len() implies without_comment(#[trigger] parts[k])
            == parts[k] by {
            let l = lines(s)[k];
            assert(parts[k] == without_comment(l));
            assert(without_comment(l).take(without_comment(l).len() as int) =~= without_comment(l));
            lemma_without_comment_fixed(l, parts[k]);
        }
        assert(cut(parts) =~= parts);
    }
}

} // verus!
