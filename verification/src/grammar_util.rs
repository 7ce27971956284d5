//! Helpers for the parser: comment stripping and the tables of literals.

use itertools::Itertools;
use vstd::prelude::*;
use vstd::string::*;
use vstd::utf8::*;
use vstd::slice::slice_to_vec;
use crate::program::{
    ArgListNode, ExprListNode, ExprNode, Kind, Name, Node, NumberLiteral, OptTypeNode, Program,
    StmtListNode, StmtNode, StringLiteral, TypeListNode, TypeNode,
};
use crate::text::{find_line_feed, joined, lemma_scan_lines_skip, lines, scan_lines, without_cr, CR, LF};

verus! {

/// The byte of a slash.
pub const SLASH: u8 = 47u8;

/// The index at or after `from` at which the first line comment of `line` begins, or the
/// length of `line` where it holds none.
pub open spec fn comment_start(line: Seq<u8>, from: int) -> int
    decreases line.len() - from,
{
    if from + 1 >= line.len() {
        line.len() as int
    } else if line[from] == SLASH && line[from + 1] == SLASH {
        from
    } else {
        comment_start(line, from + 1)
    }
}

/// A line without its line comment.
pub open spec fn without_comment(line: Seq<u8>) -> Seq<u8> {
    line.take(comment_start(line, 0))
}

/// The lines, each without its line comment.
pub open spec fn cut(ls: Seq<Seq<u8>>) -> Seq<Seq<u8>> {
    ls.map_values(|l: Seq<u8>| without_comment(l))
}

/// A text without its line comments: every line cut off where its comment begins, and
/// the lines joined by line feeds.
pub open spec fn erased(s: Seq<u8>) -> Seq<u8> {
    joined(cut(lines(s)), seq![LF])
}

/// The bytes of each part.
pub open spec fn bytes_of_parts(parts: Seq<&str>) -> Seq<Seq<u8>> {
    parts.map_values(|p: &str| p.spec_bytes())
}

/// Calls `Itertools::join` on the parts: the result is the first part, and then for each
/// further part the separator and that part.
#[verifier::external_body]
fn join(parts: &Vec<&str>, sep: &str) -> (out: String)
    ensures
        encode_utf8(out@) == joined(bytes_of_parts(parts@), sep.spec_bytes()),
{
    parts.iter().join(sep)
}

/// Finds where the line comment of the line `bytes[from..to]` begins.
fn find_comment(bytes: &[u8], from: usize, to: usize) -> (c: usize)
    requires
        from <= to <= bytes@.len(),
    ensures
        from <= c <= to,
        c - from == comment_start(bytes@.subrange(from as int, to as int), 0),
        c < to ==> bytes@[c as int] == SLASH,
{
    let ghost line = bytes@.subrange(from as int, to as int);
    let mut c: usize = from;
    while c < to
        invariant
            from <= c <= to <= bytes@.len(),
            line == bytes@.subrange(from as int, to as int),
            comment_start(line, 0) == comment_start(line, c - from),
        decreases to - c,
    {
        if c + 1 >= to {
            return to;
        }
        if bytes[c] == SLASH && bytes[c + 1] == SLASH {
            return c;
        }
        c = c + 1;
    }
    c
}

/// A byte below 128 begins a character.
proof fn lemma_ascii_is_boundary(b: Seq<u8>, k: int)
    requires
        valid_utf8(b),
        0 <= k <= b.len(),
        k < b.len() ==> b[k] < 128,
    ensures
        is_char_boundary(b, k),
{
    if k < b.len() {
        is_char_boundary_iff_not_is_continuation_byte(b, k);
    } else {
        is_char_boundary_start_end_of_seq(b);
    }
}

/// After a first byte below 128 a character begins.
proof fn lemma_after_ascii_is_boundary(b: Seq<u8>)
    requires
        valid_utf8(b),
        b.len() > 0,
        b[0] < 128,
    ensures
        is_char_boundary(b, 1),
{
    reveal_with_fuel(is_char_boundary, 2);
    reveal_with_fuel(valid_utf8, 2);
}

/// Erases all line comments, that is those starting with `//`.
///
/// Only suffixes of lines are removed, so a line and column in the result denote the
/// same byte in `src`.
pub fn erase_comments(src: &str) -> (out: String)
    ensures
        encode_utf8(out@) == erased(src.spec_bytes()),
{
    let bytes = src.as_bytes();
    let n = bytes.len();
    let ghost s = src.spec_bytes();
    let ghost mut done: Seq<Seq<u8>> = Seq::empty();
    let mut pieces: Vec<&str> = Vec::new();
    let mut rest: &str = src;
    let mut pos: usize = 0;
    assert(s.subrange(0, n as int) == s);
    while pos < n
        invariant
            bytes@ == s,
            n == s.len(),
            pos <= n,
            pos < n ==> rest.spec_bytes() == s.subrange(pos as int, n as int),
            lines(s) == done + scan_lines(s, pos as int, pos as int),
            bytes_of_parts(pieces@) == cut(done),
        decreases n - pos,
    {
        let e = find_line_feed(bytes, pos);
        let end = if e < n && e > pos && bytes[e - 1] == CR {
            e - 1
        } else {
            e
        };
        let c = find_comment(bytes, pos, end);
        let ghost line = s.subrange(pos as int, end as int);
        proof {
            lemma_scan_lines_skip(s, pos as int, e as int, pos as int);
            if e < n {
                assert(line == without_cr(s.subrange(pos as int, e as int)));
            }
            assert(scan_lines(s, pos as int, pos as int) == seq![line] + scan_lines(
                s,
                e + 1,
                e + 1,
            )) by {
                if e >= n {
                    assert(scan_lines(s, e + 1, e + 1) == Seq::<Seq<u8>>::empty());
                    assert(seq![line] + Seq::<Seq<u8>>::empty() == seq![line]);
                }
            }
            let r = rest.spec_bytes();
            encode_utf8_valid_utf8(rest@);
            assert(valid_utf8(r));
            if c < n {
                assert(r[c - pos] == s[c as int]);
            }
            lemma_ascii_is_boundary(r, c - pos);
        }
        let (piece, tail) = rest.split_at(c - pos);
        proof {
            assert(piece.spec_bytes() == without_comment(line)) by {
                assert(piece.spec_bytes() == s.subrange(pos as int, c as int));
                assert(line.take(c - pos) == s.subrange(pos as int, c as int));
            }
        }
        let ghost old_pieces = pieces@;
        pieces.push(piece);
        proof {
            assert(bytes_of_parts(pieces@) == cut(done + seq![line])) by {
                assert(bytes_of_parts(pieces@) =~= bytes_of_parts(old_pieces).push(
                    piece.spec_bytes(),
                ));
                assert(cut(done + seq![line]) =~= cut(done).push(without_comment(line)));
            }
            assert(done + (seq![line] + scan_lines(s, e + 1, e + 1)) == (done + seq![line])
                + scan_lines(s, e + 1, e + 1));
            done = done + seq![line];
        }
        if e < n {
            proof {
                let t = tail.spec_bytes();
                assert(t == s.subrange(c as int, n as int));
                encode_utf8_valid_utf8(tail@);
                assert(valid_utf8(t));
                assert(t[e - c] == s[e as int]);
                lemma_ascii_is_boundary(t, e - c);
            }
            let (_, at_feed) = tail.split_at(e - c);
            proof {
                let a = at_feed.spec_bytes();
                assert(a == s.subrange(e as int, n as int));
                encode_utf8_valid_utf8(at_feed@);
                assert(valid_utf8(a));
                assert(a[0] == s[e as int]);
                lemma_after_ascii_is_boundary(a);
            }
            let (_, next) = at_feed.split_at(1);
            assert(next.spec_bytes() == s.subrange(e + 1, n as int));
            rest = next;
            pos = e + 1;
        } else {
            pos = n;
            proof {
                assert(scan_lines(s, e + 1, e + 1) == scan_lines(s, n as int, n as int));
            }
        }
    }
    assert(scan_lines(s, pos as int, pos as int) == Seq::<Seq<u8>>::empty());
    assert(done + Seq::<Seq<u8>>::empty() == done);
    proof {
        reveal_strlit("\n");
        assert("\n"@ =~= seq!['\n']);
        assert("\n".spec_bytes() =~= seq![LF]) by {
            is_ascii_chars_encode_utf8("\n"@);
        }
    }
    join(&pieces, "\n")
}

/// A type without values: the error of a parser that has no errors of its own.
pub enum NeverType {
    Never(core::convert::Infallible),
}

/// Whether no text stands twice in the table.
pub open spec fn distinct(table: Seq<Vec<u8>>) -> bool {
    forall|i: int, j: int| 0 <= i < j < table.len() ==> table[i]@ != table[j]@
}

/// Whether two texts are the same.
pub fn same_bytes(a: &[u8], b: &[u8]) -> (same: bool)
    ensures
        same == (a@ == b@),
{
    if a.len() != b.len() {
        return false;
    }
    let mut i: usize = 0;
    while i < a.len()
        invariant
            a@.len() == b@.len(),
            i <= a@.len(),
            forall|j: int| 0 <= j < i ==> a@[j] == b@[j],
        decreases a@.len() - i,
    {
        if a[i] != b[i] {
            return false;
        }
        i = i + 1;
    }
    assert(a@ =~= b@);
    true
}

/// The index of `text` in the table.
pub fn position(table: &Vec<Vec<u8>>, text: &[u8]) -> (found: Option<usize>)
    ensures
        match found {
            Some(i) => i < table@.len() && table@[i as int]@ == text@,
            None => forall|j: int| 0 <= j < table@.len() ==> table@[j]@ != text@,
        },
{
    let mut i: usize = 0;
    while i < table.len()
        invariant
            i <= table@.len(),
            forall|j: int| 0 <= j < i ==> table@[j]@ != text@,
        decreases table@.len() - i,
    {
        if same_bytes(table[i].as_slice(), text) {
            return Some(i);
        }
        i = i + 1;
    }
    None
}

/// The index of `text` in the table, which gets a new entry at its end where it does not
/// hold the text yet.
pub fn intern(table: &mut Vec<Vec<u8>>, text: &[u8]) -> (i: usize)
    requires
        distinct(old(table)@),
    ensures
        distinct(final(table)@),
        i < final(table)@.len(),
        final(table)@[i as int]@ == text@,
        final(table)@ == old(table)@ || final(table)@ == old(table)@.push(final(table)@[i as int]),
        final(table)@ == old(table)@ <==> exists|j: int|
            0 <= j < old(table)@.len() && old(table)@[j]@ == text@,
{
    match position(table, text) {
        Some(i) => i,
        None => {
            let i = table.len();
            table.push(slice_to_vec(text));
            assert(final(table)@.len() != old(table)@.len());
            i
        },
    }
}

/// The tables of the identifiers and literals of a text. A name or a literal is its
/// index in its table, so equal texts are equal names.
#[derive(Clone, Debug)]
pub struct Literals {
    pub names: Vec<Vec<u8>>,
    pub strings: Vec<Vec<u8>>,
    pub numbers: Vec<Vec<u8>>,
}

impl Literals {
    /// No text stands twice in a table.
    pub open spec fn wf(&self) -> bool {
        distinct(self.names@) && distinct(self.strings@) && distinct(self.numbers@)
    }

    /// Whether `other` holds the names and literals of `self`, at their indices.
    pub open spec fn kept_by(&self, other: &Literals) -> bool {
        &&& self.names@.len() <= other.names@.len()
        &&& self.strings@.len() <= other.strings@.len()
        &&& self.numbers@.len() <= other.numbers@.len()
        &&& forall|i: int|
            0 <= i < self.names@.len() ==> #[trigger] other.names@[i] == self.names@[i]
        &&& forall|i: int|
            0 <= i < self.strings@.len() ==> #[trigger] other.strings@[i] == self.strings@[i]
        &&& forall|i: int|
            0 <= i < self.numbers@.len() ==> #[trigger] other.numbers@[i] == self.numbers@[i]
    }

    /// Keeping is transitive.
    pub proof fn lemma_kept_trans(&self, mid: &Literals, other: &Literals)
        requires
            self.kept_by(mid),
            mid.kept_by(other),
        ensures
            self.kept_by(other),
    {
        assert forall|i: int| 0 <= i < self.names@.len() implies #[trigger] other.names@[i]
            == self.names@[i] by {
            assert(mid.names@[i] == self.names@[i]);
        }
        assert forall|i: int| 0 <= i < self.strings@.len() implies #[trigger] other.strings@[i]
            == self.strings@[i] by {
            assert(mid.strings@[i] == self.strings@[i]);
        }
        assert forall|i: int| 0 <= i < self.numbers@.len() implies #[trigger] other.numbers@[i]
            == self.numbers@[i] by {
            assert(mid.numbers@[i] == self.numbers@[i]);
        }
    }

    /// Empty tables.
    pub fn new() -> (lits: Literals)
        ensures
            lits.wf(),
            lits.names@.len() == 0,
            lits.strings@.len() == 0,
            lits.numbers@.len() == 0,
    {
        Literals { names: Vec::new(), strings: Vec::new(), numbers: Vec::new() }
    }

    /// The name that is written `text`.
    pub fn name(&mut self, text: &[u8]) -> (n: Name)
        requires
            old(self).wf(),
        ensures
            final(self).wf(),
            n.0 < final(self).names@.len(),
            final(self).names@[n.0 as int]@ == text@,
            final(self).strings == old(self).strings,
            final(self).numbers == old(self).numbers,
            old(self).names@.len() <= final(self).names@.len(),
            final(self).names@.take(old(self).names@.len() as int) == old(self).names@,
            old(self).kept_by(final(self)),
    {
        let i = intern(&mut self.names, text);
        assert(self.names@.take(old(self).names@.len() as int) =~= old(self).names@);
        assert forall|k: int| 0 <= k < old(self).names@.len() implies #[trigger] self.names@[k]
            == old(self).names@[k] by {
            assert(self.names@.take(old(self).names@.len() as int)[k] == self.names@[k]);
        }
        Name(i)
    }

    /// The string literal that is written `text`.
    pub fn string(&mut self, text: &[u8]) -> (n: StringLiteral)
        requires
            old(self).wf(),
        ensures
            final(self).wf(),
            n.0 < final(self).strings@.len(),
            final(self).strings@[n.0 as int]@ == text@,
            final(self).names == old(self).names,
            final(self).numbers == old(self).numbers,
            old(self).strings@.len() <= final(self).strings@.len(),
            final(self).strings@.take(old(self).strings@.len() as int) == old(self).strings@,
            old(self).kept_by(final(self)),
    {
        let i = intern(&mut self.strings, text);
        assert(self.strings@.take(old(self).strings@.len() as int) =~= old(self).strings@);
        assert forall|k: int| 0 <= k < old(self).strings@.len() implies #[trigger] self.strings@[k]
            == old(self).strings@[k] by {
            assert(self.strings@.take(old(self).strings@.len() as int)[k] == self.strings@[k]);
        }
        StringLiteral(i)
    }

    /// The number literal that is written `text`.
    pub fn number(&mut self, text: &[u8]) -> (n: NumberLiteral)
        requires
            old(self).wf(),
        ensures
            final(self).wf(),
            n.0 < final(self).numbers@.len(),
            final(self).numbers@[n.0 as int]@ == text@,
            final(self).names == old(self).names,
            final(self).strings == old(self).strings,
            old(self).numbers@.len() <= final(self).numbers@.len(),
            final(self).numbers@.take(old(self).numbers@.len() as int) == old(self).numbers@,
            old(self).kept_by(final(self)),
    {
        let i = intern(&mut self.numbers, text);
        assert(self.numbers@.take(old(self).numbers@.len() as int) =~= old(self).numbers@);
        assert forall|k: int| 0 <= k < old(self).numbers@.len() implies #[trigger] self.numbers@[k]
            == old(self).numbers@[k] by {
            assert(self.numbers@.take(old(self).numbers@.len() as int)[k] == self.numbers@[k]);
        }
        NumberLiteral(i)
    }

    /// The name that is written `text`, if the text holds it.
    pub fn find_name(&self, text: &[u8]) -> (found: Option<Name>)
        ensures
            match found {
                Some(n) => n.0 < self.names@.len() && self.names@[n.0 as int]@ == text@,
                None => forall|j: int| 0 <= j < self.names@.len() ==> self.names@[j]@ != text@,
            },
    {
        match position(&self.names, text) {
            Some(i) => Some(Name(i)),
            None => None,
        }
    }
}

/// Adds the list of the expressions `nodes`, in their order.
pub fn expr_list_node(nodes: &[ExprNode], p: &mut Program) -> (l: ExprListNode)
    requires
        old(p).wf(),
        forall|i: int| 0 <= i < nodes@.len() ==> old(p).has(#[trigger] nodes@[i].0, Kind::Expr),
    ensures
        final(p).wf(),
        old(p).extended_by(final(p)),
        old(p).grown_to(final(p)),
        final(p)@.len() == old(p)@.len() + nodes@.len() + 1,
        final(p).has(l.0, Kind::ExprList),
        l.0 + 1 == final(p)@.len(),
        forall|i: int|
            old(p)@.len() <= i < final(p)@.len() ==> (#[trigger] final(p)@[i]).kind() == Kind::ExprList,
        final(p).expr_list(l) == nodes@,
{
    let mut l = ExprListNode(p.add(Node::NilExprList));
    let mut i: usize = nodes.len();
    while i > 0
        invariant
            p.wf(),
            old(p).extended_by(p),
            forall|k: int| 0 <= k < old(p)@.len() ==> #[trigger] p.spans@[k] == old(p).spans@[k],
            i <= nodes@.len(),
            p@.len() == old(p)@.len() + (nodes@.len() - i) + 1,
            p.has(l.0, Kind::ExprList),
            l.0 + 1 == p@.len(),
            forall|k: int| old(p)@.len() <= k < p@.len() ==> (#[trigger] p@[k]).kind() == Kind::ExprList,
            p.expr_list(l) == nodes@.subrange(i as int, nodes@.len() as int),
            forall|i: int| 0 <= i < nodes@.len() ==> old(p).has(#[trigger] nodes@[i].0, Kind::Expr),
        decreases i,
    {
        i = i - 1;
        let ghost before = *p;
        proof {
            old(p).lemma_has_stable(p, nodes@[i as int].0, Kind::Expr);
        }
        let cons = ExprListNode(p.add(Node::ConsExprList(nodes[i], l)));
        proof {
            before.lemma_expr_list_stable(p, l);
            old(p).lemma_extended_trans(&before, p);
            assert(p.expr_list(cons) == seq![nodes@[i as int]] + p.expr_list(l));
            assert(seq![nodes@[i as int]] + nodes@.subrange(i + 1, nodes@.len() as int)
                == nodes@.subrange(i as int, nodes@.len() as int));
        }
        l = cons;
    }
    assert(nodes@.subrange(0, nodes@.len() as int) == nodes@);
    proof {
        old(p).lemma_extended_grown(p);
    }
    l
}

/// Adds the list of the statements `nodes`, in their order.
pub fn stmt_list_node(nodes: &[StmtNode], p: &mut Program) -> (l: StmtListNode)
    requires
        old(p).wf(),
        forall|i: int| 0 <= i < nodes@.len() ==> old(p).has(#[trigger] nodes@[i].0, Kind::Stmt),
    ensures
        final(p).wf(),
        old(p).extended_by(final(p)),
        old(p).grown_to(final(p)),
        final(p)@.len() == old(p)@.len() + nodes@.len() + 1,
        final(p).has(l.0, Kind::StmtList),
        l.0 + 1 == final(p)@.len(),
        forall|i: int|
            old(p)@.len() <= i < final(p)@.len() ==> (#[trigger] final(p)@[i]).kind() == Kind::StmtList,
        final(p).stmt_list(l) == nodes@,
{
    let mut l = StmtListNode(p.add(Node::NilStmtList));
    let mut i: usize = nodes.len();
    while i > 0
        invariant
            p.wf(),
            old(p).extended_by(p),
            forall|k: int| 0 <= k < old(p)@.len() ==> #[trigger] p.spans@[k] == old(p).spans@[k],
            i <= nodes@.len(),
            p@.len() == old(p)@.len() + (nodes@.len() - i) + 1,
            p.has(l.0, Kind::StmtList),
            l.0 + 1 == p@.len(),
            forall|k: int| old(p)@.len() <= k < p@.len() ==> (#[trigger] p@[k]).kind() == Kind::StmtList,
            p.stmt_list(l) == nodes@.subrange(i as int, nodes@.len() as int),
            forall|i: int| 0 <= i < nodes@.len() ==> old(p).has(#[trigger] nodes@[i].0, Kind::Stmt),
        decreases i,
    {
        i = i - 1;
        let ghost before = *p;
        proof {
            old(p).lemma_has_stable(p, nodes@[i as int].0, Kind::Stmt);
        }
        let cons = StmtListNode(p.add(Node::ConsStmtList(nodes[i], l)));
        proof {
            before.lemma_stmt_list_stable(p, l);
            old(p).lemma_extended_trans(&before, p);
            assert(p.stmt_list(cons) == seq![nodes@[i as int]] + p.stmt_list(l));
            assert(seq![nodes@[i as int]] + nodes@.subrange(i + 1, nodes@.len() as int)
                == nodes@.subrange(i as int, nodes@.len() as int));
        }
        l = cons;
    }
    assert(nodes@.subrange(0, nodes@.len() as int) == nodes@);
    proof {
        old(p).lemma_extended_grown(p);
    }
    l
}

/// Adds the list of the types `nodes`, in their order.
pub fn type_list_node(nodes: &[TypeNode], p: &mut Program) -> (l: TypeListNode)
    requires
        old(p).wf(),
        forall|i: int| 0 <= i < nodes@.len() ==> old(p).has(#[trigger] nodes@[i].0, Kind::Type),
    ensures
        final(p).wf(),
        old(p).extended_by(final(p)),
        old(p).grown_to(final(p)),
        final(p)@.len() == old(p)@.len() + nodes@.len() + 1,
        final(p).has(l.0, Kind::TypeList),
        l.0 + 1 == final(p)@.len(),
        forall|i: int|
            old(p)@.len() <= i < final(p)@.len() ==> (#[trigger] final(p)@[i]).kind() == Kind::TypeList,
        final(p).type_list(l) == nodes@,
{
    let mut l = TypeListNode(p.add(Node::NilTypeList));
    let mut i: usize = nodes.len();
    while i > 0
        invariant
            p.wf(),
            old(p).extended_by(p),
            forall|k: int| 0 <= k < old(p)@.len() ==> #[trigger] p.spans@[k] == old(p).spans@[k],
            i <= nodes@.len(),
            p@.len() == old(p)@.len() + (nodes@.len() - i) + 1,
            p.has(l.0, Kind::TypeList),
            l.0 + 1 == p@.len(),
            forall|k: int| old(p)@.len() <= k < p@.len() ==> (#[trigger] p@[k]).kind() == Kind::TypeList,
            p.type_list(l) == nodes@.subrange(i as int, nodes@.len() as int),
            forall|i: int| 0 <= i < nodes@.len() ==> old(p).has(#[trigger] nodes@[i].0, Kind::Type),
        decreases i,
    {
        i = i - 1;
        let ghost before = *p;
        proof {
            old(p).lemma_has_stable(p, nodes@[i as int].0, Kind::Type);
        }
        let cons = TypeListNode(p.add(Node::ConsTypeList(nodes[i], l)));
        proof {
            before.lemma_type_list_stable(p, l);
            old(p).lemma_extended_trans(&before, p);
            assert(p.type_list(cons) == seq![nodes@[i as int]] + p.type_list(l));
            assert(seq![nodes@[i as int]] + nodes@.subrange(i + 1, nodes@.len() as int)
                == nodes@.subrange(i as int, nodes@.len() as int));
        }
        l = cons;
    }
    assert(nodes@.subrange(0, nodes@.len() as int) == nodes@);
    proof {
        old(p).lemma_extended_grown(p);
    }
    l
}

/// Adds the annotation `node`, or the node of an annotation that was left out.
pub fn opt_type_node(node: Option<TypeNode>, p: &mut Program) -> (otn: OptTypeNode)
    requires
        old(p).wf(),
        node matches Some(t) ==> old(p).has(t.0, Kind::Type),
    ensures
        final(p).wf(),
        old(p).extended_by(final(p)),
        old(p).grown_to(final(p)),
        final(p)@.len() == old(p)@.len() + 1,
        otn.0 == old(p)@.len(),
        final(p).has(otn.0, Kind::OptType),
        final(p)@[otn.0 as int] == (match node {
            Some(t) => Node::SomeOptType(t),
            None => Node::NoneOptType,
        }),
{
    match node {
        Some(node) => OptTypeNode(p.add(Node::SomeOptType(node))),
        None => OptTypeNode(p.add(Node::NoneOptType)),
    }
}

/// Adds the list of the arguments `args`, in their order.
pub fn arg_list_node(args: &[(Name, OptTypeNode)], p: &mut Program) -> (l: ArgListNode)
    requires
        old(p).wf(),
        forall|i: int| 0 <= i < args@.len() ==> old(p).has(#[trigger] args@[i].1.0, Kind::OptType),
    ensures
        final(p).wf(),
        old(p).extended_by(final(p)),
        old(p).grown_to(final(p)),
        final(p)@.len() == old(p)@.len() + args@.len() + 1,
        final(p).has(l.0, Kind::ArgList),
        l.0 + 1 == final(p)@.len(),
        forall|i: int|
            old(p)@.len() <= i < final(p)@.len() ==> (#[trigger] final(p)@[i]).kind() == Kind::ArgList,
        final(p).arg_list(l) == args@,
{
    let mut l = ArgListNode(p.add(Node::NilArgList));
    let mut i: usize = args.len();
    while i > 0
        invariant
            p.wf(),
            old(p).extended_by(p),
            forall|k: int| 0 <= k < old(p)@.len() ==> #[trigger] p.spans@[k] == old(p).spans@[k],
            i <= args@.len(),
            p@.len() == old(p)@.len() + (args@.len() - i) + 1,
            p.has(l.0, Kind::ArgList),
            l.0 + 1 == p@.len(),
            forall|k: int| old(p)@.len() <= k < p@.len() ==> (#[trigger] p@[k]).kind() == Kind::ArgList,
            p.arg_list(l) == args@.subrange(i as int, args@.len() as int),
            forall|i: int| 0 <= i < args@.len() ==> old(p).has(#[trigger] args@[i].1.0, Kind::OptType),
        decreases i,
    {
        i = i - 1;
        let ghost before = *p;
        proof {
            old(p).lemma_has_stable(p, args@[i as int].1.0, Kind::OptType);
        }
        let (name, otn) = args[i];
        let cons = ArgListNode(p.add(Node::ConsArgList(name, otn, l)));
        proof {
            before.lemma_arg_list_stable(p, l);
            old(p).lemma_extended_trans(&before, p);
            assert(p.arg_list(cons) == seq![args@[i as int]] + p.arg_list(l));
            assert(seq![args@[i as int]] + args@.subrange(i + 1, args@.len() as int)
                == args@.subrange(i as int, args@.len() as int));
        }
        l = cons;
    }
    assert(args@.subrange(0, args@.len() as int) == args@);
    proof {
        old(p).lemma_extended_grown(p);
    }
    l
}

} // verus!
