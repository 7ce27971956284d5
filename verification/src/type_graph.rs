//! The graph of type terms and the union-find over it.
//!
//! Every term belongs to one class. A class that holds a term other than a
//! metavariable is represented by such a term, and all its terms of that sort have the
//! same constructor. Merging is the only change that classes undergo.

use vstd::prelude::*;

verus! {

/// A type term, as an index into the graph.
#[derive(Clone, Copy, Debug, PartialEq, Eq, Structural)]
pub struct Ty(pub usize);

/// What a term is. Lists of types are terms too: `Nil` and `Cons`.
#[derive(Clone, Copy, Debug, PartialEq, Eq, Structural)]
pub enum Term {
    /// A type that is still to be found.
    MetaVar,
    Void,
    Boolean,
    Number,
    String,
    /// The product of the types in a list.
    Product(Ty),
    /// The functions from the types in a list to a type.
    Function(Ty, Ty),
    /// The empty list of types.
    Nil,
    /// A type and a list of further types.
    Cons(Ty, Ty),
}

impl Term {
    /// Whether the term is a metavariable.
    pub open spec fn is_meta(self) -> bool {
        self is MetaVar
    }

    /// Whether the term is a list of types.
    pub open spec fn is_list(self) -> bool {
        self is Nil || self is Cons
    }

    /// The terms that the term is made of.
    pub open spec fn parts(self) -> Seq<Ty> {
        match self {
            Term::Product(l) => seq![l],
            Term::Function(d, c) => seq![d, c],
            Term::Cons(h, t) => seq![h, t],
            _ => Seq::empty(),
        }
    }

    /// Whether part `k` of the term has to be a list of types.
    pub open spec fn part_is_list(self, k: int) -> bool {
        match self {
            Term::Product(_) => true,
            Term::Function(_, _) => k == 0,
            Term::Cons(_, _) => k == 1,
            _ => false,
        }
    }

    /// Whether two terms have the same constructor.
    pub open spec fn same_head(self, other: Term) -> bool {
        match (self, other) {
            (Term::MetaVar, Term::MetaVar) => true,
            (Term::Void, Term::Void) => true,
            (Term::Boolean, Term::Boolean) => true,
            (Term::Number, Term::Number) => true,
            (Term::String, Term::String) => true,
            (Term::Product(_), Term::Product(_)) => true,
            (Term::Function(_, _), Term::Function(_, _)) => true,
            (Term::Nil, Term::Nil) => true,
            (Term::Cons(_, _), Term::Cons(_, _)) => true,
            _ => false,
        }
    }
}

/// A way to put the terms of a graph into classes, with a rank for each term.
///
/// It is a solution of the graph where it makes the terms of each class agree, and
/// where no class is a part of itself.
pub ghost struct Solution {
    /// The class of each term.
    pub class: Seq<int>,
    /// The rank of each term.
    pub rank: Seq<nat>,
}

impl Solution {
    /// Whether two terms are in one class.
    pub open spec fn same(self, i: int, j: int) -> bool {
        self.class[i] == self.class[j]
    }
}

/// What a graph says: its terms, the representative of each term's class, and the
/// obligations that are still to be met.
pub ghost struct Classes {
    pub terms: Seq<Term>,
    pub root: Seq<int>,
    pub queue: Seq<(Ty, Ty)>,
}

/// Part `k` of term `i`.
#[verifier::inline]
pub open spec fn term_part(terms: Seq<Term>, i: int, k: int) -> int {
    terms[i].parts()[k].0 as int
}

/// Whether the classes `label` are made of whole classes with the representatives `root`.
pub open spec fn follows(root: Seq<int>, label: Seq<int>) -> bool {
    &&& label.len() == root.len()
    &&& forall|i: int| 0 <= i < root.len() ==> label[i] == label[#[trigger] root[i]]
}

/// Whether the classes `label` meet every obligation of `queue`.
pub open spec fn meets(queue: Seq<(Ty, Ty)>, label: Seq<int>) -> bool {
    forall|q: int|
        0 <= q < queue.len() ==> {
            let (a, b) = #[trigger] queue[q];
            label[a.0 as int] == label[b.0 as int]
        }
}

/// Whether `sol` solves the terms: in each class the terms that are no metavariables
/// have one constructor and, place by place, parts of one class; a class has one rank;
/// and the rank falls from every term to its parts.
pub open spec fn models(terms: Seq<Term>, sol: Solution) -> bool {
    &&& sol.class.len() == terms.len()
    &&& sol.rank.len() == terms.len()
    &&& forall|i: int, j: int|
        0 <= i < terms.len() && 0 <= j < terms.len() && #[trigger] sol.same(i, j)
            && !terms[i].is_meta() && !terms[j].is_meta() ==> terms[i].same_head(terms[j])
    &&& forall|i: int, j: int, k: int|
        #![trigger sol.same(i, j), term_part(terms, i, k)]
        0 <= i < terms.len() && 0 <= j < terms.len() && sol.same(i, j) && !terms[i].is_meta()
            && !terms[j].is_meta() && 0 <= k < terms[i].parts().len() ==> sol.same(
            term_part(terms, i, k),
            term_part(terms, j, k),
        )
    &&& forall|i: int, j: int|
        0 <= i < terms.len() && 0 <= j < terms.len() && #[trigger] sol.same(i, j) ==> sol.rank[i]
            == sol.rank[j]
    &&& forall|i: int, k: int|
        0 <= i < terms.len() && 0 <= k < terms[i].parts().len() ==> sol.rank[#[trigger] term_part(
            terms,
            i,
            k,
        )] < sol.rank[i]
}

/// Whether `a` and `b` are in one class wherever the classes with the representatives
/// `root` are kept and the obligations of `queue` met.
pub open spec fn entailed(root: Seq<int>, queue: Seq<(Ty, Ty)>, a: int, b: int) -> bool {
    forall|label: Seq<int>|
        #![trigger follows(root, label)]
        follows(root, label) && meets(queue, label) ==> label[a] == label[b]
}

impl Classes {
    /// Part `k` of term `i`.
    #[verifier::inline]
    pub open spec fn part(self, i: int, k: int) -> int {
        term_part(self.terms, i, k)
    }

    /// Whether the classes `label` are made of whole classes of the graph.
    #[verifier::inline]
    pub open spec fn follows(self, label: Seq<int>) -> bool {
        follows(self.root, label)
    }

    /// Whether the classes `label` meet every obligation of the graph.
    #[verifier::inline]
    pub open spec fn meets(self, label: Seq<int>) -> bool {
        meets(self.queue, label)
    }

    /// Whether `sol` solves the terms of the graph.
    #[verifier::inline]
    pub open spec fn models(self, sol: Solution) -> bool {
        models(self.terms, sol)
    }

    /// Whether `sol` is a solution of the graph: it solves the terms, keeps the classes
    /// that the graph has made, and meets its obligations.
    pub open spec fn admits(self, sol: Solution) -> bool {
        models(self.terms, sol) && follows(self.root, sol.class) && meets(self.queue, sol.class)
    }

    /// Whether `a` and `b` are in one class wherever the classes of the graph are kept
    /// and its obligations met.
    #[verifier::inline]
    pub open spec fn entailed(self, a: int, b: int) -> bool {
        entailed(self.root, self.queue, a, b)
    }

    /// Whether the parts of every term will be in the classes of the parts of its
    /// representative once the obligations are met.
    pub open spec fn half_closed(self) -> bool {
        forall|i: int, k: int|
            0 <= i < self.terms.len() && !self.terms[i].is_meta() && 0 <= k
                < self.terms[i].parts().len() ==> entailed(
                self.root,
                self.queue,
                #[trigger] term_part(self.terms, i, k),
                term_part(self.terms, self.root[i], k),
            )
    }

    /// Whether the parts of every term are in the classes of the parts of its
    /// representative.
    pub open spec fn closed(self) -> bool {
        forall|i: int, k: int|
            0 <= i < self.terms.len() && !self.terms[i].is_meta() && 0 <= k
                < self.terms[i].parts().len() ==> self.root[#[trigger] term_part(
                self.terms,
                i,
                k,
            )] == self.root[term_part(self.terms, self.root[i], k)]
    }
}

/// The number of terms below `m` that the class of the representative `r` holds.
pub open spec fn members(root: Seq<int>, r: int, m: int) -> nat
    decreases m,
{
    if m <= 0 {
        0
    } else {
        members(root, r, m - 1) + (if root[m - 1] == r {
            1nat
        } else {
            0nat
        })
    }
}

/// A class holds as many terms as before where the terms keep their representatives,
/// or change them among other representatives.
pub proof fn lemma_members_kept(root: Seq<int>, other: Seq<int>, r: int, m: int)
    requires
        0 <= m <= root.len(),
        m <= other.len(),
        forall|i: int| 0 <= i < m ==> ((#[trigger] other[i]) == r <==> root[i] == r),
    ensures
        members(other, r, m) == members(root, r, m),
    decreases m,
{
    if m > 0 {
        lemma_members_kept(root, other, r, m - 1);
    }
}

/// A class that holds no term holds none.
pub proof fn lemma_members_none(root: Seq<int>, r: int, m: int)
    requires
        0 <= m <= root.len(),
        forall|i: int| 0 <= i < m ==> #[trigger] root[i] != r,
    ensures
        members(root, r, m) == 0,
    decreases m,
{
    if m > 0 {
        lemma_members_none(root, r, m - 1);
    }
}

/// Two classes that are made one hold together what they held, and two classes hold
/// no more terms than there are.
pub proof fn lemma_members_joined(root: Seq<int>, other: Seq<int>, x: int, y: int, m: int)
    requires
        0 <= m <= root.len(),
        m <= other.len(),
        x != y,
        forall|i: int|
            0 <= i < m ==> #[trigger] other[i] == (if root[i] == x {
                y
            } else {
                root[i]
            }),
    ensures
        members(other, y, m) == members(root, x, m) + members(root, y, m),
        members(root, x, m) + members(root, y, m) <= m,
    decreases m,
{
    if m > 0 {
        lemma_members_joined(root, other, x, y, m - 1);
    }
}

/// The number of indices below `m` that are their own parent.
pub open spec fn roots_below(parent: Seq<usize>, m: int) -> nat
    decreases m,
{
    if m <= 0 {
        0
    } else {
        roots_below(parent, m - 1) + (if parent[m - 1] == m - 1 {
            1nat
        } else {
            0nat
        })
    }
}

/// Forests with the same roots have as many.
pub proof fn lemma_roots_kept(p: Seq<usize>, q: Seq<usize>, m: int)
    requires
        0 <= m <= p.len(),
        p.len() == q.len(),
        forall|j: int| 0 <= j < m ==> (p[j] == j) == (q[j] == j),
    ensures
        roots_below(p, m) == roots_below(q, m),
    decreases m,
{
    if m > 0 {
        lemma_roots_kept(p, q, m - 1);
    }
}

/// A forest in which one root has got a parent has one root less.
pub proof fn lemma_roots_one_less(p: Seq<usize>, q: Seq<usize>, x: int, m: int)
    requires
        0 <= m <= p.len(),
        p.len() == q.len(),
        0 <= x < p.len(),
        p[x] == x,
        q[x] != x,
        forall|j: int| 0 <= j < m && j != x ==> p[j] == q[j],
    ensures
        roots_below(p, m) == roots_below(q, m) + (if x < m {
            1nat
        } else {
            0nat
        }),
    decreases m,
{
    if m > 0 {
        lemma_roots_one_less(p, q, x, m - 1);
    }
}

/// The graph of type terms, with the obligations that are still to be met.
pub struct TypeGraph {
    /// The terms. A term never changes.
    pub terms: Vec<Term>,
    /// The union-find forest: a term that is its own parent represents its class.
    pub parent: Vec<usize>,
    /// For a representative, the number of terms in its class.
    pub size: Vec<usize>,
    /// Pairs of terms that are to be in one class.
    pub queue: Vec<(Ty, Ty)>,
    /// Whether an obligation was found that cannot be met.
    pub conflict: bool,
    /// The representative of each term's class.
    pub root: Ghost<Seq<int>>,
    /// A measure that falls from each term to its parent.
    pub height: Ghost<Seq<nat>>,
    /// A measure that falls from each representative to the classes of its parts.
    pub rank: Ghost<Seq<nat>>,
}

impl TypeGraph {
    /// What the graph says.
    pub open spec fn view(&self) -> Classes {
        Classes { terms: self.terms@, root: self.root@, queue: self.queue@ }
    }

    /// The number of terms.
    pub open spec fn count(&self) -> int {
        self.terms@.len() as int
    }

    /// Whether `t` is a term of the graph.
    pub open spec fn has(&self, t: Ty) -> bool {
        t.0 < self.terms@.len()
    }

    /// The term at index `i`.
    #[verifier::inline]
    pub open spec fn term(&self, i: int) -> Term {
        self.terms@[i]
    }

    /// The parent of term `i` in the forest.
    #[verifier::inline]
    pub open spec fn up(&self, i: int) -> int {
        self.parent@[i] as int
    }

    /// The representative of the class of term `i`.
    #[verifier::inline]
    pub open spec fn rep(&self, i: int) -> int {
        self.root@[i]
    }

    /// Part `k` of term `i`.
    #[verifier::inline]
    pub open spec fn part(&self, i: int, k: int) -> int {
        term_part(self.terms@, i, k)
    }

    /// Whether two terms are in one class.
    pub open spec fn same_class(&self, a: Ty, b: Ty) -> bool {
        self.rep(a.0 as int) == self.rep(b.0 as int)
    }

    /// The number of classes.
    pub open spec fn class_count(&self) -> nat {
        roots_below(self.parent@, self.parent@.len() as int)
    }

    /// The arrays have one entry for each term.
    pub open spec fn sized(&self) -> bool {
        &&& self.parent@.len() == self.count()
        &&& self.size@.len() == self.count()
        &&& self.root@.len() == self.count()
        &&& self.height@.len() == self.count()
        &&& self.rank@.len() == self.count()
    }

    /// The forest is one: parents lead to the representative, and nowhere else.
    pub open spec fn forest_ok(&self) -> bool {
        &&& forall|i: int| 0 <= i < self.count() ==> 0 <= #[trigger] self.up(i) < self.count()
        &&& forall|i: int|
            0 <= i < self.count() ==> 0 <= #[trigger] self.rep(i) < self.count() && self.up(
                self.rep(i),
            ) == self.rep(i)
        &&& forall|i: int| 0 <= i < self.count() && #[trigger] self.up(i) == i ==> self.rep(i) == i
        &&& forall|i: int| 0 <= i < self.count() ==> self.rep(#[trigger] self.up(i)) == self.rep(i)
        &&& forall|i: int|
            0 <= i < self.count() && #[trigger] self.up(i) != i ==> self.height@[self.up(i)]
                < self.height@[i]
    }

    /// The parts of every term are terms that were added before it, of the sort that
    /// their place asks for.
    pub open spec fn terms_ok(&self) -> bool {
        forall|i: int, k: int|
            0 <= i < self.count() && 0 <= k < self.term(i).parts().len() ==> 0 <= #[trigger] self.part(
                i,
                k,
            ) < i && self.term(self.part(i, k)).is_list() == self.term(i).part_is_list(k)
    }

    /// A class that holds a term other than a metavariable is represented by a term with
    /// the same constructor, and lists and types are never in one class.
    pub open spec fn heads_ok(&self) -> bool {
        forall|i: int|
            0 <= i < self.count() ==> (!(#[trigger] self.term(i)).is_meta() ==> self.term(
                i,
            ).same_head(self.term(self.rep(i)))) && self.term(i).is_list() == self.term(
                self.rep(i),
            ).is_list()
    }

    /// No class is a part of itself: the rank falls from every representative to the
    /// classes of its parts.
    pub open spec fn ranks_ok(&self) -> bool {
        forall|i: int, k: int|
            0 <= i < self.count() && self.rep(i) == i && 0 <= k < self.term(i).parts().len()
                ==> self.rank@[self.rep(#[trigger] self.part(i, k))] < self.rank@[i]
    }

    /// The obligations are between terms of the graph, of one sort.
    pub open spec fn queue_ok(&self) -> bool {
        forall|q: int|
            0 <= q < self.queue@.len() ==> {
                let (a, b) = #[trigger] self.queue@[q];
                self.has(a) && self.has(b) && self.term(a.0 as int).is_list() == self.term(
                    b.0 as int,
                ).is_list()
            }
    }

    /// Every representative is kept with the number of terms that its class holds.
    pub open spec fn sizes_ok(&self) -> bool {
        forall|r: int|
            0 <= r < self.count() && self.rep(r) == r ==> #[trigger] self.size@[r] == members(
                self.root@,
                r,
                self.count() as int,
            )
    }

    /// The invariant of the data structure.
    pub open spec fn wf(&self) -> bool {
        &&& self.sized()
        &&& self.sizes_ok()
        &&& self.forest_ok()
        &&& self.terms_ok()
        &&& self.heads_ok()
        &&& self.ranks_ok()
        &&& self.queue_ok()
    }

    /// An empty graph.
    pub fn new() -> (g: TypeGraph)
        ensures
            g.wf(),
            g.count() == 0,
            g.queue@.len() == 0,
            !g.conflict,
    {
        TypeGraph {
            terms: Vec::new(),
            parent: Vec::new(),
            size: Vec::new(),
            queue: Vec::new(),
            conflict: false,
            root: Ghost(Seq::empty()),
            height: Ghost(Seq::empty()),
            rank: Ghost(Seq::empty()),
        }
    }

    /// Whether `term`, placed as a new term, has parts of the graph of the right sorts.
    pub open spec fn fits(&self, term: Term) -> bool {
        forall|k: int|
            0 <= k < term.parts().len() ==> self.has(#[trigger] term.parts()[k]) && self.term(
                term.parts()[k].0 as int,
            ).is_list() == term.part_is_list(k)
    }

    /// The rank that a new term with these parts gets.
    pub open spec fn rank_above(&self, term: Term) -> nat {
        if term.parts().len() == 0 {
            0
        } else if term.parts().len() == 1 {
            self.rank@[self.rep(term.parts()[0].0 as int)] + 1
        } else {
            let a = self.rank@[self.rep(term.parts()[0].0 as int)];
            let b = self.rank@[self.rep(term.parts()[1].0 as int)];
            if a < b {
                b + 1
            } else {
                a + 1
            }
        }
    }

    /// Adds a term, in a class of its own.
    pub fn add(&mut self, term: Term) -> (t: Ty)
        requires
            old(self).wf(),
            old(self).fits(term),
        ensures
            final(self).wf(),
            t.0 == old(self).count(),
            final(self).terms@ == old(self).terms@.push(term),
            final(self).root@ == old(self).root@.push(t.0 as int),
            final(self).rank@ == old(self).rank@.push(old(self).rank_above(term)),
            final(self).queue == old(self).queue,
            final(self).conflict == old(self).conflict,
            old(self)@.closed() ==> final(self)@.closed(),
    {
        let i = self.terms.len();
        let ghost r = self.rank_above(term);
        self.terms.push(term);
        self.parent.push(i);
        self.size.push(1);
        proof {
            self.root@ = self.root@.push(i as int);
            self.height@ = self.height@.push(0);
            self.rank@ = self.rank@.push(r);
            assert(self.sized());
            assert(self.sizes_ok()) by {
                assert forall|r: int| 0 <= r < self.count() && self.rep(r) == r implies #[trigger] self.size@[r]
                    == members(self.root@, r, self.count() as int) by {
                    if r < i {
                        lemma_members_kept(old(self).root@, self.root@, r, i as int);
                    } else {
                        assert forall|j: int| 0 <= j < i implies #[trigger] self.root@[j] != r by {
                            assert(0 <= old(self).rep(j) < i);
                        }
                        lemma_members_none(self.root@, r, i as int);
                    }
                }
            }
            assert(self.forest_ok()) by {
                assert forall|j: int| 0 <= j < self.count() implies 0 <= #[trigger] self.up(j)
                    < self.count() by {
                    if j < i {
                        assert(self.up(j) == old(self).up(j));
                    }
                }
                assert forall|j: int| 0 <= j < self.count() implies 0 <= #[trigger] self.rep(j)
                    < self.count() && self.up(self.rep(j)) == self.rep(j) by {
                    if j < i {
                        assert(self.rep(j) == old(self).rep(j));
                        assert(self.up(self.rep(j)) == old(self).up(old(self).rep(j)));
                    }
                }
                assert forall|j: int| 0 <= j < self.count() && #[trigger] self.up(j)
                    == j implies self.rep(j) == j by {
                    if j < i {
                        assert(self.up(j) == old(self).up(j));
                    }
                }
                assert forall|j: int| 0 <= j < self.count() implies self.rep(
                    #[trigger] self.up(j),
                ) == self.rep(j) by {
                    if j < i {
                        assert(self.up(j) == old(self).up(j));
                        assert(self.rep(self.up(j)) == old(self).rep(old(self).up(j)));
                    }
                }
                assert forall|j: int| 0 <= j < self.count() && #[trigger] self.up(j)
                    != j implies self.height@[self.up(j)] < self.height@[j] by {
                    if j < i {
                        assert(self.up(j) == old(self).up(j));
                    }
                }
            }
            assert(self.terms_ok()) by {
                assert forall|j: int, k: int|
                    0 <= j < self.count() && 0 <= k < self.term(j).parts().len() implies 0
                    <= #[trigger] self.part(j, k) < self.count() && self.term(
                    self.part(j, k),
                ).is_list() == self.term(j).part_is_list(k) by {
                    if j < i {
                        assert(self.part(j, k) == old(self).part(j, k));
                    } else {
                        assert(old(self).has(term.parts()[k]));
                    }
                }
            }
            assert(self.heads_ok()) by {
                assert forall|j: int| 0 <= j < self.count() implies (!(#[trigger] self.term(
                    j,
                )).is_meta() ==> self.term(j).same_head(self.term(self.rep(j)))) && self.term(
                    j,
                ).is_list() == self.term(self.rep(j)).is_list() by {
                    if j < i {
                        assert(self.term(j) == old(self).term(j));
                        assert(self.rep(j) == old(self).rep(j));
                    }
                }
            }
            assert(self.ranks_ok()) by {
                assert forall|j: int, k: int|
                    0 <= j < self.count() && self.rep(j) == j && 0 <= k < self.term(
                        j,
                    ).parts().len() implies self.rank@[self.rep(#[trigger] self.part(j, k))]
                    < self.rank@[j] by {
                    if j < i {
                        assert(self.part(j, k) == old(self).part(j, k));
                        assert(self.rep(j) == old(self).rep(j));
                        assert(self.rep(self.part(j, k)) == old(self).rep(old(self).part(j, k)));
                    } else {
                        assert(old(self).has(term.parts()[k]));
                        let c = term.parts()[k].0 as int;
                        assert(self.part(j, k) == c);
                        assert(self.rep(c) == old(self).rep(c));
                    }
                }
            }
            assert(self.queue_ok()) by {
                assert forall|q: int| 0 <= q < self.queue@.len() implies {
                    let (a, b) = #[trigger] self.queue@[q];
                    self.has(a) && self.has(b) && self.term(a.0 as int).is_list() == self.term(
                        b.0 as int,
                    ).is_list()
                } by {
                    let (a, b) = old(self).queue@[q];
                    assert(self.term(a.0 as int) == old(self).term(a.0 as int));
                    assert(self.term(b.0 as int) == old(self).term(b.0 as int));
                }
            }
            if old(self)@.closed() {
                let v = self@;
                let w = old(self)@;
                assert forall|j: int, k: int|
                    0 <= j < v.terms.len() && !v.terms[j].is_meta() && 0 <= k
                        < v.terms[j].parts().len() implies v.root[#[trigger] term_part(
                    v.terms,
                    j,
                    k,
                )] == v.root[term_part(v.terms, v.root[j], k)] by {
                    if j < i {
                        assert(v.terms[j] == w.terms[j]);
                        assert(v.root[j] == w.root[j]);
                        assert(0 <= old(self).rep(j) < i);
                        assert(v.terms[w.root[j]] == w.terms[w.root[j]]);
                        assert(old(self).term(j).same_head(old(self).term(old(self).rep(j))));
                        let a = term_part(w.terms, j, k);
                        let b = term_part(w.terms, w.root[j], k);
                        assert(0 <= old(self).part(j, k) < i);
                        assert(0 <= old(self).part(old(self).rep(j), k) < i);
                        assert(w.root[a] == w.root[b]);
                    }
                }
            }
        }
        Ty(i)
    }

    /// The term at `t`.
    pub fn get(&self, t: Ty) -> (term: Term)
        requires
            self.has(t),
        ensures
            term == self.term(t.0 as int),
    {
        self.terms[t.0]
    }

    /// The representative of the class of `t`. The forest is left as it is.
    pub fn find_const(&self, t: Ty) -> (r: Ty)
        requires
            self.wf(),
            self.has(t),
        ensures
            r.0 == self.rep(t.0 as int),
            self.has(r),
    {
        let mut x = t.0;
        while self.parent[x] != x
            invariant
                self.wf(),
                x < self.count(),
                self.rep(x as int) == self.rep(t.0 as int),
            decreases self.height@[x as int],
        {
            assert(self.up(x as int) != x);
            x = self.parent[x];
        }
        assert(self.up(x as int) == x);
        Ty(x)
    }

    /// The representative of the class of `t`. On the way every term passed is hung
    /// under its grandparent, which shortens later searches and changes no class.
    pub fn find(&mut self, t: Ty) -> (r: Ty)
        requires
            old(self).wf(),
            old(self).has(t),
        ensures
            final(self).wf(),
            r.0 == old(self).rep(t.0 as int),
            final(self).has(r),
            final(self).terms == old(self).terms,
            final(self).root == old(self).root,
            final(self).rank == old(self).rank,
            final(self).queue == old(self).queue,
            final(self).conflict == old(self).conflict,
            final(self).class_count() == old(self).class_count(),
    {
        let mut x = t.0;
        while self.parent[x] != x
            invariant
                self.wf(),
                x < self.count(),
                self.rep(x as int) == self.rep(t.0 as int),
                self.terms == old(self).terms,
                self.root == old(self).root,
                self.rank == old(self).rank,
                self.height == old(self).height,
                self.queue == old(self).queue,
                self.conflict == old(self).conflict,
                self.class_count() == old(self).class_count(),
            decreases self.height@[x as int],
        {
            let p = self.parent[x];
            assert(self.up(x as int) == p);
            let g = self.parent[p];
            assert(self.up(p as int) == g);
            let ghost before = *self;
            self.parent.set(x, g);
            proof {
                assert(self.sized());
                assert forall|j: int| 0 <= j < self.count() implies self.up(j) == (if j == x {
                    g as int
                } else {
                    before.up(j)
                }) by {}
                assert(before.rep(g as int) == before.rep(p as int));
                assert(before.rep(p as int) == before.rep(x as int));
                assert(g != x) by {
                    if g != p {
                        assert(before.up(p as int) != p);
                    }
                }
                lemma_roots_kept(before.parent@, self.parent@, self.count());
                assert(self.forest_ok()) by {
                    assert forall|j: int| 0 <= j < self.count() implies 0 <= #[trigger] self.rep(
                        j,
                    ) < self.count() && self.up(self.rep(j)) == self.rep(j) by {
                        assert(before.up(before.rep(j)) == before.rep(j));
                        if before.rep(j) == x {
                            assert(before.up(x as int) == x);
                        }
                    }
                    assert forall|j: int| 0 <= j < self.count() && #[trigger] self.up(j)
                        != j implies self.height@[self.up(j)] < self.height@[j] by {
                        if j == x {
                            if g != p {
                                assert(before.up(p as int) != p);
                            }
                        } else {
                            assert(before.up(j) != j);
                        }
                    }
                    assert forall|j: int| 0 <= j < self.count() && #[trigger] self.up(j)
                        == j implies self.rep(j) == j by {
                        if j == x {
                            assert(g == x);
                            assert(before.height@[before.up(x as int)] < before.height@[x as int]);
                            if g != p {
                                assert(before.up(p as int) != p);
                            }
                        } else {
                            assert(before.up(j) == j);
                        }
                    }
                    assert forall|j: int| 0 <= j < self.count() implies self.rep(
                        #[trigger] self.up(j),
                    ) == self.rep(j) by {
                        if j != x {
                            assert(before.rep(before.up(j)) == before.rep(j));
                        }
                    }
                }
                assert(self.terms_ok()) by {
                    assert forall|j: int, k: int|
                        0 <= j < self.count() && 0 <= k < self.term(j).parts().len() implies 0
                        <= #[trigger] self.part(j, k) < self.count() && self.term(
                        self.part(j, k),
                    ).is_list() == self.term(j).part_is_list(k) by {
                        assert(self.part(j, k) == before.part(j, k));
                    }
                }
                assert(self.heads_ok()) by {
                    assert forall|j: int| 0 <= j < self.count() implies (!(#[trigger] self.term(
                        j,
                    )).is_meta() ==> self.term(j).same_head(self.term(self.rep(j))))
                        && self.term(j).is_list() == self.term(self.rep(j)).is_list() by {
                        assert(self.term(j) == before.term(j));
                    }
                }
                assert(self.ranks_ok()) by {
                    assert forall|j: int, k: int|
                        0 <= j < self.count() && self.rep(j) == j && 0 <= k < self.term(
                            j,
                        ).parts().len() implies self.rank@[self.rep(#[trigger] self.part(j, k))]
                        < self.rank@[j] by {
                        assert(self.part(j, k) == before.part(j, k));
                    }
                }
                assert(self.queue_ok()) by {
                    assert forall|q: int| 0 <= q < self.queue@.len() implies {
                        let (a, b) = #[trigger] self.queue@[q];
                        self.has(a) && self.has(b) && self.term(a.0 as int).is_list()
                            == self.term(b.0 as int).is_list()
                    } by {
                        let (a, b) = before.queue@[q];
                    }
                }
            }
            x = g;
        }
        assert(self.up(x as int) == x);
        Ty(x)
    }

    /// Whether class `x` is class `t` or is reached from it through parts: whether the
    /// type of `x` occurs in the type of `t`.
    pub open spec fn reach(&self, t: int, x: int) -> bool
        decreases self.rank@[t],
    {
        t == x || (0 <= t < self.count() && {
            let n = self.term(t).parts().len();
            ||| (n >= 1 && self.rank@[self.rep(self.part(t, 0))] < self.rank@[t] && self.reach(
                self.rep(self.part(t, 0)),
                x,
            ))
            ||| (n >= 2 && self.rank@[self.rep(self.part(t, 1))] < self.rank@[t] && self.reach(
                self.rep(self.part(t, 1)),
                x,
            ))
        })
    }

    /// Whether the type of `x` occurs in the type of `t`: [`Self::reach`] on their classes.
    pub open spec fn occurs(&self, x: Ty, t: Ty) -> bool {
        self.reach(self.rep(t.0 as int), self.rep(x.0 as int))
    }

    /// Decides [`Self::reach`] for two representatives.
    pub fn reaches(&self, t: Ty, x: Ty) -> (b: bool)
        requires
            self.wf(),
            self.has(t),
            self.has(x),
            self.rep(t.0 as int) == t.0,
        ensures
            b == self.reach(t.0 as int, x.0 as int),
        decreases self.rank@[t.0 as int],
    {
        if t.0 == x.0 {
            return true;
        }
        let ghost i = t.0 as int;
        match self.terms[t.0] {
            Term::Product(l) => {
                assert(self.part(i, 0) == l.0);
                let r = self.find_const(l);
                self.reaches(r, x)
            },
            Term::Function(d, c) => {
                assert(self.part(i, 0) == d.0);
                assert(self.part(i, 1) == c.0);
                let r = self.find_const(d);
                if self.reaches(r, x) {
                    true
                } else {
                    let r = self.find_const(c);
                    self.reaches(r, x)
                }
            },
            Term::Cons(h, l) => {
                assert(self.part(i, 0) == h.0);
                assert(self.part(i, 1) == l.0);
                let r = self.find_const(h);
                if self.reaches(r, x) {
                    true
                } else {
                    let r = self.find_const(l);
                    self.reaches(r, x)
                }
            },
            _ => false,
        }
    }

    /// Hangs the representative `x` under the representative `y`: their classes become
    /// one, represented by `y`.
    pub fn link(&mut self, x: Ty, y: Ty)
        requires
            old(self).wf(),
            old(self).has(x),
            old(self).has(y),
            x != y,
            old(self).rep(x.0 as int) == x.0,
            old(self).rep(y.0 as int) == y.0,
            old(self).term(x.0 as int).is_meta() || old(self).term(x.0 as int).same_head(
                old(self).term(y.0 as int),
            ),
            old(self).term(x.0 as int).is_list() == old(self).term(y.0 as int).is_list(),
            !old(self).reach(y.0 as int, x.0 as int),
        ensures
            final(self).wf(),
            final(self).terms == old(self).terms,
            final(self).queue == old(self).queue,
            final(self).conflict == old(self).conflict,
            final(self).class_count() + 1 == old(self).class_count(),
            forall|i: int|
                0 <= i < old(self).count() ==> #[trigger] final(self).rep(i) == (if old(self).rep(i)
                    == x.0 {
                    y.0 as int
                } else {
                    old(self).rep(i)
                }),
    {
        let ghost before = *self;
        let ghost n = self.count();
        let ghost xi = x.0 as int;
        let ghost yi = y.0 as int;
        let sx = self.size[x.0];
        let sy = self.size[y.0];
        let _count = self.terms.len();
        proof {
            assert(n == _count);
            let joined = Seq::new(
                n as nat,
                |i: int|
                    if self.rep(i) == xi {
                        yi
                    } else {
                        self.rep(i)
                    },
            );
            lemma_members_joined(self.root@, joined, xi, yi, n as int);
        }
        let total = sx + sy;
        self.size.set(y.0, total);
        self.parent.set(x.0, y.0);
        proof {
            let bump = before.rank@[yi] + 1;
            let lift = before.height@[yi] + 1;
            self.root@ = Seq::new(
                n as nat,
                |i: int|
                    if before.rep(i) == xi {
                        yi
                    } else {
                        before.rep(i)
                    },
            );
            self.height@ = Seq::new(
                n as nat,
                |i: int|
                    if before.rep(i) == xi {
                        before.height@[i] + lift
                    } else {
                        before.height@[i]
                    },
            );
            self.rank@ = Seq::new(
                n as nat,
                |i: int|
                    if before.reach(i, xi) {
                        before.rank@[i] + bump
                    } else {
                        before.rank@[i]
                    },
            );
            assert(self.sized());
            assert(self.sizes_ok()) by {
                lemma_members_joined(before.root@, self.root@, xi, yi, n as int);
                assert forall|r: int| 0 <= r < self.count() && self.rep(r) == r implies #[trigger] self.size@[r]
                    == members(self.root@, r, self.count() as int) by {
                    if r != yi {
                        assert(before.rep(r) == r);
                        assert(r != xi);
                        assert(self.size@[r] == before.size@[r]);
                        lemma_members_kept(before.root@, self.root@, r, n as int);
                    } else {
                        assert(before.size@[xi] == members(before.root@, xi, n as int));
                        assert(before.size@[yi] == members(before.root@, yi, n as int));
                        assert(sx + sy <= usize::MAX);
                        assert(self.size@[yi] == sx + sy);
                    }
                }
            }
            assert(before.up(yi) == yi);
            assert(before.up(xi) == xi);
            lemma_roots_one_less(before.parent@, self.parent@, xi, n);
            assert forall|j: int| 0 <= j < n implies self.up(j) == (if j == xi {
                yi
            } else {
                before.up(j)
            }) by {}
            assert(self.forest_ok()) by {
                assert forall|j: int| 0 <= j < self.count() implies 0 <= #[trigger] self.rep(j)
                    < self.count() && self.up(self.rep(j)) == self.rep(j) by {
                    assert(before.up(before.rep(j)) == before.rep(j));
                }
                assert forall|j: int| 0 <= j < self.count() && #[trigger] self.up(j)
                    == j implies self.rep(j) == j by {
                    assert(before.up(j) == j);
                }
                assert forall|j: int| 0 <= j < self.count() implies self.rep(
                    #[trigger] self.up(j),
                ) == self.rep(j) by {
                    assert(before.rep(before.up(j)) == before.rep(j));
                }
                assert forall|j: int| 0 <= j < self.count() && #[trigger] self.up(j)
                    != j implies self.height@[self.up(j)] < self.height@[j] by {
                    if j != xi {
                        assert(before.up(j) != j);
                        assert(before.rep(before.up(j)) == before.rep(j));
                    }
                }
            }
            assert(self.terms_ok()) by {
                assert forall|j: int, k: int|
                    0 <= j < self.count() && 0 <= k < self.term(j).parts().len() implies 0
                    <= #[trigger] self.part(j, k) < self.count() && self.term(
                    self.part(j, k),
                ).is_list() == self.term(j).part_is_list(k) by {
                    assert(self.part(j, k) == before.part(j, k));
                }
            }
            assert(self.heads_ok()) by {
                assert forall|j: int| 0 <= j < self.count() implies (!(#[trigger] self.term(
                    j,
                )).is_meta() ==> self.term(j).same_head(self.term(self.rep(j)))) && self.term(
                    j,
                ).is_list() == self.term(self.rep(j)).is_list() by {
                    assert(self.term(j) == before.term(j));
                    assert(before.term(xi) == self.term(xi));
                }
            }
            assert(self.ranks_ok()) by {
                assert forall|j: int, k: int|
                    0 <= j < self.count() && self.rep(j) == j && 0 <= k < self.term(
                        j,
                    ).parts().len() implies self.rank@[self.rep(#[trigger] self.part(j, k))]
                    < self.rank@[j] by {
                    let c = before.part(j, k);
                    assert(self.part(j, k) == c);
                    let rc = before.rep(c);
                    assert(before.rep(j) == j);
                    assert(j != xi);
                    assert(before.rank@[rc] < before.rank@[j]);
                    assert(k == 0 || k == 1);
                    if before.reach(rc, xi) {
                        assert(before.reach(j, xi));
                    }
                    if rc == xi {
                        assert(before.reach(rc, xi));
                    }
                }
            }
            assert(self.queue_ok()) by {
                assert forall|q: int| 0 <= q < self.queue@.len() implies {
                    let (a, b) = #[trigger] self.queue@[q];
                    self.has(a) && self.has(b) && self.term(a.0 as int).is_list() == self.term(
                        b.0 as int,
                    ).is_list()
                } by {
                    let (a, b) = before.queue@[q];
                }
            }
        }
    }

    /// The classes of the graph as a solution.
    pub open spec fn own_solution(&self) -> Solution {
        Solution {
            class: self.root@,
            rank: Seq::new(self.count() as nat, |i: int| self.rank@[self.rep(i)]),
        }
    }

    /// No obligation is open and none has failed: the classes are a solution.
    pub open spec fn settled(&self) -> bool {
        self.wf() && !self.conflict && self.queue@.len() == 0 && self@.closed()
    }

    /// The terms of a graph have a solution: the one in which every term is a class of
    /// its own.
    pub proof fn lemma_terms_solved(&self)
        requires
            self.wf(),
        ensures
            models(
                self.terms@,
                Solution {
                    class: Seq::new(self.count() as nat, |i: int| i),
                    rank: Seq::new(self.count() as nat, |i: int| i as nat),
                },
            ),
    {
        let sol = Solution {
            class: Seq::new(self.count() as nat, |i: int| i),
            rank: Seq::new(self.count() as nat, |i: int| i as nat),
        };
        assert forall|i: int, k: int|
            0 <= i < self.count() && 0 <= k < self.terms@[i].parts().len() implies sol.rank[#[trigger] term_part(
            self.terms@,
            i,
            k,
        )] < sol.rank[i] by {
            assert(0 <= self.part(i, k) < i);
        }
    }

    /// The representative of a class represents itself.
    pub proof fn lemma_rep_rep(&self, i: int)
        requires
            self.wf(),
            0 <= i < self.count(),
        ensures
            0 <= self.rep(i) < self.count(),
            self.rep(self.rep(i)) == self.rep(i),
    {
        assert(self.up(self.rep(i)) == self.rep(i));
    }

    /// Two terms of one class that are no metavariables have the same constructor.
    pub proof fn lemma_heads_agree(&self, i: int, j: int)
        requires
            self.wf(),
            0 <= i < self.count(),
            0 <= j < self.count(),
            self.rep(i) == self.rep(j),
            !self.term(i).is_meta(),
            !self.term(j).is_meta(),
        ensures
            self.term(i).same_head(self.term(j)),
            self.term(i).same_head(self.term(self.rep(i))),
            self.term(i).parts().len() == self.term(j).parts().len(),
            self.term(i).parts().len() == self.term(self.rep(i)).parts().len(),
    {
        assert(self.term(i).same_head(self.term(self.rep(i))));
        assert(self.term(j).same_head(self.term(self.rep(j))));
    }

    /// In a settled graph two such terms have, place by place, parts of one class, and
    /// the rank falls from the class of a term to the classes of its parts.
    pub proof fn lemma_parts_agree(&self, i: int, j: int, k: int)
        requires
            self.settled(),
            0 <= i < self.count(),
            0 <= j < self.count(),
            self.rep(i) == self.rep(j),
            !self.term(i).is_meta(),
            !self.term(j).is_meta(),
            0 <= k < self.term(i).parts().len(),
        ensures
            0 <= self.part(i, k) < self.count(),
            0 <= self.part(j, k) < self.count(),
            self.rep(self.part(i, k)) == self.rep(self.part(j, k)),
            self.rank@[self.rep(self.part(i, k))] < self.rank@[self.rep(i)],
    {
        self.lemma_heads_agree(i, j);
        self.lemma_rep_rep(i);
        let r = self.rep(i);
        let v = self@;
        assert(0 <= self.part(i, k) < self.count());
        assert(0 <= self.part(j, k) < self.count());
        assert(0 <= self.part(r, k) < self.count());
        assert(v.part(i, k) == self.part(i, k));
        assert(v.part(j, k) == self.part(j, k));
        assert(v.part(r, k) == self.part(r, k));
        assert(v.root[v.part(i, k)] == v.root[v.part(v.root[i], k)]);
        assert(v.root[v.part(j, k)] == v.root[v.part(v.root[j], k)]);
        assert(self.rank@[self.rep(self.part(r, k))] < self.rank@[r]);
    }

    /// The classes of a settled graph are a solution of it.
    pub proof fn lemma_own_solution(&self)
        requires
            self.settled(),
        ensures
            self@.admits(self.own_solution()),
    {
        let sol = self.own_solution();
        let v = self@;
        assert forall|i: int, j: int|
            0 <= i < v.terms.len() && 0 <= j < v.terms.len() && #[trigger] sol.same(i, j)
                && !v.terms[i].is_meta() && !v.terms[j].is_meta() implies v.terms[i].same_head(
            v.terms[j],
        ) by {
            self.lemma_heads_agree(i, j);
        }
        assert forall|i: int, j: int, k: int|
            #![trigger sol.same(i, j), v.part(i, k)]
            0 <= i < v.terms.len() && 0 <= j < v.terms.len() && sol.same(i, j)
                && !v.terms[i].is_meta() && !v.terms[j].is_meta() && 0 <= k
                < v.terms[i].parts().len() implies sol.same(v.part(i, k), v.part(j, k)) by {
            self.lemma_parts_agree(i, j, k);
        }
        assert forall|i: int, j: int|
            0 <= i < v.terms.len() && 0 <= j < v.terms.len() && #[trigger] sol.same(
                i,
                j,
            ) implies sol.rank[i] == sol.rank[j] by {}
        assert forall|i: int, k: int|
            0 <= i < v.terms.len() && 0 <= k < v.terms[i].parts().len() implies sol.rank[#[trigger] v.part(
                i,
                k,
            )] < sol.rank[i] by {
            self.lemma_parts_agree(i, i, k);
        }
        assert(v.models(sol));
        assert forall|i: int| 0 <= i < v.terms.len() implies sol.class[i] == sol.class[#[trigger] v.root[i]] by {
            self.lemma_rep_rep(i);
        }
        assert(v.follows(sol.class));
    }

    /// In a solution that keeps the classes of the graph, the rank falls along
    /// [`Self::reach`].
    pub proof fn lemma_reach_rank(&self, sol: Solution, t: int, x: int)
        requires
            self.wf(),
            self@.models(sol),
            self@.follows(sol.class),
            0 <= t < self.count(),
            0 <= x < self.count(),
            self.reach(t, x),
        ensures
            t == x || sol.rank[x] < sol.rank[t],
        decreases self.rank@[t],
    {
        if t != x {
            let v = self@;
            let n = self.term(t).parts().len();
            if n >= 1 && self.rank@[self.rep(self.part(t, 0))] < self.rank@[t] && self.reach(
                self.rep(self.part(t, 0)),
                x,
            ) {
                let c = self.part(t, 0);
                assert(0 <= c < self.count());
                let r = self.rep(c);
                assert(r == v.root[c]);
                self.lemma_reach_rank(sol, r, x);
                assert(sol.same(c, r));
                assert(c == v.part(t, 0));
            } else {
                let c = self.part(t, 1);
                assert(0 <= c < self.count());
                let r = self.rep(c);
                assert(r == v.root[c]);
                self.lemma_reach_rank(sol, r, x);
                assert(sol.same(c, r));
                assert(c == v.part(t, 1));
            }
        }
    }
}

/// Whether a term is a metavariable.
pub fn is_meta(term: Term) -> (b: bool)
    ensures
        b == term.is_meta(),
{
    match term {
        Term::MetaVar => true,
        _ => false,
    }
}

/// Whether two terms have the same constructor.
pub fn heads_match(a: Term, b: Term) -> (same: bool)
    ensures
        same == a.same_head(b),
{
    match (a, b) {
        (Term::MetaVar, Term::MetaVar) => true,
        (Term::Void, Term::Void) => true,
        (Term::Boolean, Term::Boolean) => true,
        (Term::Number, Term::Number) => true,
        (Term::String, Term::String) => true,
        (Term::Product(_), Term::Product(_)) => true,
        (Term::Function(_, _), Term::Function(_, _)) => true,
        (Term::Nil, Term::Nil) => true,
        (Term::Cons(_, _), Term::Cons(_, _)) => true,
        _ => false,
    }
}

/// The parts of two terms, place by place.
pub open spec fn part_pairs(a: Term, b: Term) -> Seq<(Ty, Ty)> {
    match (a, b) {
        (Term::Product(l), Term::Product(m)) => seq![(l, m)],
        (Term::Function(d, c), Term::Function(e, f)) => seq![(d, e), (c, f)],
        (Term::Cons(h, t), Term::Cons(i, u)) => seq![(h, i), (t, u)],
        _ => Seq::empty(),
    }
}

impl TypeGraph {
    /// Adds, place by place, the obligations between the parts of `s` and of `t`.
    #[verifier::rlimit(30)]
    fn push_parts(&mut self, s: Ty, t: Ty)
        requires
            old(self).wf(),
            old(self).has(s),
            old(self).has(t),
            old(self).term(s.0 as int).is_meta() || old(self).term(s.0 as int).same_head(
                old(self).term(t.0 as int),
            ),
        ensures
            final(self).wf(),
            final(self).terms == old(self).terms,
            final(self).root == old(self).root,
            final(self).rank == old(self).rank,
            final(self).parent == old(self).parent,
            final(self).conflict == old(self).conflict,
            final(self).queue@ == old(self).queue@ + part_pairs(
                old(self).term(s.0 as int),
                old(self).term(t.0 as int),
            ),
    {
        let ghost before = *self;
        let ghost si = s.0 as int;
        let ghost ti = t.0 as int;
        let a = self.terms[s.0];
        let b = self.terms[t.0];
        match (a, b) {
            (Term::Product(l), Term::Product(m)) => {
                assert(before.part(si, 0) == l.0 && before.part(ti, 0) == m.0);
                self.queue.push((l, m));
            },
            (Term::Function(d, c), Term::Function(e, f)) => {
                assert(before.part(si, 0) == d.0 && before.part(ti, 0) == e.0);
                assert(before.part(si, 1) == c.0 && before.part(ti, 1) == f.0);
                self.queue.push((d, e));
                self.queue.push((c, f));
            },
            (Term::Cons(h, u), Term::Cons(i, v)) => {
                assert(before.part(si, 0) == h.0 && before.part(ti, 0) == i.0);
                assert(before.part(si, 1) == u.0 && before.part(ti, 1) == v.0);
                self.queue.push((h, i));
                self.queue.push((u, v));
            },
            _ => {},
        }
        proof {
            let pairs = part_pairs(a, b);
            assert(self.queue@ =~= before.queue@ + pairs);
            assert(self.forest_ok()) by {
                assert forall|j: int| 0 <= j < self.count() implies self.up(j) == before.up(
                    j,
                ) && self.rep(j) == before.rep(j) by {}
            }
            assert(self.terms_ok()) by {
                assert forall|j: int, k: int|
                    0 <= j < self.count() && 0 <= k < self.term(j).parts().len() implies 0
                    <= #[trigger] self.part(j, k) < self.count() && self.term(
                    self.part(j, k),
                ).is_list() == self.term(j).part_is_list(k) by {
                    assert(self.part(j, k) == before.part(j, k));
                }
            }
            assert(self.heads_ok()) by {
                assert forall|j: int| 0 <= j < self.count() implies (!(#[trigger] self.term(
                    j,
                )).is_meta() ==> self.term(j).same_head(self.term(self.rep(j)))) && self.term(
                    j,
                ).is_list() == self.term(self.rep(j)).is_list() by {
                    assert(self.term(j) == before.term(j));
                }
            }
            assert(self.ranks_ok()) by {
                assert forall|j: int, k: int|
                    0 <= j < self.count() && self.rep(j) == j && 0 <= k < self.term(
                        j,
                    ).parts().len() implies self.rank@[self.rep(#[trigger] self.part(j, k))]
                    < self.rank@[j] by {
                    assert(self.part(j, k) == before.part(j, k));
                }
            }
            assert(self.queue_ok()) by {
                assert forall|q: int| 0 <= q < self.queue@.len() implies {
                    let (a, b) = #[trigger] self.queue@[q];
                    self.has(a) && self.has(b) && self.term(a.0 as int).is_list() == self.term(
                        b.0 as int,
                    ).is_list()
                } by {
                    if q < before.queue@.len() {
                        let (a, b) = before.queue@[q];
                    } else {
                        let k = q - before.queue@.len();
                        assert(self.queue@[q] == pairs[k]);
                        assert(0 <= before.part(si, k) < self.count());
                        assert(0 <= before.part(ti, k) < self.count());
                    }
                }
            }
        }
    }

    /// Takes the last obligation from the queue.
    fn take(&mut self) -> (o: (Ty, Ty))
        requires
            old(self).wf(),
            old(self).queue@.len() > 0,
        ensures
            final(self).wf(),
            final(self).terms == old(self).terms,
            final(self).root == old(self).root,
            final(self).rank == old(self).rank,
            final(self).parent == old(self).parent,
            final(self).conflict == old(self).conflict,
            final(self).queue@ == old(self).queue@.drop_last(),
            o == old(self).queue@.last(),
            final(self).has(o.0),
            final(self).has(o.1),
    {
        let ghost last = self.queue@.len() - 1;
        assert(self.queue@[last] == self.queue@.last());
        let o = self.queue.pop().unwrap();
        proof {
            assert(self.forest_ok());
            assert(self.terms_ok());
            assert(self.heads_ok());
            assert(self.ranks_ok());
            assert forall|q: int| 0 <= q < self.queue@.len() implies {
                let (a, b) = #[trigger] self.queue@[q];
                self.has(a) && self.has(b) && self.term(a.0 as int).is_list() == self.term(
                    b.0 as int,
                ).is_list()
            } by {
                let (a, b) = old(self).queue@[q];
            }
        }
        o
    }

    /// Takes one obligation from the queue and meets it: merges the two classes and
    /// adds the obligations between their parts, or finds that it cannot be met.
    fn step(&mut self)
        requires
            old(self).wf(),
            !old(self).conflict,
            old(self).queue@.len() > 0,
            old(self)@.half_closed(),
        ensures
            final(self).wf(),
            final(self).terms == old(self).terms,
            final(self).conflict ==> forall|sol: Solution| !(#[trigger] old(self)@.admits(sol)),
            !final(self).conflict ==> {
                &&& final(self)@.half_closed()
                &&& forall|label: Seq<int>|
                    #![trigger final(self)@.follows(label)]
                    final(self)@.follows(label) && final(self)@.meets(label) ==> old(self)@.follows(label) && old(self)@.meets(label)
                &&& forall|sol: Solution| #[trigger]
                    old(self)@.admits(sol) ==> final(self)@.admits(sol)
            },
            final(self).class_count() < old(self).class_count() || (final(self).class_count()
                == old(self).class_count() && final(self).queue@.len() < old(self).queue@.len()),
    {
        let ghost pre = self@;
        let (a, b) = self.take();
        let x = self.find(a);
        let y = self.find(b);
        let ghost mid = self@;
        let ghost ai = a.0 as int;
        let ghost bi = b.0 as int;
        if x.0 == y.0 {
            proof {
                lemma_same_class_step(pre, mid, ai, bi);
            }
            return ;
        }
        let tx = self.get(x);
        let ty = self.get(y);
        let x_under_y = if is_meta(tx) && !is_meta(ty) {
            true
        } else if is_meta(ty) && !is_meta(tx) {
            false
        } else {
            self.size[x.0] <= self.size[y.0]
        };
        let (s, t) = if x_under_y {
            (x, y)
        } else {
            (y, x)
        };
        let ts = self.get(s);
        let tt = self.get(t);
        let ghost si = s.0 as int;
        let ghost ti = t.0 as int;
        proof {
            self.lemma_rep_rep(ai);
            self.lemma_rep_rep(bi);
            lemma_popped(pre, mid, ai, bi);
        }
        if !is_meta(ts) && !heads_match(ts, tt) {
            self.conflict = true;
            proof {
                assert forall|sol: Solution| !(#[trigger] pre.admits(sol)) by {
                    if pre.admits(sol) {
                        lemma_clash(pre.terms, pre.root, sol, ai, bi, si, ti);
                    }
                }
            }
            return ;
        }
        if self.reaches(t, s) {
            proof {
                assert forall|sol: Solution| !(#[trigger] pre.admits(sol)) by {
                    if pre.admits(sol) {
                        lemma_merged(pre.root, sol.class, ai, bi, si, ti);
                        self.lemma_reach_rank(sol, ti, si);
                        assert(sol.same(si, ti));
                    }
                }
            }
            self.conflict = true;
            return ;
        }
        self.link(s, t);
        self.push_parts(s, t);
        proof {
            lemma_link_step(pre, mid, self@, ai, bi, si, ti);
        }
    }


    /// Meets the obligations of the queue one after the other, until none is left or
    /// one is found that cannot be met.
    ///
    /// If it ends without a conflict, the classes of the graph are its least solution:
    /// they are a solution, and every solution of the graph as it was keeps them. If it
    /// ends in a conflict, the graph as it was had no solution.
    pub fn close(&mut self)
        requires
            old(self).wf(),
            !old(self).conflict,
            old(self)@.half_closed(),
        ensures
            final(self).wf(),
            final(self).terms == old(self).terms,
            final(self).conflict ==> forall|sol: Solution| !(#[trigger] old(self)@.admits(sol)),
            !final(self).conflict ==> {
                &&& final(self).settled()
                &&& old(self)@.follows(final(self).root@)
                &&& old(self)@.meets(final(self).root@)
                &&& forall|sol: Solution| #[trigger]
                    old(self)@.admits(sol) ==> follows(final(self).root@, sol.class)
            },
    {
        while self.queue.len() > 0 && !self.conflict
            invariant
                self.wf(),
                self.terms == old(self).terms,
                self.conflict ==> forall|sol: Solution| !(#[trigger] old(self)@.admits(sol)),
                !self.conflict ==> {
                    &&& self@.half_closed()
                    &&& forall|label: Seq<int>|
                        #![trigger self@.follows(label)]
                        self@.follows(label) && self@.meets(label) ==> old(self)@.follows(label)
                            && old(self)@.meets(label)
                    &&& forall|sol: Solution| #[trigger]
                        old(self)@.admits(sol) ==> self@.admits(sol)
                },
            decreases self.class_count(), self.queue@.len(),
        {
            self.step();
        }
        proof {
            if !self.conflict {
                let v = self@;
                assert forall|i: int| 0 <= i < v.root.len() implies v.root[i] == v.root[#[trigger] v.root[i]] by {
                    self.lemma_rep_rep(i);
                }
                assert(v.follows(v.root));
                assert(v.meets(v.root));
                assert forall|i: int, k: int|
                    0 <= i < v.terms.len() && !v.terms[i].is_meta() && 0 <= k
                        < v.terms[i].parts().len() implies v.root[#[trigger] term_part(
                    v.terms,
                    i,
                    k,
                )] == v.root[term_part(v.terms, v.root[i], k)] by {
                    assert(v.entailed(v.part(i, k), v.part(v.root[i], k)));
                }
            }
        }
    }

    /// What the graph says once the obligation between `a` and `b` is added.
    pub open spec fn with_obligation(&self, a: Ty, b: Ty) -> Classes {
        Classes { terms: self.terms@, root: self.root@, queue: self.queue@.push((a, b)) }
    }

    /// Makes the types `a` and `b` one type, if that can be.
    ///
    /// It ends in a conflict if and only if no solution of the graph has `a` and `b` in
    /// one class. Otherwise the classes of the graph become the least such solution:
    /// they keep the classes that were, hold `a` and `b` in one class, and are kept by
    /// every solution that does so. A graph in conflict is left as it is.
    pub fn unify(&mut self, a: Ty, b: Ty)
        requires
            old(self).wf(),
            old(self).conflict || old(self).settled(),
            old(self).has(a),
            old(self).has(b),
            old(self).term(a.0 as int).is_list() == old(self).term(b.0 as int).is_list(),
        ensures
            final(self).wf(),
            final(self).terms == old(self).terms,
            final(self).conflict || final(self).settled(),
            old(self).conflict ==> final(self).conflict && final(self).root == old(self).root,
            !old(self).conflict && old(self).occurs(a, b) && !old(self).same_class(a, b)
                ==> final(self).conflict,
            !old(self).conflict ==> {
                &&& final(self).conflict <==> forall|sol: Solution|
                    !(#[trigger] old(self)@.admits(sol) && sol.same(a.0 as int, b.0 as int))
                &&& !final(self).conflict ==> {
                    &&& final(self).same_class(a, b)
                    &&& follows(old(self).root@, final(self).root@)
                    &&& forall|sol: Solution| #[trigger]
                        old(self)@.admits(sol) && sol.same(a.0 as int, b.0 as int) ==> follows(
                            final(self).root@,
                            sol.class,
                        )
                }
            },
    {
        if self.conflict {
            return ;
        }
        let ghost pre = self@;
        let ghost mid = self.with_obligation(a, b);
        self.queue.push((a, b));
        proof {
            assert(self@ == mid);
            assert(mid.queue.len() == 1);
            assert(mid.queue[0] == (a, b));
            assert(self.forest_ok());
            assert(self.terms_ok());
            assert(self.heads_ok());
            assert(self.ranks_ok());
            assert(self.queue_ok());
            assert forall|i: int, k: int|
                0 <= i < mid.terms.len() && !mid.terms[i].is_meta() && 0 <= k
                    < mid.terms[i].parts().len() implies entailed(
                mid.root,
                mid.queue,
                #[trigger] term_part(mid.terms, i, k),
                term_part(mid.terms, mid.root[i], k),
            ) by {
                old(self).lemma_parts_agree(i, i, k);
                old(self).lemma_heads_agree(i, i);
                let p = term_part(mid.terms, i, k);
                let r = term_part(mid.terms, mid.root[i], k);
                assert(0 <= old(self).part(mid.root[i], k) < old(self).count());
                assert(pre.closed());
                assert(pre.root[term_part(pre.terms, i, k)] == pre.root[term_part(
                    pre.terms,
                    pre.root[i],
                    k,
                )]);
                assert(pre.root[p] == pre.root[r]);
                assert forall|label: Seq<int>|
                    #![trigger follows(mid.root, label)]
                    follows(mid.root, label) && meets(mid.queue, label) implies label[p]
                    == label[r] by {
                    assert(label[p] == label[mid.root[p]]);
                    assert(label[r] == label[mid.root[r]]);
                }
            }
            assert forall|sol: Solution| #[trigger]
                pre.admits(sol) && sol.same(a.0 as int, b.0 as int) implies mid.admits(sol) by {}
            assert forall|sol: Solution| #[trigger] mid.admits(sol) implies pre.admits(sol)
                && sol.same(a.0 as int, b.0 as int) by {
                assert(mid.queue[0] == (a, b));
            }
        }
        self.close();
        proof {
            if !self.conflict {
                self.lemma_own_solution();
                let own = self.own_solution();
                assert(mid.queue[0] == (a, b));
                assert(own.same(a.0 as int, b.0 as int));
                assert(pre.admits(own));
                if old(self).occurs(a, b) && !old(self).same_class(a, b) {
                    old(self).lemma_occurs_unsolvable(a, b, own);
                }
            }
        }
    }

    /// No solution that keeps the classes of the graph puts a type into the class of a
    /// type that it occurs in, however deep.
    pub proof fn lemma_occurs_unsolvable(&self, x: Ty, t: Ty, sol: Solution)
        requires
            self.wf(),
            self.has(x),
            self.has(t),
            self.occurs(x, t),
            !self.same_class(x, t),
            models(self.terms@, sol),
            follows(self.root@, sol.class),
        ensures
            !sol.same(x.0 as int, t.0 as int),
    {
        let rx = self.rep(x.0 as int);
        let rt = self.rep(t.0 as int);
        self.lemma_rep_rep(x.0 as int);
        self.lemma_rep_rep(t.0 as int);
        self.lemma_reach_rank(sol, rt, rx);
        assert(sol.same(x.0 as int, rx));
        assert(sol.same(t.0 as int, rt));
        if sol.same(x.0 as int, t.0 as int) {
            assert(sol.same(rx, rt));
        }
    }

    /// Unifying is transitive: where `a` and `b` were made one type, and then `b` and
    /// `c`, the types `a` and `c` are one, and all the terms of their class that are no
    /// metavariables have the same constructor.
    ///
    /// Here `mid` is the graph after the first unification, and `self` after the second.
    pub proof fn lemma_unify_transitive(&self, mid: &TypeGraph, a: Ty, b: Ty, c: Ty)
        requires
            mid.settled(),
            mid.has(a),
            mid.has(b),
            mid.has(c),
            mid.same_class(a, b),
            self.settled(),
            self.terms == mid.terms,
            follows(mid.root@, self.root@),
            self.same_class(b, c),
        ensures
            self.same_class(a, c),
            forall|i: int, j: int|
                0 <= i < self.count() && 0 <= j < self.count() && self.rep(i) == self.rep(
                    a.0 as int,
                ) && self.rep(j) == self.rep(c.0 as int) && !(#[trigger] self.term(i)).is_meta()
                    && !(#[trigger] self.term(j)).is_meta() ==> self.term(i).same_head(
                    self.term(j),
                ),
    {
        let ai = a.0 as int;
        let bi = b.0 as int;
        assert(self.root@[ai] == self.root@[mid.root@[ai]]);
        assert(self.root@[bi] == self.root@[mid.root@[bi]]);
        assert forall|i: int, j: int|
            0 <= i < self.count() && 0 <= j < self.count() && self.rep(i) == self.rep(ai)
                && self.rep(j) == self.rep(c.0 as int) && !(#[trigger] self.term(i)).is_meta()
                && !(#[trigger] self.term(j)).is_meta() implies self.term(i).same_head(
            self.term(j),
        ) by {
            self.lemma_heads_agree(i, j);
        }
    }
}

/// Where the classes with the representatives `root` are kept and `a` and `b` are in
/// one class, their representatives are.
proof fn lemma_merged(root: Seq<int>, label: Seq<int>, a: int, b: int, s: int, t: int)
    requires
        follows(root, label),
        0 <= a < root.len(),
        0 <= b < root.len(),
        label[a] == label[b],
        (root[a] == s && root[b] == t) || (root[a] == t && root[b] == s),
    ensures
        label[s] == label[t],
{
    assert(label[a] == label[root[a]]);
    assert(label[b] == label[root[b]]);
}

/// No solution puts two terms with different constructors into one class.
proof fn lemma_clash(terms: Seq<Term>, root: Seq<int>, sol: Solution, a: int, b: int, s: int, t: int)
    requires
        models(terms, sol),
        follows(root, sol.class),
        root.len() == terms.len(),
        0 <= a < root.len(),
        0 <= b < root.len(),
        0 <= s < root.len(),
        0 <= t < root.len(),
        (root[a] == s && root[b] == t) || (root[a] == t && root[b] == s),
        !terms[s].is_meta(),
        !terms[t].is_meta(),
        !terms[s].same_head(terms[t]),
    ensures
        !sol.same(a, b),
{
    if sol.same(a, b) {
        lemma_merged(root, sol.class, a, b, s, t);
        assert(sol.same(s, t));
    }
}

/// The obligation that was taken from the queue holds wherever the classes are kept
/// and the rest is met, if its two terms are merged there.
proof fn lemma_popped(pre: Classes, mid: Classes, a: int, b: int)
    requires
        pre.queue.len() > 0,
        mid.terms == pre.terms,
        mid.root == pre.root,
        mid.queue == pre.queue.drop_last(),
        pre.queue.last().0.0 == a,
        pre.queue.last().1.0 == b,
    ensures
        forall|label: Seq<int>|
            #![trigger mid.follows(label)]
            mid.follows(label) && mid.meets(label) && label[a] == label[b] ==> pre.follows(label)
                && pre.meets(label),
        forall|sol: Solution| #[trigger] pre.admits(sol) ==> mid.admits(sol) && sol.same(a, b),
{
    assert forall|label: Seq<int>|
        #![trigger mid.follows(label)]
        mid.follows(label) && mid.meets(label) && label[a] == label[b] implies pre.follows(label)
        && pre.meets(label) by {
        assert forall|q: int| 0 <= q < pre.queue.len() implies {
            let (a, b) = #[trigger] pre.queue[q];
            label[a.0 as int] == label[b.0 as int]
        } by {
            if q < mid.queue.len() {
                assert(mid.queue[q] == pre.queue[q]);
            }
        }
    }
    assert forall|sol: Solution| #[trigger] pre.admits(sol) implies mid.admits(sol) && sol.same(
        a,
        b,
    ) by {
        assert(pre.queue[pre.queue.len() - 1] == pre.queue.last());
        assert forall|q: int| 0 <= q < mid.queue.len() implies {
            let (a, b) = #[trigger] mid.queue[q];
            sol.class[a.0 as int] == sol.class[b.0 as int]
        } by {
            assert(mid.queue[q] == pre.queue[q]);
        }
    }
}

/// Taking an obligation between two terms of one class changes nothing.
proof fn lemma_same_class_step(pre: Classes, mid: Classes, a: int, b: int)
    requires
        pre.queue.len() > 0,
        mid.terms == pre.terms,
        mid.root == pre.root,
        mid.queue == pre.queue.drop_last(),
        pre.queue.last().0.0 == a,
        pre.queue.last().1.0 == b,
        0 <= a < pre.terms.len(),
        0 <= b < pre.terms.len(),
        pre.root.len() == pre.terms.len(),
        pre.root[a] == pre.root[b],
        pre.half_closed(),
    ensures
        mid.half_closed(),
        forall|label: Seq<int>|
            #![trigger mid.follows(label)]
            mid.follows(label) && mid.meets(label) ==> pre.follows(label) && pre.meets(label),
        forall|sol: Solution| #[trigger] pre.admits(sol) ==> mid.admits(sol),
{
    lemma_popped(pre, mid, a, b);
    assert forall|label: Seq<int>|
        #![trigger mid.follows(label)]
        mid.follows(label) && mid.meets(label) implies pre.follows(label) && pre.meets(label) by {
        assert(label[a] == label[mid.root[a]]);
        assert(label[b] == label[mid.root[b]]);
    }
    assert forall|i: int, k: int|
        0 <= i < mid.terms.len() && !mid.terms[i].is_meta() && 0 <= k
            < mid.terms[i].parts().len() implies mid.entailed(
        #[trigger] mid.part(i, k),
        mid.part(mid.root[i], k),
    ) by {
        assert(pre.entailed(pre.part(i, k), pre.part(pre.root[i], k)));
        assert forall|label: Seq<int>|
            #![trigger mid.follows(label)]
            mid.follows(label) && mid.meets(label) implies label[mid.part(i, k)]
            == label[mid.part(mid.root[i], k)] by {
            assert(pre.follows(label) && pre.meets(label));
        }
    }
}

/// Merging the classes of the two terms of an obligation, and adding the obligations
/// between the parts of their representatives, keeps what the graph says.
proof fn lemma_link_step(pre: Classes, mid: Classes, post: Classes, a: int, b: int, s: int, t: int)
    requires
        pre.queue.len() > 0,
        mid.terms == pre.terms,
        mid.root == pre.root,
        mid.queue == pre.queue.drop_last(),
        pre.queue.last().0.0 == a,
        pre.queue.last().1.0 == b,
        0 <= a < pre.terms.len(),
        0 <= b < pre.terms.len(),
        0 <= s < pre.terms.len(),
        0 <= t < pre.terms.len(),
        pre.root.len() == pre.terms.len(),
        (pre.root[a] == s && pre.root[b] == t) || (pre.root[a] == t && pre.root[b] == s),
        pre.root[s] == s,
        pre.root[t] == t,
        s != t,
        pre.half_closed(),
        post.terms == pre.terms,
        post.root.len() == pre.root.len(),
        forall|i: int|
            0 <= i < pre.terms.len() ==> #[trigger] post.root[i] == (if pre.root[i] == s {
                t
            } else {
                pre.root[i]
            }),
        forall|i: int|
            0 <= i < pre.terms.len() ==> 0 <= #[trigger] pre.root[i] < pre.terms.len(),
        forall|i: int|
            0 <= i < pre.terms.len() && !pre.terms[i].is_meta() ==> pre.terms[i].same_head(
                pre.terms[#[trigger] pre.root[i]],
            ),
        pre.terms[s].is_meta() || pre.terms[s].same_head(pre.terms[t]),
        post.queue == mid.queue + part_pairs(pre.terms[s], pre.terms[t]),
    ensures
        post.half_closed(),
        forall|label: Seq<int>|
            #![trigger post.follows(label)]
            post.follows(label) && post.meets(label) ==> pre.follows(label) && pre.meets(label),
        forall|sol: Solution| #[trigger] pre.admits(sol) ==> post.admits(sol),
{
    let pairs = part_pairs(pre.terms[s], pre.terms[t]);
    lemma_popped(pre, mid, a, b);
    assert(pre.terms[s].is_meta() ==> pairs.len() == 0);
    assert(!pre.terms[s].is_meta() ==> pairs.len() == pre.terms[s].parts().len()
        && pre.terms[s].parts().len() == pre.terms[t].parts().len());
    assert forall|k: int| 0 <= k < pairs.len() implies pairs[k].0.0 == pre.part(s, k)
        && pairs[k].1.0 == pre.part(t, k) by {}
    assert(post.root[s] == t);
    assert(post.root[t] == t);
    assert forall|label: Seq<int>|
        #![trigger post.follows(label)]
        post.follows(label) && post.meets(label) implies pre.follows(label) && pre.meets(
        label,
    ) && mid.follows(label) && mid.meets(label) by {
        assert(label[s] == label[post.root[s]]);
        assert forall|i: int| 0 <= i < mid.terms.len() implies label[i] == label[#[trigger] mid.root[i]] by {
            assert(label[i] == label[post.root[i]]);
        }
        assert(mid.follows(label));
        assert forall|q: int| 0 <= q < mid.queue.len() implies {
            let (a, b) = #[trigger] mid.queue[q];
            label[a.0 as int] == label[b.0 as int]
        } by {
            assert(post.queue[q] == mid.queue[q]);
        }
        assert(label[a] == label[mid.root[a]]);
        assert(label[b] == label[mid.root[b]]);
    }
    assert forall|sol: Solution| #[trigger] pre.admits(sol) implies post.admits(sol) by {
        assert(mid.admits(sol) && sol.same(a, b));
        assert(sol.class[a] == sol.class[mid.root[a]]);
        assert(sol.class[b] == sol.class[mid.root[b]]);
        assert(sol.same(s, t));
        assert forall|i: int| 0 <= i < post.terms.len() implies sol.class[i]
            == sol.class[#[trigger] post.root[i]] by {
            assert(sol.class[i] == sol.class[mid.root[i]]);
        }
        assert forall|q: int| 0 <= q < post.queue.len() implies {
            let (a, b) = #[trigger] post.queue[q];
            sol.class[a.0 as int] == sol.class[b.0 as int]
        } by {
            if q < mid.queue.len() {
                assert(post.queue[q] == mid.queue[q]);
            } else {
                let k = q - mid.queue.len();
                assert(post.queue[q] == pairs[k]);
                assert(!pre.terms[s].is_meta());
                assert(!pre.terms[t].is_meta());
                assert(pairs[k].0.0 == pre.part(s, k));
                assert(pairs[k].1.0 == pre.part(t, k));
                assert(sol.same(pre.part(s, k), pre.part(t, k)));
            }
        }
    }
    assert forall|i: int, k: int|
        0 <= i < post.terms.len() && !post.terms[i].is_meta() && 0 <= k
            < post.terms[i].parts().len() implies post.entailed(
        #[trigger] post.part(i, k),
        post.part(post.root[i], k),
    ) by {
        assert(pre.entailed(pre.part(i, k), pre.part(pre.root[i], k)));
        assert forall|label: Seq<int>|
            #![trigger post.follows(label)]
            post.follows(label) && post.meets(label) implies label[post.part(i, k)]
            == label[post.part(post.root[i], k)] by {
            assert(pre.follows(label) && pre.meets(label));
            assert(label[pre.part(i, k)] == label[pre.part(pre.root[i], k)]);
            if pre.root[i] == s {
                assert(pre.terms[i].same_head(pre.terms[pre.root[i]]));
                assert(pre.terms[s].parts().len() == pairs.len());
                let q = mid.queue.len() + k;
                assert(post.queue[q] == pairs[k]);
                assert(pairs[k].0.0 == pre.part(s, k));
                assert(pairs[k].1.0 == pre.part(t, k));
            }
        }
    }
}

} // verus!
