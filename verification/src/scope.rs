//! The tree of scopes and the declarations in them.
//!
//! A name is visible in a scope where that scope or one of its ancestors declares it.
//! A name is declared only where it is not visible, so no walk from a scope to the
//! root ever meets two declarations of one name that were both visible to the later.

use vstd::prelude::*;
use crate::program::Name;

verus! {

/// A declaration, as an index into the table of declarations.
#[derive(Clone, Copy, Debug, PartialEq, Eq, Structural)]
pub struct Var(pub usize);

/// A scope, as an index into the table of scopes.
#[derive(Clone, Copy, Debug, PartialEq, Eq, Structural)]
pub struct Scope(pub usize);

/// The first declaration of `n` in scope `s` among `vars[from..]`.
pub open spec fn first_in(vars: Seq<(Name, Scope)>, s: Scope, n: Name, from: int) -> Option<Var>
    decreases vars.len() - from,
{
    if from < 0 || from >= vars.len() {
        None
    } else if vars[from] == (n, s) {
        Some(Var(from as usize))
    } else {
        first_in(vars, s, n, from + 1)
    }
}

/// One more declaration is found where it is the one looked for and none was found
/// before; it changes nothing else.
pub proof fn lemma_first_in_push(
    vars: Seq<(Name, Scope)>,
    d: (Name, Scope),
    s: Scope,
    n: Name,
    from: int,
)
    requires
        0 <= from <= vars.len(),
        vars.len() < usize::MAX,
    ensures
        first_in(vars.push(d), s, n, from) == (match first_in(vars, s, n, from) {
            Some(v) => Some(v),
            None => if d == (n, s) {
                Some(Var(vars.len() as usize))
            } else {
                None
            },
        }),
    decreases vars.len() - from,
{
    if from < vars.len() {
        assert(vars.push(d)[from] == vars[from]);
        if vars[from] != (n, s) {
            lemma_first_in_push(vars, d, s, n, from + 1);
        }
    } else {
        reveal_with_fuel(first_in, 2);
        assert(vars.push(d)[from] == d);
    }
}

/// A declaration that is found is one of `n` in `s`.
pub proof fn lemma_first_in_found(vars: Seq<(Name, Scope)>, s: Scope, n: Name, from: int)
    requires
        0 <= from,
        vars.len() <= usize::MAX,
    ensures
        match first_in(vars, s, n, from) {
            Some(v) => from <= v.0 < vars.len() && vars[v.0 as int] == (n, s),
            None => forall|i: int| from <= i < vars.len() ==> vars[i] != (n, s),
        },
    decreases vars.len() - from,
{
    if from < vars.len() && vars[from] != (n, s) {
        lemma_first_in_found(vars, s, n, from + 1);
    }
}

/// The scopes, each with its parent, and the declarations, each with its name and the
/// scope that owns it.
pub struct ScopeTree {
    pub parents: Vec<Option<Scope>>,
    pub vars: Vec<(Name, Scope)>,
}

impl ScopeTree {
    /// Whether `s` is a scope of the tree.
    pub open spec fn has(&self, s: Scope) -> bool {
        s.0 < self.parents@.len()
    }

    /// Whether `v` is a declaration of the tree.
    pub open spec fn has_var(&self, v: Var) -> bool {
        v.0 < self.vars@.len()
    }

    /// Every scope was made after its parent, and every declaration is in a scope.
    pub open spec fn wf(&self) -> bool {
        &&& self.vars@.len() <= usize::MAX
        &&& forall|i: int|
            0 <= i < self.parents@.len() ==> (#[trigger] self.parents@[i] matches Some(p) ==> p.0
                < i)
        &&& forall|i: int| 0 <= i < self.vars@.len() ==> self.has((#[trigger] self.vars@[i]).1)
    }

    /// Whether `a` is `s` or an ancestor of `s`.
    pub open spec fn within(&self, s: Scope, a: Scope) -> bool
        decreases s.0,
    {
        s == a || (self.has(s) && match self.parents@[s.0 as int] {
            Some(p) => p.0 < s.0 && self.within(p, a),
            None => false,
        })
    }

    /// The declaration of `n` in the scope `s` itself.
    pub open spec fn declared(&self, s: Scope, n: Name) -> Option<Var> {
        first_in(self.vars@, s, n, 0)
    }

    /// The declaration of `n` that is visible in `s`: that of `s` itself, or else the
    /// one visible in its parent.
    pub open spec fn visible(&self, s: Scope, n: Name) -> Option<Var>
        decreases s.0,
    {
        match self.declared(s, n) {
            Some(v) => Some(v),
            None => if self.has(s) {
                match self.parents@[s.0 as int] {
                    Some(p) => if p.0 < s.0 {
                        self.visible(p, n)
                    } else {
                        None
                    },
                    None => None,
                }
            } else {
                None
            },
        }
    }

    /// A tree without scopes.
    pub fn new() -> (t: ScopeTree)
        ensures
            t.wf(),
            t.parents@.len() == 0,
            t.vars@.len() == 0,
    {
        ScopeTree { parents: Vec::new(), vars: Vec::new() }
    }

    /// Adds a scope under `parent`, or a root. It declares nothing yet, so what is
    /// visible in it is what is visible in its parent.
    pub fn enter(&mut self, parent: Option<Scope>) -> (s: Scope)
        requires
            old(self).wf(),
            parent matches Some(p) ==> old(self).has(p),
        ensures
            final(self).wf(),
            s.0 == old(self).parents@.len(),
            final(self).parents@ == old(self).parents@.push(parent),
            final(self).vars == old(self).vars,
            old(self).grown_in(final(self), None),
            old(self).kept_in(final(self)),
            forall|n: Name| #[trigger]
                final(self).visible(s, n) == (match parent {
                    Some(p) => old(self).visible(p, n),
                    None => None,
                }),
    {
        let s = Scope(self.parents.len());
        self.parents.push(parent);
        proof {
            assert(self.parents@.take(old(self).parents@.len() as int) =~= old(self).parents@);
            assert forall|t: Scope, m: Name|
                old(self).has(t) && old(self).visible(t, m) is Some implies #[trigger] self.visible(
                t,
                m,
            ) == old(self).visible(t, m) by {
                old(self).lemma_visible_kept(self, t, m);
            }
            assert forall|n: Name| #[trigger]
                self.visible(s, n) == (match parent {
                    Some(p) => old(self).visible(p, n),
                    None => None,
                }) by {
                assert(self.vars@.len() <= usize::MAX);
                lemma_first_in_found(self.vars@, s, n, 0);
                if self.declared(s, n) is Some {
                    let v = self.declared(s, n).unwrap();
                    assert(old(self).has(old(self).vars@[v.0 as int].1));
                }
                if let Some(p) = parent {
                    assert(self.parents@.take(old(self).parents@.len() as int) =~= old(
                        self,
                    ).parents@);
                    old(self).lemma_visible_kept(self, p, n);
                }
            }
        }
        s
    }

    /// What is visible in a scope stays so when scopes are added.
    pub proof fn lemma_visible_kept(&self, other: &ScopeTree, s: Scope, n: Name)
        requires
            self.wf(),
            self.has(s),
            other.vars == self.vars,
            self.parents@.len() <= other.parents@.len(),
            other.parents@.take(self.parents@.len() as int) == self.parents@,
        ensures
            other.visible(s, n) == self.visible(s, n),
        decreases s.0,
    {
        assert(other.parents@[s.0 as int] == other.parents@.take(self.parents@.len() as int)[s.0 as int]);
        if self.declared(s, n) is None {
            if let Some(p) = self.parents@[s.0 as int] {
                self.lemma_visible_kept(other, p, n);
            }
        }
    }

    /// The declaration of `n` that is visible in `s`.
    pub fn lookup(&self, s: Scope, n: Name) -> (found: Option<Var>)
        requires
            self.wf(),
            self.has(s),
        ensures
            found == self.visible(s, n),
            found matches Some(v) ==> self.has_var(v) && self.vars@[v.0 as int].0 == n
                && self.within(s, self.vars@[v.0 as int].1),
    {
        let mut cur = s;
        loop
            invariant
                self.wf(),
                self.has(cur),
                self.visible(s, n) == self.visible(cur, n),
                self.within(s, cur),
            decreases cur.0,
        {
            let mut i: usize = 0;
            while i < self.vars.len()
                invariant
                    self.wf(),
                    self.has(cur),
                    self.visible(s, n) == self.visible(cur, n),
                    self.within(s, cur),
                    i <= self.vars@.len(),
                    self.declared(cur, n) == first_in(self.vars@, cur, n, i as int),
                decreases self.vars@.len() - i,
            {
                let (name, scope) = self.vars[i];
                if name == n && scope == cur {
                    proof {
                        assert(self.vars@[i as int] == (n, cur));
                        assert(first_in(self.vars@, cur, n, i as int) == Some(Var(i)));
                        assert(self.has(self.vars@[i as int].1));
                    }
                    return Some(Var(i));
                }
                i = i + 1;
            }
            match self.parents[cur.0] {
                Some(p) => {
                    proof {
                        self.lemma_within_up(s, cur, p);
                    }
                    cur = p;
                },
                None => {
                    return None;
                },
            }
        }
    }

    /// The parent of an ancestor is an ancestor.
    pub proof fn lemma_within_up(&self, s: Scope, a: Scope, p: Scope)
        requires
            self.wf(),
            self.has(a),
            self.within(s, a),
            self.parents@[a.0 as int] == Some(p),
        ensures
            self.within(s, p),
        decreases s.0,
    {
        if s != a {
            let q = self.parents@[s.0 as int].unwrap();
            self.lemma_within_up(q, a, p);
        } else {
            assert(self.within(p, p));
        }
    }

    /// Declares `n` in `s`, unless a declaration of `n` is visible there.
    ///
    /// The new declaration is then the one visible in `s`. What is visible of another
    /// name, or in a scope that `s` is no ancestor of, stays as it is.
    pub fn declare(&mut self, s: Scope, n: Name) -> (made: Option<Var>)
        requires
            old(self).wf(),
            old(self).has(s),
        ensures
            final(self).wf(),
            final(self).parents == old(self).parents,
            made is None <==> old(self).visible(s, n) is Some,
            made is None ==> final(self).vars == old(self).vars,
            old(self).grown_in(final(self), Some(s)),
            old(self).kept_in(final(self)),
            made matches Some(v) ==> {
                &&& v.0 == old(self).vars@.len()
                &&& final(self).vars@ == old(self).vars@.push((n, s))
                &&& final(self).visible(s, n) == Some(v)
                &&& forall|t: Scope, m: Name|
                    m != n || !old(self).within(t, s) ==> #[trigger] final(self).visible(t, m)
                        == old(self).visible(t, m)
            },
    {
        match self.lookup(s, n) {
            Some(_) => None,
            None => {
                let v = Var(self.vars.len());
                self.vars.push((n, s));
                let count = self.vars.len();
                proof {
                    assert(old(self).vars@.len() < usize::MAX);
                    lemma_first_in_push(old(self).vars@, (n, s), s, n, 0);
                    assert forall|t: Scope, m: Name|
                        old(self).has(t) && old(self).visible(t, m) is Some implies #[trigger] self.visible(
                        t,
                        m,
                    ) == old(self).visible(t, m) by {
                        old(self).lemma_declare_kept(self, s, n, t, m);
                    }
                    assert forall|t: Scope, m: Name|
                        m != n || !old(self).within(t, s) implies #[trigger] self.visible(t, m)
                        == old(self).visible(t, m) by {
                        old(self).lemma_declare_frame(self, s, n, t, m);
                    }
                    assert forall|i: int| 0 <= i < self.vars@.len() implies self.has(
                        (#[trigger] self.vars@[i]).1,
                    ) by {
                        if i < old(self).vars@.len() {
                            assert(old(self).has(old(self).vars@[i].1));
                        }
                    }
                }
                Some(v)
            },
        }
    }

    /// A declaration of `n` in `s` changes what is visible only of `n`, and only in `s`
    /// and the scopes under it.
    pub proof fn lemma_declare_frame(&self, other: &ScopeTree, s: Scope, n: Name, t: Scope, m: Name)
        requires
            other.parents == self.parents,
            other.vars@ == self.vars@.push((n, s)),
            self.vars@.len() < usize::MAX,
            m != n || !self.within(t, s),
        ensures
            other.visible(t, m) == self.visible(t, m),
        decreases t.0,
    {
        lemma_first_in_push(self.vars@, (n, s), t, m, 0);
        if self.declared(t, m) is None && self.has(t) {
            if let Some(p) = self.parents@[t.0 as int] {
                if p.0 < t.0 {
                    self.lemma_declare_frame(other, s, n, p, m);
                }
            }
        }
    }

    /// A declaration of a name that was not visible where it is made leaves every
    /// declaration that was visible the one that is visible.
    pub proof fn lemma_declare_kept(&self, other: &ScopeTree, s: Scope, n: Name, t: Scope, m: Name)
        requires
            other.parents == self.parents,
            other.vars@ == self.vars@.push((n, s)),
            self.vars@.len() < usize::MAX,
            self.visible(s, n) is None,
            self.visible(t, m) is Some,
        ensures
            other.visible(t, m) == self.visible(t, m),
        decreases t.0,
    {
        lemma_first_in_push(self.vars@, (n, s), t, m, 0);
        if self.declared(t, m) is None && self.has(t) {
            if let Some(p) = self.parents@[t.0 as int] {
                if p.0 < t.0 {
                    self.lemma_declare_kept(other, s, n, p, m);
                }
            }
        }
    }

    /// Whether every declaration that is visible in a scope of `self` is the one that is
    /// visible there in `other`, and every scope of `self` has in `other` the parent that
    /// it has.
    pub open spec fn kept_in(&self, other: &ScopeTree) -> bool {
        &&& self.parents@.len() <= other.parents@.len()
        &&& forall|i: int|
            0 <= i < self.parents@.len() ==> #[trigger] other.parents@[i] == self.parents@[i]
        &&& forall|t: Scope, m: Name|
            self.has(t) && self.visible(t, m) is Some ==> #[trigger] other.visible(t, m)
                == self.visible(t, m)
    }

    /// A name is visible in a scope exactly where that scope or one of its ancestors
    /// declares it: declaring a name twice is refused exactly where the scope of the
    /// first declaration is the scope of the second or one of its ancestors.
    pub proof fn lemma_visible_iff_declared_above(&self, s: Scope, n: Name)
        requires
            self.wf(),
            self.has(s),
        ensures
            self.visible(s, n) is Some <==> exists|a: Scope|
                #[trigger] self.within(s, a) && self.declared(a, n) is Some,
        decreases s.0,
    {
        if self.declared(s, n) is Some {
            assert(self.within(s, s));
        } else {
            match self.parents@[s.0 as int] {
                Some(p) => {
                    self.lemma_visible_iff_declared_above(p, n);
                    if self.visible(p, n) is Some {
                        let a = choose|a: Scope|
                            #[trigger] self.within(p, a) && self.declared(a, n) is Some;
                        assert(self.within(s, a));
                    }
                    if exists|a: Scope| #[trigger]
                        self.within(s, a) && self.declared(a, n) is Some {
                        let a = choose|a: Scope|
                            #[trigger] self.within(s, a) && self.declared(a, n) is Some;
                        assert(a != s);
                        assert(self.within(p, a));
                    }
                },
                None => {
                    if exists|a: Scope| #[trigger]
                        self.within(s, a) && self.declared(a, n) is Some {
                        let a = choose|a: Scope|
                            #[trigger] self.within(s, a) && self.declared(a, n) is Some;
                        assert(a == s);
                    }
                },
            }
        }
    }

    /// Scopes of which neither is an ancestor of the other never conflict: a declaration
    /// in `s` leaves every name as declarable in `t` as it was, where `s` is neither
    /// `t` nor an ancestor of `t`.
    ///
    /// Here `self` is the tree before the declaration of `n` in `s`, and `other` the
    /// tree after it.
    pub proof fn lemma_siblings_never_conflict(
        &self,
        other: &ScopeTree,
        s: Scope,
        n: Name,
        t: Scope,
        m: Name,
    )
        requires
            other.parents == self.parents,
            other.vars@ == self.vars@.push((n, s)),
            self.vars@.len() < usize::MAX,
            !self.within(t, s),
        ensures
            other.visible(t, m) is Some <==> self.visible(t, m) is Some,
    {
        self.lemma_declare_frame(other, s, n, t, m);
    }

    /// Whether `other` has grown from `self` by scopes and by declarations that are in
    /// the new scopes or in the scope `s`.
    pub open spec fn grown_in(&self, other: &ScopeTree, s: Option<Scope>) -> bool {
        &&& self.parents@.len() <= other.parents@.len()
        &&& self.vars@.len() <= other.vars@.len()
        &&& forall|i: int| 0 <= i < self.parents@.len() ==> #[trigger] other.parents@[i] == self.parents@[i]
        &&& forall|i: int| 0 <= i < self.vars@.len() ==> #[trigger] other.vars@[i] == self.vars@[i]
        &&& forall|i: int|
            self.vars@.len() <= i < other.vars@.len() ==> (#[trigger] other.vars@[i]).1.0
                >= self.parents@.len() || Some(other.vars@[i].1) == s
    }

    /// A tree that has grown, and then grown again in a scope that is `s` or new, has
    /// grown in `s`.
    pub proof fn lemma_grown_in_trans(
        &self,
        mid: &ScopeTree,
        other: &ScopeTree,
        s: Option<Scope>,
        t: Option<Scope>,
    )
        requires
            self.grown_in(mid, s),
            mid.grown_in(other, t),
            t is None || t == s || t.unwrap().0 >= self.parents@.len(),
        ensures
            self.grown_in(other, s),
    {
        assert forall|i: int| 0 <= i < self.parents@.len() implies #[trigger] other.parents@[i]
            == self.parents@[i] by {
            assert(mid.parents@[i] == self.parents@[i]);
        }
        assert forall|i: int| 0 <= i < self.vars@.len() implies #[trigger] other.vars@[i]
            == self.vars@[i] by {
            assert(mid.vars@[i] == self.vars@[i]);
        }
        assert forall|i: int| self.vars@.len() <= i < other.vars@.len() implies (
        #[trigger] other.vars@[i]).1.0 >= self.parents@.len() || Some(other.vars@[i].1) == s by {
            if i < mid.vars@.len() {
                assert(other.vars@[i] == mid.vars@[i]);
            }
        }
    }

    /// An ancestor of a scope was made before it.
    pub proof fn lemma_within_older(&self, s: Scope, a: Scope)
        requires
            self.within(s, a),
        ensures
            a.0 <= s.0,
        decreases s.0,
    {
        if s != a {
            let p = self.parents@[s.0 as int].unwrap();
            self.lemma_within_older(p, a);
        }
    }

    /// The ancestors of a scope stay what they are when the tree grows.
    pub proof fn lemma_within_kept(&self, other: &ScopeTree, s: Option<Scope>, t: Scope, a: Scope)
        requires
            self.wf(),
            self.grown_in(other, s),
            self.has(t),
        ensures
            other.within(t, a) == self.within(t, a),
        decreases t.0,
    {
        assert(other.parents@[t.0 as int] == self.parents@[t.0 as int]);
        if t != a {
            if let Some(p) = self.parents@[t.0 as int] {
                self.lemma_within_kept(other, s, p, a);
            }
        }
    }

    /// A search among more declarations, of which the further ones are no declarations
    /// of `n` in `t`, finds what it found.
    pub proof fn lemma_first_in_more(
        vars: Seq<(Name, Scope)>,
        more: Seq<(Name, Scope)>,
        t: Scope,
        n: Name,
        from: int,
    )
        requires
            0 <= from,
            vars.len() <= more.len() <= usize::MAX,
            forall|i: int| 0 <= i < vars.len() ==> #[trigger] more[i] == vars[i],
            forall|i: int| vars.len() <= i < more.len() ==> (#[trigger] more[i]) != (n, t),
        ensures
            first_in(more, t, n, from) == first_in(vars, t, n, from),
        decreases more.len() - from,
    {
        if from < more.len() {
            if from < vars.len() {
                assert(more[from] == vars[from]);
            }
            if more[from] != (n, t) {
                Self::lemma_first_in_more(vars, more, t, n, from + 1);
            }
        }
    }

    /// What is visible in a scope stays so when the tree grows, unless it grows in that
    /// scope or in one of its ancestors.
    pub proof fn lemma_visible_frame(&self, other: &ScopeTree, s: Option<Scope>, t: Scope, n: Name)
        requires
            self.wf(),
            other.vars@.len() <= usize::MAX,
            self.grown_in(other, s),
            self.has(t),
            s matches Some(a) ==> !self.within(t, a),
        ensures
            other.visible(t, n) == self.visible(t, n),
        decreases t.0,
    {
        assert(other.parents@[t.0 as int] == self.parents@[t.0 as int]);
        assert forall|i: int| self.vars@.len() <= i < other.vars@.len() implies (
        #[trigger] other.vars@[i]) != (n, t) by {
            if let Some(a) = s {
                assert(self.within(a, a));
            }
        }
        Self::lemma_first_in_more(self.vars@, other.vars@, t, n, 0);
        if self.declared(t, n) is None {
            if let Some(p) = self.parents@[t.0 as int] {
                self.lemma_visible_frame(other, s, p, n);
            }
        }
    }

    /// What is visible in a scope is visible in the scopes under it.
    pub proof fn lemma_visible_inherited(&self, t: Scope, a: Scope, n: Name)
        requires
            self.wf(),
            self.within(t, a),
            self.visible(a, n) is Some,
        ensures
            self.visible(t, n) is Some,
        decreases t.0,
    {
        if t != a {
            let p = self.parents@[t.0 as int].unwrap();
            self.lemma_visible_inherited(p, a, n);
        }
    }
}

} // verus!
