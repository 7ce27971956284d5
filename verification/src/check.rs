//! The check of a source text, from its bytes to the first error or to its types.

use vstd::prelude::*;
use vstd::string::*;
use crate::error::LanguageError;
use crate::grammar::{accepted, failure, text_of, ModuleParser};
use crate::agree::lemma_written_accepted;
use crate::grammar_util::{erase_comments, erased, Literals};
use crate::lexer::lex;
use crate::program::{Kind, ModuleNode, Program};
use crate::scoping::module_found;
use crate::shape::Type;
use crate::syntax::written_since;
use crate::text::{end_position, position_of};
use crate::type_check::{module_deriv, populate_module};
use crate::type_system::TypeSystem;
use crate::type_graph::{meets, models, Solution, Term, Ty};
use crate::typing::{agrees, asks_module, solvable, well_typed, Deriv};
use crate::typing_laws::lemma_well_typed_solvable;

verus! {

/// A module that has passed the check: its syntax tree, its literals, and its scopes,
/// declarations and types.
pub struct Checked {
    pub program: Program,
    pub literals: Literals,
    pub module: ModuleNode,
    pub types: TypeSystem,
}

/// Whether a variable was used where no declaration of it was visible.
pub fn has_undeclared_variables(sys: &TypeSystem) -> (b: bool)
    ensures
        b == sys.undeclared,
{
    sys.undeclared
}

/// Whether a declaration of the name written `var` has the type `ty`.
pub open spec fn declared_with_type(var: Seq<u8>, ty: Type, checked: &Checked) -> bool {
    exists|v: int|
        0 <= v < checked.types.var_ty@.len() && (#[trigger] checked.types.scopes.vars@[v]).0.0
            < checked.literals.names@.len()
            && checked.literals.names@[checked.types.scopes.vars@[v].0.0 as int]@ == var
            && checked.types.graph.shape(checked.types.var_ty@[v].0 as int) == ty
}

/// Whether a declaration of the name `var` has the type `ty`.
pub fn var_has_type(var: &str, ty: &Type, checked: &Checked) -> (b: bool)
    requires
        checked.types.wf(),
        checked.literals.wf(),
    ensures
        b == declared_with_type(var.spec_bytes(), *ty, checked),
{
    let name = match checked.literals.find_name(var.as_bytes()) {
        Some(name) => name,
        None => {
            return false;
        },
    };
    let sys = &checked.types;
    let mut v: usize = 0;
    while v < sys.var_ty.len()
        invariant
            sys == &checked.types,
            sys.wf(),
            checked.literals.wf(),
            v <= sys.var_ty@.len(),
            name.0 < checked.literals.names@.len(),
            checked.literals.names@[name.0 as int]@ == var.spec_bytes(),
            forall|w: int|
                0 <= w < v ==> !((#[trigger] checked.types.scopes.vars@[w]).0.0
                    < checked.literals.names@.len()
                    && checked.literals.names@[checked.types.scopes.vars@[w].0.0 as int]@
                    == var.spec_bytes() && checked.types.graph.shape(
                    checked.types.var_ty@[w].0 as int,
                ) == *ty),
        decreases sys.var_ty@.len() - v,
    {
        let declared = sys.scopes.vars[v].0;
        assert(sys.is_type(sys.var_ty@[v as int]));
        if declared == name && sys.graph.has_type(sys.var_ty[v], ty) {
            return true;
        }
        proof {
            if declared != name && declared.0 < checked.literals.names@.len() {
                assert(checked.literals.names@[declared.0 as int]@
                    != checked.literals.names@[name.0 as int]@);
            }
        }
        v = v + 1;
    }
    false
}

/// Whether `sys` is a state of the check of the module `m` of `p` in which every name has
/// its declaration: the module has a derivation `d` over its types, the pairs of types
/// that were to be made one are pairs that the rules ask for, and the new metavariables
/// of the derivation are terms that were added one after the other, none of them twice.
pub open spec fn checks(sys: &TypeSystem, p: &Program, m: ModuleNode, d: Deriv) -> bool {
    sys.wf() && sys.fits(p) && sys.names_ok(p) && !sys.shadowing && !sys.undeclared
        && module_deriv(sys, p, m, 0, d)
}

/// Whether `sys` is a state of the check of the module `m` of `p` in which every name has
/// its declaration.
pub open spec fn checked_by(sys: &TypeSystem, p: &Program, m: ModuleNode) -> bool {
    exists|d: Deriv| #[trigger] checks(sys, p, m, d)
}

/// Whether the types of the module `m` of `p` were found not to agree: in a state of
/// its check a conflict was found. The pairs that the rules ask for have no solution
/// then.
pub open spec fn conflicting(p: &Program, m: ModuleNode) -> bool {
    exists|sys: TypeSystem, d: Deriv| #[trigger] checks(&sys, p, m, d) && sys.graph.conflict
}

/// Whether the types of the module `m` of `p` were found to agree: in a state of its
/// check every pair that the rules ask for is of one class.
pub open spec fn typable(p: &Program, m: ModuleNode) -> bool {
    exists|sys: TypeSystem, d: Deriv| #[trigger] checks(&sys, p, m, d) && sys.graph.settled()
}

/// Whether the types of the module `m` of `p` were found to agree, and a type was left
/// to be found.
pub open spec fn typable_open(p: &Program, m: ModuleNode) -> bool {
    exists|sys: TypeSystem, d: Deriv| #[trigger]
        checks(&sys, p, m, d) && sys.graph.settled() && sys.graph.undetermined()
}

/// Where a conflict was found in a state of the check of a module, no solution of its
/// terms makes one type of every pair that the rules ask for; and where none was found,
/// the classes of the state are such a solution.
pub proof fn lemma_conflict_unsolvable(sys: &TypeSystem, p: &Program, m: ModuleNode, d: Deriv)
    requires
        checks(sys, p, m, d),
    ensures
        sys.graph.conflict <==> !solvable(sys, p, m, d),
{
    if sys.graph.conflict {
        assert forall|sol: Solution| #[trigger] models(sys.graph.terms@, sol) implies !agrees(
            p,
            m,
            d,
            sol,
        ) by {
            if agrees(p, m, d, sol) {
                assert forall|q: int| 0 <= q < sys.log@.len() implies {
                    let (a, b) = #[trigger] sys.log@[q];
                    sol.class[a.0 as int] == sol.class[b.0 as int]
                } by {
                    assert(asks_module(p, m, d, sys.log@[q]));
                }
                assert(meets(sys.log@, sol.class));
            }
        }
    } else {
        lemma_well_typed_solvable(sys, p, m, d);
    }
}

/// Whether the two types of `pr` are terms of one constructor that has no parts: both
/// nothing, both booleans, both numbers or both strings.
pub open spec fn plain_pair(sys: &TypeSystem, pr: (Ty, Ty)) -> bool {
    &&& sys.graph.has(pr.0)
    &&& sys.graph.has(pr.1)
    &&& sys.graph.term(pr.0.0 as int) == sys.graph.term(pr.1.0 as int)
    &&& plain(sys.graph.term(pr.0.0 as int))
}

/// Whether the term is nothing, a boolean, a number or a string.
pub open spec fn plain(term: Term) -> bool {
    term is Void || term is Boolean || term is Number || term is String
}

/// The class of term `i` where all terms that are nothing are one class, and so the
/// booleans, the numbers and the strings, and every other term is a class of its own.
pub open spec fn plain_class(terms: Seq<Term>, i: int) -> int {
    match terms[i] {
        Term::Void => terms.len() as int,
        Term::Boolean => terms.len() as int + 1,
        Term::Number => terms.len() as int + 2,
        Term::String => terms.len() as int + 3,
        _ => i,
    }
}

/// A module of which every derivation asks only that terms of one constructor without
/// parts be one is in no state of its check found in conflict: where its names are in
/// order, it passes.
pub proof fn lemma_plain_pairs_pass(p: &Program, m: ModuleNode)
    requires
        forall|sys: TypeSystem, d: Deriv, pr: (Ty, Ty)|
            checks(&sys, p, m, d) && #[trigger] asks_module(p, m, d, pr) ==> #[trigger] plain_pair(
                &sys,
                pr,
            ),
    ensures
        !conflicting(p, m),
{
    assert forall|sys: TypeSystem, d: Deriv| #[trigger] checks(&sys, p, m, d) implies !sys.graph.conflict by {
        if sys.graph.conflict {
            let terms = sys.graph.terms@;
            let n = terms.len();
            let sol = Solution {
                class: Seq::new(n, |i: int| plain_class(terms, i)),
                rank: Seq::new(
                    n,
                    |i: int|
                        if plain(terms[i]) {
                            0nat
                        } else {
                            (i + 1) as nat
                        },
                ),
            };
            assert forall|i: int, k: int|
                0 <= i < n && 0 <= k < terms[i].parts().len() implies sol.rank[#[trigger] crate::type_graph::term_part(
                terms,
                i,
                k,
            )] < sol.rank[i] by {
                assert(0 <= sys.graph.part(i, k) < i);
            }
            assert forall|i: int, j: int|
                0 <= i < n && 0 <= j < n && #[trigger] sol.same(i, j) implies terms[i] == terms[j]
                || i == j by {}
            assert(models(terms, sol));
            assert forall|q: int| 0 <= q < sys.log@.len() implies {
                let (a, b) = #[trigger] sys.log@[q];
                sol.class[a.0 as int] == sol.class[b.0 as int]
            } by {
                assert(asks_module(p, m, d, sys.log@[q]));
                assert(plain_pair(&sys, sys.log@[q]));
            }
            assert(meets(sys.log@, sol.class));
        }
    }
}

/// Checks the module `module` of `p`: resolves its names and finds its types.
///
/// The first failure of these, in this order, is the error: a name declared where it is
/// visible; a variable without a declaration; types that cannot be made to agree. The
/// last is reported only where a conflict was found in a state of the check of the
/// module: the pairs of types that the rules ask to be one have no solution then. A
/// module whose names are in order, and of which no check finds a conflict, passes.
pub fn check_module(p: Program, lits: Literals, module: ModuleNode) -> (r: Result<
    Checked,
    LanguageError,
>)
    requires
        p.wf(),
        p.has(module.0, Kind::Module),
        lits.wf(),
    ensures
        r == Err::<Checked, LanguageError>(LanguageError::ConflictingVariables) <==> module_found(
            &p,
            module,
        ).shadowing,
        r == Err::<Checked, LanguageError>(LanguageError::UndeclaredVariable) <==> !module_found(
            &p,
            module,
        ).shadowing && module_found(&p, module).undeclared,
        !module_found(&p, module).shadowing && !module_found(&p, module).undeclared
            && !conflicting(&p, module) ==> r is Ok,
        match r {
            Ok(checked) => {
                &&& checked.program == p
                &&& checked.literals == lits
                &&& checked.module == module
                &&& checked.types.wf()
                &&& checked.types.fits(&p)
                &&& checked.types.names_ok(&p)
                &&& !checked.types.shadowing
                &&& !checked.types.undeclared
                &&& checked.types.graph.settled()
                &&& well_typed(&checked.types, &p, module)
                &&& checked_by(&checked.types, &p, module)
                &&& typable(&p, module)
            },
            Err(e) => e == LanguageError::ConflictingVariables || e
                == LanguageError::UndeclaredVariable || (e == LanguageError::ConflictingTypes
                && !module_found(&p, module).shadowing && !module_found(&p, module).undeclared
                && conflicting(&p, module)),
        },
{
    let mut sys = TypeSystem::new(&p);
    populate_module(&mut sys, &p, module);
    proof {
        let d = choose|d: Deriv| #[trigger] module_deriv(&sys, &p, module, 0, d);
        if !sys.shadowing && !sys.undeclared {
            assert(checks(&sys, &p, module, d));
        }
    }
    if sys.shadowing {
        return Err(LanguageError::ConflictingVariables);
    }
    if has_undeclared_variables(&sys) {
        return Err(LanguageError::UndeclaredVariable);
    }
    if sys.graph.conflict {
        return Err(LanguageError::ConflictingTypes);
    }
    Ok(Checked { program: p, literals: lits, module, types: sys })
}

/// Whether `p` holds a syntax tree of the text `bytes`, whose module is `m`: all of the
/// text is tokens, and every node of `p` is written in them as the grammar says, the
/// module last.
pub open spec fn parsed(bytes: Seq<u8>, p: &Program, lits: &Literals, m: ModuleNode) -> bool {
    &&& lex(bytes, 0).1 is None
    &&& p.wf()
    &&& lits.wf()
    &&& p.has(m.0, Kind::Module)
    &&& m.0 + 1 == p@.len()
    &&& written_since(p, lits, text_of(bytes), 0)
}

/// Whether the text `bytes` has a syntax tree.
pub open spec fn has_tree(bytes: Seq<u8>) -> bool {
    exists|p: Program, lits: Literals, m: ModuleNode| #[trigger] parsed(bytes, &p, &lits, m)
}

/// A text that has a syntax tree is a module: reading it fails at no token.
pub proof fn lemma_tree_accepted(bytes: Seq<u8>)
    requires
        has_tree(bytes),
    ensures
        accepted(bytes),
{
    let (p, lits, m) = choose|p: Program, lits: Literals, m: ModuleNode| #[trigger]
        parsed(bytes, &p, &lits, m);
    lemma_written_accepted(&p, &lits, text_of(bytes), m);
}

/// Whether every syntax tree of the text `bytes` has its names in order and is in no
/// state of its check found in conflict.
pub open spec fn in_order(bytes: Seq<u8>) -> bool {
    forall|p: Program, lits: Literals, m: ModuleNode| #[trigger]
        parsed(bytes, &p, &lits, m) ==> !module_found(&p, m).shadowing && !module_found(
            &p,
            m,
        ).undeclared && !conflicting(&p, m)
}

/// Whether the text `bytes` has a syntax tree in which a name is declared where it is
/// visible, if `shadowing`, and in which none is, but a name is used where it is not
/// visible exactly if `undeclared`, if not; whose types were found not to agree, if
/// `conflict`; and whose types were found to agree, with a type left to be found, if
/// `open`.
pub open spec fn parses_with(
    bytes: Seq<u8>,
    shadowing: bool,
    undeclared: bool,
    conflict: bool,
    open: bool,
) -> bool {
    exists|p: Program, lits: Literals, m: ModuleNode| #[trigger]
        parsed(bytes, &p, &lits, m) && module_found(&p, m).shadowing == shadowing && (shadowing
            || module_found(&p, m).undeclared == undeclared) && (conflict ==> conflicting(&p, m))
            && (open ==> typable_open(&p, m))
}

/// Checks a source text: strips its comments, parses it, resolves its names and finds
/// its types.
///
/// The errors come in this order: a syntax error, at the first token that cannot stand
/// where it stands; a name that is declared where it is visible; a variable without a
/// declaration; types that cannot be made to agree. A text that has a syntax tree, with
/// its names in order, and of which no check finds a conflict, passes. A text that passes has a syntax
/// tree that is written in it as the grammar says, whose names are declared where they
/// are used and nowhere twice, and which is well typed.
pub fn check_source(src: &str) -> (r: Result<Checked, LanguageError>)
    ensures
        match r {
            Ok(checked) => {
                &&& parsed(
                    erased(src.spec_bytes()),
                    &checked.program,
                    &checked.literals,
                    checked.module,
                )
                &&& checked.types.wf()
                &&& checked.types.fits(&checked.program)
                &&& checked.types.names_ok(&checked.program)
                &&& !module_found(&checked.program, checked.module).shadowing
                &&& !module_found(&checked.program, checked.module).undeclared
                &&& !checked.types.shadowing
                &&& !checked.types.undeclared
                &&& checked.types.graph.settled()
                &&& well_typed(&checked.types, &checked.program, checked.module)
                &&& checked_by(&checked.types, &checked.program, checked.module)
            },
            Err(LanguageError::ParseError { line, column }) => (line as int, column as int)
                == end_position(
                erased(src.spec_bytes()).take(failure(erased(src.spec_bytes())).location() as int),
            ),
            Err(LanguageError::ConflictingVariables) => parses_with(
                erased(src.spec_bytes()),
                true,
                false,
                false,
                false,
            ),
            Err(LanguageError::UndeclaredVariable) => parses_with(
                erased(src.spec_bytes()),
                false,
                true,
                false,
                false,
            ),
            Err(LanguageError::ConflictingTypes) => parses_with(
                erased(src.spec_bytes()),
                false,
                false,
                true,
                false,
            ),
            Err(LanguageError::UndeterminedType) => false,
        },
        r matches Err(LanguageError::ParseError { .. }) <==> !has_tree(erased(src.spec_bytes())),
        has_tree(erased(src.spec_bytes())) && in_order(erased(src.spec_bytes())) ==> r is Ok,
{
    let no_comments_src = erase_comments(src);
    let mut p = Program::new();
    let mut lits = Literals::new();
    let text = no_comments_src.as_str();
    let read = ModuleParser::new().parse(&mut p, &mut lits, text);
    match read {
        Ok(module) => {
            let ghost tree = p;
            let ghost names = lits;
            let r = check_module(p, lits, module);
            proof {
                assert(text.spec_bytes() == erased(src.spec_bytes()));
                assert(parsed(erased(src.spec_bytes()), &tree, &names, module));
            }
            r
        },
        Err(err) => {
            let loc = err.location();
            let e = if text.is_char_boundary(loc) {
                LanguageError::from_parse_error(err, text)
            } else {
                let at = position_of(text.as_bytes(), loc);
                LanguageError::ParseError { line: at.0, column: at.1 }
            };
            proof {
                if has_tree(text.spec_bytes()) {
                    lemma_tree_accepted(text.spec_bytes());
                }
                let loc = err.location() as int;
                assert(text.spec_bytes() == erased(src.spec_bytes()));
                assert((e->line as int, e->column as int) == end_position(
                    erased(src.spec_bytes()).take(loc),
                ));
            }
            Err(e)
        },
    }
}

/// Checks a source text as [`check_source`] does, and then that no type is left to be
/// found: that every use has made up every type.
///
/// A type that may differ from use to use is left to be found for ever, so a text with
/// a function of such a type does not pass.
pub fn check_source_determined(src: &str) -> (r: Result<Checked, LanguageError>)
    ensures
        match r {
            Ok(checked) => {
                &&& parsed(
                    erased(src.spec_bytes()),
                    &checked.program,
                    &checked.literals,
                    checked.module,
                )
                &&& checked.types.wf()
                &&& !module_found(&checked.program, checked.module).shadowing
                &&& !module_found(&checked.program, checked.module).undeclared
                &&& checked.types.graph.settled()
                &&& well_typed(&checked.types, &checked.program, checked.module)
                &&& checked_by(&checked.types, &checked.program, checked.module)
                &&& !checked.types.graph.undetermined()
            },
            Err(LanguageError::ParseError { line, column }) => (line as int, column as int)
                == end_position(
                erased(src.spec_bytes()).take(failure(erased(src.spec_bytes())).location() as int),
            ),
            Err(LanguageError::ConflictingVariables) => parses_with(
                erased(src.spec_bytes()),
                true,
                false,
                false,
                false,
            ),
            Err(LanguageError::UndeclaredVariable) => parses_with(
                erased(src.spec_bytes()),
                false,
                true,
                false,
                false,
            ),
            Err(LanguageError::ConflictingTypes) => parses_with(
                erased(src.spec_bytes()),
                false,
                false,
                true,
                false,
            ),
            Err(LanguageError::UndeterminedType) => parses_with(
                erased(src.spec_bytes()),
                false,
                false,
                false,
                true,
            ),
        },
        r matches Err(LanguageError::ParseError { .. }) <==> !has_tree(erased(src.spec_bytes())),
{
    match check_source(src) {
        Ok(checked) => {
            if checked.types.graph.has_undetermined() {
                proof {
                    let d = choose|d: Deriv| #[trigger]
                        checks(&checked.types, &checked.program, checked.module, d);
                    assert(typable_open(&checked.program, checked.module));
                    assert(parsed(
                        erased(src.spec_bytes()),
                        &checked.program,
                        &checked.literals,
                        checked.module,
                    ));
                }
                Err(LanguageError::UndeterminedType)
            } else {
                Ok(checked)
            }
        },
        Err(err) => Err(err),
    }
}

} // verus!
