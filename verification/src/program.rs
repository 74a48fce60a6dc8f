use vstd::prelude::*;
use vstd::set_lib::lemma_len_subset;
use crate::ast::{Circuit, Function, ImportParser, Program, Statement};
use crate::errors::CompilerError;
use crate::scope::{is_valid_name, new_scope, qualified, lemma_qualified_injective};
use crate::value::ConstrainedValue;

verus! {

/// The name of the entry function every compilation looks up.
pub open spec fn main_name() -> Seq<char> {
    "main"@
}

/// A body that never asserts: evaluating it emits only constraints that hold
/// of the witness the evaluator builds, so satisfiability is preserved.
pub open spec fn assertion_free(body: Seq<Statement>) -> bool {
    forall|i: int| 0 <= i < body.len() ==> !((#[trigger] body[i]) is Assertion)
}

/// Every function declared by the program has an assertion-free body.
pub open spec fn program_assertion_free(p: Program) -> bool {
    forall|i: int|
        0 <= i < p.functions@.len() ==> assertion_free((#[trigger] p.functions@[i]).body@)
}

/// Every program the import parser can hand out is assertion-free.
pub open spec fn parser_assertion_free(parser: ImportParser) -> bool {
    forall|i: int|
        0 <= i < parser.programs@.len() ==> program_assertion_free(
            (#[trigger] parser.programs@[i]).1,
        )
}

/// Every function value stored in a table has an assertion-free body.
pub open spec fn table_assertion_free(table: Seq<(String, ConstrainedValue)>) -> bool {
    forall|i: int|
        0 <= i < table.len() ==> ((#[trigger] table[i]).1 matches ConstrainedValue::Function(
            _,
            f,
        ) ==> assertion_free(f.body@))
}

/// Whether the program declares an entry function that takes no inputs, has
/// an empty body and declares no return type: the simplest compilable entry.
pub open spec fn declares_empty_main(p: Program) -> bool {
    exists|i: int|
        0 <= i < p.functions@.len() && (#[trigger] p.functions@[i]).identifier@ == main_name()
            && p.functions@[i].parameters@.len() == 0 && p.functions@[i].body@.len() == 0
            && (p.functions@[i].return_type is None)
}

/// Whether a name is declared by one of the functions of a sequence.
pub open spec fn seq_declares_function(fns: Seq<Function>, n: Seq<char>) -> bool {
    exists|k: int| 0 <= k < fns.len() && (#[trigger] fns[k]).identifier@ == n
}

/// Whether a name is declared by one of the circuits of a sequence.
pub open spec fn seq_declares_circuit(cs: Seq<Circuit>, n: Seq<char>) -> bool {
    exists|k: int| 0 <= k < cs.len() && (#[trigger] cs[k]).identifier@ == n
}

/// Whether some string of a sequence views to the given name.
pub open spec fn name_in(v: Seq<String>, n: Seq<char>) -> bool {
    exists|i: int| 0 <= i < v.len() && (#[trigger] v[i])@ == n
}

/// Scans a list of names for one with the given view.
pub(crate) fn contains_string(v: &Vec<String>, s: &String) -> (r: bool)
    ensures
        r == name_in(v@, s@),
{
    let n = v.len();
    let mut i: usize = 0;
    while i < n
        invariant
            n == v@.len(),
            0 <= i <= n,
            forall|j: int| 0 <= j < i ==> (#[trigger] v@[j])@ != s@,
        decreases n - i,
    {
        if v[i] == *s {
            return true;
        }
        i = i + 1;
    }
    false
}

/// Every key of the table is a qualified name whose program component is
/// valid and differs from `root`: nothing but the root program's own final
/// insertion pass may claim the root scope.
pub open spec fn nonroot_key(key: Seq<char>, root: Seq<char>) -> bool {
    exists|p: Seq<char>, n: Seq<char>|
        is_valid_name(p) && is_valid_name(n) && key == #[trigger] qualified(p, n) && p != root
}

pub open spec fn nonroot_attributed(
    table: Seq<(String, ConstrainedValue)>,
    root: Seq<char>,
) -> bool {
    forall|j: int| 0 <= j < table.len() ==> nonroot_key((#[trigger] table[j]).0@, root)
}

/// The engine's symbol table: the program-wide mapping from qualified name to
/// resolved value.  Built once by `store_definitions`, then read-only.
pub struct ConstrainedProgram {
    pub table: Vec<(String, ConstrainedValue)>,
}

impl ConstrainedProgram {
    /// Key uniqueness: resolution fails rather than ever storing a duplicate.
    pub open spec fn wf(self) -> bool {
        forall|i: int, j: int|
            0 <= i < j < self.table@.len() ==> (#[trigger] self.table@[i]).0@ != (
            #[trigger] self.table@[j]).0@
    }

    pub open spec fn contains_key(self, k: Seq<char>) -> bool {
        exists|i: int| 0 <= i < self.table@.len() && (#[trigger] self.table@[i]).0@ == k
    }

    pub fn new() -> (r: ConstrainedProgram)
        ensures
            r.wf(),
            r.table@.len() == 0,
    {
        ConstrainedProgram { table: Vec::new() }
    }

    /// Reads the resolved value stored under a qualified name.
    pub fn get(&self, name: &String) -> (r: Option<&ConstrainedValue>)
        ensures
            match r {
                Some(v) => exists|i: int|
                    0 <= i < self.table@.len() && (#[trigger] self.table@[i]).0@ == name@
                        && self.table@[i].1 == *v,
                None => !self.contains_key(name@),
            },
    {
        let n = self.table.len();
        let mut i: usize = 0;
        while i < n
            invariant
                n == self.table@.len(),
                0 <= i <= n,
                forall|j: int| 0 <= j < i ==> (#[trigger] self.table@[j]).0@ != name@,
            decreases n - i,
        {
            if self.table[i].0 == *name {
                return Some(&self.table[i].1);
            }
            i = i + 1;
        }
        None
    }

    /// Inserts one definition; a second definition under the same qualified
    /// name is refused, never overwritten.
    pub fn store(&mut self, name: String, value: ConstrainedValue) -> (r: Result<
        (),
        CompilerError,
    >)
        requires
            old(self).wf(),
        ensures
            final(self).wf(),
            match r {
                Ok(()) => !old(self).contains_key(name@) && final(self).table@ == old(
                    self,
                ).table@.push((name, value)),
                Err(e) => old(self).contains_key(name@) && (e matches
                    CompilerError::DuplicateDefinition(_)) && final(self).table@ == old(
                    self,
                ).table@,
            },
    {
        let n = self.table.len();
        let mut i: usize = 0;
        while i < n
            invariant
                old(self).wf(),
                self.table@ == old(self).table@,
                n == self.table@.len(),
                0 <= i <= n,
                forall|j: int| 0 <= j < i ==> (#[trigger] self.table@[j]).0@ != name@,
            decreases n - i,
        {
            if self.table[i].0 == name {
                return Err(CompilerError::DuplicateDefinition(name));
            }
            i = i + 1;
        }
        self.table.push((name, value));
        Ok(())
    }
}


impl ConstrainedProgram {
    /// Stores every circuit and function declaration of one program under
    /// that program's own qualified scope, circuits first, in declaration
    /// order.  It succeeds exactly when the declared names are pairwise
    /// distinct and none of their qualified keys is already taken.
    #[verifier::loop_isolation(false)]
    fn store_program_declarations(
        &mut self,
        name: &String,
        circuits: Vec<Circuit>,
        functions: Vec<Function>,
    ) -> (r: Result<(), CompilerError>)
        requires
            old(self).wf(),
            is_valid_name(name@),
            forall|i: int| 0 <= i < circuits@.len() ==> is_valid_name(
                (#[trigger] circuits@[i]).identifier@,
            ),
            forall|i: int| 0 <= i < functions@.len() ==> is_valid_name(
                (#[trigger] functions@[i]).identifier@,
            ),
        ensures
            final(self).wf(),
            match r {
                Ok(()) => {
                    &&& final(self).table@.len() == old(self).table@.len() + circuits@.len()
                        + functions@.len()
                    &&& forall|j: int|
                        0 <= j < old(self).table@.len()
                            ==> final(self).table@[j] == old(self).table@[j]
                    &&& forall|j: int|
                        #![trigger circuits@[j]]
                        0 <= j < circuits@.len()
                            ==> final(self).table@[old(self).table@.len() + j].0@
                                == qualified(name@, circuits@[j].identifier@)
                                && final(self).table@[old(self).table@.len() + j].1
                                == ConstrainedValue::CircuitDefinition(*name, circuits@[j])
                    &&& forall|i: int|
                        #![trigger functions@[i]]
                        0 <= i < functions@.len()
                            ==> final(self).table@[old(self).table@.len() + circuits@.len() + i].0@
                                == qualified(name@, functions@[i].identifier@)
                                && final(self).table@[old(self).table@.len() + circuits@.len()
                                + i].1 == ConstrainedValue::Function(*name, functions@[i])
                },
                Err(e) => e matches CompilerError::DuplicateDefinition(_),
            },
            (declaration_names(circuits@, functions@).no_duplicates() && (forall|j: int|
                0 <= j < declaration_names(circuits@, functions@).len()
                    ==> !old(self).contains_key(
                    qualified(name@, #[trigger] declaration_names(circuits@, functions@)[j]),
                ))) ==> r is Ok,
            r is Ok ==> declaration_names(circuits@, functions@).no_duplicates(),
    {
        let ghost base = old(self).table@.len() as int;
        let ghost decls = declaration_names(circuits@, functions@);
        let mut circuits = circuits;
        let mut functions = functions;
        let ghost circuits0 = circuits@;
        let ghost functions0 = functions@;
        let ghost nc = circuits0.len() as int;
        proof {
            assert(forall|j: int|
                0 <= j < nc ==> decls[j] == (#[trigger] circuits0[j]).identifier@);
            assert(forall|i: int|
                0 <= i < functions0.len() ==> decls[nc + i] == (#[trigger] functions0[i])
                    .identifier@);
        }
        let ghost mut k: int = 0;
        while circuits.len() > 0
            invariant
                self.wf(),
                0 <= k,
                k + circuits@.len() == circuits0.len(),
                circuits@ == circuits0.skip(k),
                self.table@.len() == base + k,
                forall|j: int| 0 <= j < base ==> self.table@[j] == old(self).table@[j],
                forall|j: int|
                    #![trigger circuits0[j]]
                    0 <= j < k ==> self.table@[base + j].0@ == qualified(
                        name@,
                        circuits0[j].identifier@,
                    ) && self.table@[base + j].1 == ConstrainedValue::CircuitDefinition(
                        *name,
                        circuits0[j],
                    ),
            decreases circuits@.len(),
        {
            let c = circuits.remove(0);
            proof {
                assert(c == circuits0[k]);
                assert(circuits@ =~= circuits0.skip(k + 1));
            }
            let key = new_scope(name.clone(), c.identifier.clone());
            let stored = ConstrainedValue::CircuitDefinition(name.clone(), c);
            match self.store(key, stored) {
                Ok(()) => {},
                Err(e) => {
                    proof {
                        let idx = choose|idx: int|
                            0 <= idx < self.table@.len() && (#[trigger] self.table@[idx]).0@
                                == qualified(name@, circuits0[k].identifier@);
                        if idx < base {
                            assert(decls[k] == circuits0[k].identifier@);
                            assert(old(self).table@[idx].0@ == qualified(name@, decls[k]));
                            assert(old(self).contains_key(qualified(name@, decls[k])));
                        } else {
                            lemma_qualified_injective(
                                name@,
                                circuits0[idx - base].identifier@,
                                name@,
                                circuits0[k].identifier@,
                            );
                            assert(decls[idx - base] == decls[k]);
                            assert(!decls.no_duplicates());
                        }
                    }
                    return Err(e);
                },
            }
            proof {
                k = k + 1;
            }
        }
        let ghost mid = self.table@;
        let ghost mut k2: int = 0;
        while functions.len() > 0
            invariant
                self.wf(),
                0 <= k2,
                k2 + functions@.len() == functions0.len(),
                functions@ == functions0.skip(k2),
                mid.len() == base + nc,
                self.table@.len() == base + nc + k2,
                forall|j: int| 0 <= j < mid.len() ==> self.table@[j] == mid[j],
                forall|j: int| 0 <= j < base ==> mid[j] == old(self).table@[j],
                forall|j: int|
                    #![trigger circuits0[j]]
                    0 <= j < nc ==> mid[base + j].0@ == qualified(name@, circuits0[j].identifier@)
                        && mid[base + j].1 == ConstrainedValue::CircuitDefinition(
                        *name,
                        circuits0[j],
                    ),
                forall|i: int|
                    #![trigger functions0[i]]
                    0 <= i < k2 ==> self.table@[base + nc + i].0@ == qualified(
                        name@,
                        functions0[i].identifier@,
                    ) && self.table@[base + nc + i].1 == ConstrainedValue::Function(
                        *name,
                        functions0[i],
                    ),
            decreases functions@.len(),
        {
            let f = functions.remove(0);
            proof {
                assert(f == functions0[k2]);
                assert(functions@ =~= functions0.skip(k2 + 1));
            }
            let key = new_scope(name.clone(), f.identifier.clone());
            let stored = ConstrainedValue::Function(name.clone(), f);
            match self.store(key, stored) {
                Ok(()) => {},
                Err(e) => {
                    proof {
                        let idx = choose|idx: int|
                            0 <= idx < self.table@.len() && (#[trigger] self.table@[idx]).0@
                                == qualified(name@, functions0[k2].identifier@);
                        if idx < base {
                            assert(decls[nc + k2] == functions0[k2].identifier@);
                            assert(old(self).table@[idx].0@ == qualified(name@, decls[nc + k2]));
                            assert(old(self).contains_key(qualified(name@, decls[nc + k2])));
                        } else if idx < base + nc {
                            lemma_qualified_injective(
                                name@,
                                circuits0[idx - base].identifier@,
                                name@,
                                functions0[k2].identifier@,
                            );
                            assert(decls[idx - base] == decls[nc + k2]);
                            assert(!decls.no_duplicates());
                        } else {
                            lemma_qualified_injective(
                                name@,
                                functions0[idx - base - nc].identifier@,
                                name@,
                                functions0[k2].identifier@,
                            );
                            assert(decls[idx - base] == decls[nc + k2]);
                            assert(!decls.no_duplicates());
                        }
                    }
                    return Err(e);
                },
            }
            proof {
                k2 = k2 + 1;
            }
        }
        proof {
            assert forall|d: int| 0 <= d < decls.len() implies self.table@[base + d].0@
                == qualified(name@, decls[d]) by {
                if d < nc {
                    assert(self.table@[base + d].0@ == qualified(name@, circuits0[d].identifier@));
                } else {
                    assert(self.table@[base + d].0@ == qualified(
                        name@,
                        functions0[d - nc].identifier@,
                    ));
                }
            }
            assert forall|i2: int, j2: int| 0 <= i2 < j2 < decls.len() implies decls[i2]
                != decls[j2] by {
                if decls[i2] == decls[j2] {
                    assert(self.table@[base + i2].0@ == qualified(name@, decls[i2]));
                    assert(self.table@[base + j2].0@ == qualified(name@, decls[j2]));
                    assert(false);
                }
            }
            assert(decls.no_duplicates());
        }
        Ok(())
    }
}

/// The declared names of one program, circuits first, in declaration order.
pub open spec fn declaration_names(circuits: Seq<Circuit>, functions: Seq<Function>) -> Seq<
    Seq<char>,
> {
    circuits.map_values(|c: Circuit| c.identifier@) + functions.map_values(
        |f: Function| f.identifier@,
    )
}

/// Pairwise-distinct name views.
pub open spec fn views_distinct(v: Seq<String>) -> bool {
    forall|i: int, j: int| 0 <= i < j < v.len() ==> (#[trigger] v[i])@ != (#[trigger] v[j])@
}

/// A list of distinct names, all but the first drawn from the parser's
/// programs, can never outgrow the parser by more than that first name.
proof fn lemma_resolved_bound(v: Seq<String>, parser: ImportParser)
    requires
        v.len() >= 1,
        views_distinct(v),
        forall|i: int| 1 <= i < v.len() ==> parser.program_names().contains((#[trigger] v[i])@),
    ensures
        v.len() <= parser.programs@.len() + 1,
{
    let tail = v.skip(1).map_values(|s: String| s@);
    assert(tail.no_duplicates()) by {
        assert forall|i: int, j: int| 0 <= i < j < tail.len() implies tail[i] != tail[j] by {
            assert(v[i + 1]@ != v[j + 1]@);
        }
    }
    tail.unique_seq_to_set();
    assert(tail.to_set().subset_of(parser.program_names())) by {
        assert forall|x: Seq<char>| tail.to_set().contains(x) implies parser.program_names()
            .contains(x) by {
            let i = choose|i: int| 0 <= i < tail.len() && tail[i] == x;
            assert(parser.program_names().contains(v[i + 1]@));
        }
    }
    let names = parser.programs@.map_values(|pp: (String, Program)| pp.1.name@);
    names.lemma_cardinality_of_set();
    lemma_len_subset(tail.to_set(), parser.program_names());
}

impl ConstrainedProgram {
    /// Resolves one import declaration: obtains the imported program from the
    /// external import parser, recursively resolves that program's own
    /// imports, and then stores its declarations in the imported program's
    /// own namespace.  A revisited program name on the active import chain is
    /// a cycle; one that was already fully resolved is a duplicate.
    #[verifier::loop_isolation(false)]
    fn resolve_import(
        &mut self,
        path: &String,
        parser: &ImportParser,
        resolved: &mut Vec<String>,
        stack: &mut Vec<String>,
    ) -> (r: Result<(), CompilerError>)
        requires
            old(self).wf(),
            parser.wf(),
            old(resolved)@.len() >= 1,
            views_distinct(old(resolved)@),
            forall|i: int|
                1 <= i < old(resolved)@.len() ==> parser.program_names().contains(
                    (#[trigger] old(resolved)@[i])@,
                ),
            nonroot_attributed(old(self).table@, old(resolved)@[0]@),
        ensures
            final(self).wf(),
            match r {
                Ok(()) => {
                    &&& parser.contains_path(path@)
                    &&& final(self).table@.len() >= old(self).table@.len()
                    &&& forall|j: int|
                        0 <= j < old(self).table@.len()
                            ==> (#[trigger] final(self).table@[j]) == old(self).table@[j]
                    &&& final(resolved)@.len() >= old(resolved)@.len()
                    &&& forall|j: int|
                        0 <= j < old(resolved)@.len()
                            ==> (#[trigger] final(resolved)@[j]) == old(resolved)@[j]
                    &&& views_distinct(final(resolved)@)
                    &&& forall|i: int|
                        1 <= i < final(resolved)@.len() ==> parser.program_names().contains(
                            (#[trigger] final(resolved)@[i])@,
                        )
                    &&& final(stack)@ == old(stack)@
                    &&& nonroot_attributed(final(self).table@, old(resolved)@[0]@)
                    &&& (parser_assertion_free(*parser) && table_assertion_free(
                        old(self).table@,
                    )) ==> table_assertion_free(final(self).table@)
                    &&& forall|k: int|
                        #![trigger parser.program_at(path@).functions@[k]]
                        0 <= k < parser.program_at(path@).functions@.len()
                            ==> final(self).contains_key(
                            qualified(
                                parser.program_at(path@).name@,
                                parser.program_at(path@).functions@[k].identifier@,
                            ),
                        )
                },
                Err(e) => e.is_resolution_error(),
            },
            !parser.contains_path(path@) ==> (r matches Err(e) && e is UnresolvedImport),
        decreases parser.programs@.len() + 1 - old(resolved)@.len(),
    {
        let prog = match parser.resolve(path) {
            Some(p) => p,
            None => {
                return Err(CompilerError::UnresolvedImport(path.clone()));
            },
        };
        proof {
            assert(parser.contains_path(path@));
        }
        if contains_string(stack, &prog.name) {
            return Err(CompilerError::CyclicCallGraph(prog.name.clone()));
        }
        if contains_string(resolved, &prog.name) {
            return Err(CompilerError::DuplicateDefinition(prog.name.clone()));
        }
        proof {
            lemma_resolved_bound(resolved@, *parser);
        }
        let ghost root = resolved@[0]@;
        let ghost resolved_pre = resolved@;
        resolved.push(prog.name.clone());
        stack.push(prog.name.clone());
        proof {
            assert(prog.name@ != root);
            assert(parser.program_names().contains(prog.name@)) by {
                let i = choose|i: int|
                    0 <= i < parser.programs@.len() && (#[trigger] parser.programs@[i]).0@ == path@
                        && parser.programs@[i].1 == *prog;
                let names = parser.programs@.map_values(|pp: (String, Program)| pp.1.name@);
                assert(names[i] == prog.name@);
                assert(names.contains(prog.name@));
            }
            lemma_resolved_bound(resolved@, *parser);
        }
        let ghost stack_pre = old(stack)@;
        let n_imports = prog.imports.len();
        let mut i: usize = 0;
        while i < n_imports
            invariant
                0 <= i <= n_imports,
                n_imports == prog.imports@.len(),
                self.wf(),
                resolved@.len() >= resolved_pre.len() + 1,
                forall|j: int|
                    0 <= j < resolved_pre.len() ==> (#[trigger] resolved@[j]) == resolved_pre[j],
                views_distinct(resolved@),
                forall|k: int|
                    1 <= k < resolved@.len() ==> parser.program_names().contains(
                        (#[trigger] resolved@[k])@,
                    ),
                stack@ == stack_pre.push(resolved@[resolved_pre.len() as int]),
                nonroot_attributed(self.table@, root),
                self.table@.len() >= old(self).table@.len(),
                forall|j: int|
                    0 <= j < old(self).table@.len()
                        ==> (#[trigger] self.table@[j]) == old(self).table@[j],
                (parser_assertion_free(*parser) && table_assertion_free(old(self).table@))
                    ==> table_assertion_free(self.table@),
            decreases n_imports - i,
        {
            proof {
                lemma_resolved_bound(resolved@, *parser);
            }
            match self.resolve_import(&prog.imports[i], parser, resolved, stack) {
                Ok(()) => {},
                Err(e) => {
                    return Err(e);
                },
            }
            i = i + 1;
        }
        let _ = stack.pop();
        proof {
            assert(stack@ =~= stack_pre);
        }
        let mut circuits: Vec<Circuit> = Vec::new();
        let nc = prog.circuits.len();
        let mut ci: usize = 0;
        while ci < nc
            invariant
                0 <= ci <= nc,
                nc == prog.circuits@.len(),
                circuits@.len() == ci,
                forall|j: int|
                    0 <= j < ci ==> (#[trigger] circuits@[j]).identifier@
                        == prog.circuits@[j].identifier@,
            decreases nc - ci,
        {
            let c = crate::copying::copy_circuit(&prog.circuits[ci]);
            circuits.push(c);
            ci = ci + 1;
        }
        let mut functions: Vec<Function> = Vec::new();
        let nf = prog.functions.len();
        let mut fi: usize = 0;
        while fi < nf
            invariant
                0 <= fi <= nf,
                nf == prog.functions@.len(),
                functions@.len() == fi,
                forall|j: int|
                    0 <= j < fi ==> (#[trigger] functions@[j]).identifier@
                        == prog.functions@[j].identifier@,
                program_assertion_free(*prog) ==> (forall|j: int|
                    0 <= j < fi ==> assertion_free((#[trigger] functions@[j]).body@)),
            decreases nf - fi,
        {
            let f = crate::copying::copy_function(&prog.functions[fi]);
            proof {
                if program_assertion_free(*prog) {
                    assert(assertion_free(prog.functions@[fi as int].body@));
                    assert forall|m: int| 0 <= m < f.body@.len() implies !((
                    #[trigger] f.body@[m]) is Assertion) by {
                        assert(!(prog.functions@[fi as int].body@[m] is Assertion));
                    }
                    assert(assertion_free(f.body@));
                }
            }
            functions.push(f);
            fi = fi + 1;
        }
        let ghost table_pre = self.table@;
        let r = self.store_program_declarations(&prog.name, circuits, functions);
        match r {
            Ok(()) => {
                proof {
                    assert forall|j: int| 0 <= j < self.table@.len() implies nonroot_key(
                        (#[trigger] self.table@[j]).0@,
                        root,
                    ) by {
                        if j < table_pre.len() {
                            assert(self.table@[j] == table_pre[j]);
                            assert(nonroot_key(table_pre[j].0@, root));
                        } else if j < table_pre.len() + circuits@.len() {
                            let n = circuits@[j - table_pre.len()].identifier@;
                            assert(is_valid_name(prog.name@) && is_valid_name(n)
                                && self.table@[j].0@ == qualified(prog.name@, n) && prog.name@
                                != root);
                            assert(nonroot_key(self.table@[j].0@, root));
                        } else {
                            let n = functions@[j - table_pre.len() - circuits@.len()].identifier@;
                            assert(is_valid_name(prog.name@) && is_valid_name(n)
                                && self.table@[j].0@ == qualified(prog.name@, n) && prog.name@
                                != root);
                            assert(nonroot_key(self.table@[j].0@, root));
                        }
                    }
                    assert(root == old(resolved)@[0]@);
                    assert(*prog == parser.program_at(path@));
                    assert forall|k: int|
                        #![trigger parser.program_at(path@).functions@[k]]
                        0 <= k < parser.program_at(path@).functions@.len()
                            implies self.contains_key(
                        qualified(
                            parser.program_at(path@).name@,
                            parser.program_at(path@).functions@[k].identifier@,
                        ),
                    ) by {
                        let idx = table_pre.len() + circuits@.len() + k;
                        assert(self.table@[idx].0@ == qualified(
                            prog.name@,
                            functions@[k].identifier@,
                        ));
                        assert(functions@[k].identifier@ == prog.functions@[k].identifier@);
                    }
                    if parser_assertion_free(*parser) && table_assertion_free(old(self).table@) {
                        let pi = choose|pi: int|
                            0 <= pi < parser.programs@.len() && (#[trigger] parser.programs@[pi]).0@
                                == path@ && parser.programs@[pi].1 == *prog;
                        assert(program_assertion_free(*prog));
                        assert forall|j: int|
                            0 <= j < self.table@.len() implies ((#[trigger] self.table@[j]).1
                            matches ConstrainedValue::Function(_, f2) ==> assertion_free(
                            f2.body@,
                        )) by {
                            if j < table_pre.len() {
                                assert(self.table@[j] == table_pre[j]);
                            } else if j < table_pre.len() + circuits@.len() {
                                assert(self.table@[j].1 == ConstrainedValue::CircuitDefinition(
                                    prog.name,
                                    circuits@[j - table_pre.len()],
                                ));
                            } else {
                                assert(self.table@[j].1 == ConstrainedValue::Function(
                                    prog.name,
                                    functions@[j - table_pre.len() - circuits@.len()],
                                ));
                                assert(assertion_free(
                                    functions@[j - table_pre.len() - circuits@.len()].body@,
                                ));
                            }
                        }
                        assert(table_assertion_free(self.table@));
                    }
                }
                Ok(())
            },
            Err(e) => Err(e),
        }
    }

    /// Builds the program-wide symbol table: every import is resolved,
    /// recursively and exhaustively, into its own namespace before the
    /// program's own declarations are stored under the program's name.
    #[verifier::loop_isolation(false)]
    pub fn store_definitions(&mut self, program: Program, parser: &ImportParser) -> (r: Result<
        (),
        CompilerError,
    >)
        requires
            old(self).wf(),
            old(self).table@.len() == 0,
            program.wf(),
            parser.wf(),
        ensures
            final(self).wf(),
            match r {
                Ok(()) => {
                    &&& forall|i: int|
                        #![trigger program.functions@[i]]
                        0 <= i < program.functions@.len() ==> exists|j: int|
                            0 <= j < final(self).table@.len()
                                && (#[trigger] final(self).table@[j]).0@
                                == qualified(program.name@, program.functions@[i].identifier@)
                                && final(self).table@[j].1 == ConstrainedValue::Function(
                                program.name,
                                program.functions@[i],
                            )
                    &&& forall|i: int|
                        #![trigger program.circuits@[i]]
                        0 <= i < program.circuits@.len() ==> exists|j: int|
                            0 <= j < final(self).table@.len()
                                && (#[trigger] final(self).table@[j]).0@
                                == qualified(program.name@, program.circuits@[i].identifier@)
                                && final(self).table@[j].1
                                == ConstrainedValue::CircuitDefinition(
                                program.name,
                                program.circuits@[i],
                            )
                    &&& forall|n: Seq<char>|
                        is_valid_name(n) && #[trigger] final(self).contains_key(
                            qualified(program.name@, n),
                        ) ==> seq_declares_function(program.functions@, n) || seq_declares_circuit(
                            program.circuits@,
                            n,
                        )
                    &&& forall|j: int, n: Seq<char>|
                        #![trigger final(self).table@[j], qualified(program.name@, n)]
                        0 <= j < final(self).table@.len() && is_valid_name(n)
                            && final(self).table@[j].0@ == qualified(program.name@, n)
                            && (final(self).table@[j].1 is Function)
                            ==> seq_declares_function(program.functions@, n)
                },
                Err(e) => e.is_resolution_error(),
            },
            (program_assertion_free(program) && parser_assertion_free(*parser)) ==> (r is Ok
                ==> table_assertion_free(final(self).table@)),
            (program.imports@.len() == 0 && declaration_names(
                program.circuits@,
                program.functions@,
            ).no_duplicates()) ==> r is Ok,
            r is Ok ==> declaration_names(program.circuits@, program.functions@).no_duplicates(),
            r is Ok ==> (forall|i: int|
                0 <= i < program.imports@.len() ==> parser.contains_path(
                    (#[trigger] program.imports@[i])@,
                )),
            r is Ok ==> (forall|i: int, k: int|
                #![trigger parser.program_at(program.imports@[i]@).functions@[k]]
                0 <= i < program.imports@.len() && 0 <= k < parser.program_at(
                    program.imports@[i]@,
                ).functions@.len() ==> final(self).contains_key(
                    qualified(
                        parser.program_at(program.imports@[i]@).name@,
                        parser.program_at(program.imports@[i]@).functions@[k].identifier@,
                    ),
                )),
            (program.imports@.len() >= 1 && !parser.contains_path(program.imports@[0]@)) ==> (r
                matches Err(e) && e is UnresolvedImport),
            program.imports@.len() == 0 ==> (r matches Err(e) ==> ((e matches
                CompilerError::DuplicateDefinition(_)) && !declaration_names(
                program.circuits@,
                program.functions@,
            ).no_duplicates())),
    {
        let Program { name, imports, circuits, functions, tests: _tests } = program;
        let mut resolved: Vec<String> = Vec::new();
        resolved.push(name.clone());
        let mut stack: Vec<String> = Vec::new();
        stack.push(name.clone());
        let ghost root = name@;
        let n_imports = imports.len();
        let mut i: usize = 0;
        while i < n_imports
            invariant
                0 <= i <= n_imports,
                n_imports == imports@.len(),
                self.wf(),
                n_imports == 0 ==> self.table@.len() == 0,
                resolved@.len() >= 1,
                resolved@[0]@ == root,
                views_distinct(resolved@),
                forall|k: int|
                    1 <= k < resolved@.len() ==> parser.program_names().contains(
                        (#[trigger] resolved@[k])@,
                    ),
                nonroot_attributed(self.table@, root),
                parser_assertion_free(*parser) ==> table_assertion_free(self.table@),
                forall|i2: int|
                    0 <= i2 < i ==> parser.contains_path((#[trigger] imports@[i2])@),
                forall|i2: int, k: int|
                    #![trigger parser.program_at(imports@[i2]@).functions@[k]]
                    0 <= i2 < i && 0 <= k < parser.program_at(imports@[i2]@).functions@.len()
                        ==> self.contains_key(
                        qualified(
                            parser.program_at(imports@[i2]@).name@,
                            parser.program_at(imports@[i2]@).functions@[k].identifier@,
                        ),
                    ),
            decreases n_imports - i,
        {
            let ghost pre_table = self.table@;
            match self.resolve_import(&imports[i], parser, &mut resolved, &mut stack) {
                Ok(()) => {},
                Err(e) => {
                    return Err(e);
                },
            }
            proof {
                assert forall|i2: int, k: int|
                    #![trigger parser.program_at(imports@[i2]@).functions@[k]]
                    0 <= i2 < i + 1 && 0 <= k < parser.program_at(imports@[i2]@).functions@.len()
                        implies self.contains_key(
                    qualified(
                        parser.program_at(imports@[i2]@).name@,
                        parser.program_at(imports@[i2]@).functions@[k].identifier@,
                    ),
                ) by {
                    if i2 < i {
                        let key = qualified(
                            parser.program_at(imports@[i2]@).name@,
                            parser.program_at(imports@[i2]@).functions@[k].identifier@,
                        );
                        let idx = choose|idx: int|
                            0 <= idx < pre_table.len() && (#[trigger] pre_table[idx]).0@ == key;
                        assert(self.table@[idx] == pre_table[idx]);
                    }
                }
            }
            i = i + 1;
        }
        let ghost table_mid = self.table@;
        let ghost nc = circuits@.len() as int;
        let ghost nf = functions@.len() as int;
        proof {
            if n_imports == 0 {
                assert(forall|j: int|
                    0 <= j < declaration_names(circuits@, functions@).len()
                        ==> !self.contains_key(
                        qualified(name@, #[trigger] declaration_names(circuits@, functions@)[j]),
                    ));
            }
        }
        let r = self.store_program_declarations(&name, circuits, functions);
        match r {
            Ok(()) => {
                proof {
                    assert(name == program.name);
                    let mid_len = table_mid.len() as int;
                    assert forall|i2: int| #![trigger program.functions@[i2]]
                        0 <= i2 < program.functions@.len() implies exists|j: int|
                        0 <= j < self.table@.len() && (#[trigger] self.table@[j]).0@ == qualified(
                            program.name@,
                            program.functions@[i2].identifier@,
                        ) && self.table@[j].1 == ConstrainedValue::Function(
                            program.name,
                            program.functions@[i2],
                        ) by {
                        let j = mid_len + nc + i2;
                        assert(self.table@[j].0@ == qualified(
                            program.name@,
                            program.functions@[i2].identifier@,
                        ));
                    }
                    assert forall|i2: int| #![trigger program.circuits@[i2]]
                        0 <= i2 < program.circuits@.len() implies exists|j: int|
                        0 <= j < self.table@.len() && (#[trigger] self.table@[j]).0@ == qualified(
                            program.name@,
                            program.circuits@[i2].identifier@,
                        ) && self.table@[j].1 == ConstrainedValue::CircuitDefinition(
                            program.name,
                            program.circuits@[i2],
                        ) by {
                        let j = mid_len + i2;
                        assert(self.table@[j].0@ == qualified(
                            program.name@,
                            program.circuits@[i2].identifier@,
                        ));
                    }
                    assert forall|n: Seq<char>|
                        is_valid_name(n) && #[trigger] self.contains_key(
                            qualified(root, n),
                        ) implies seq_declares_function(program.functions@, n)
                        || seq_declares_circuit(program.circuits@, n) by {
                        let j = choose|j: int|
                            0 <= j < self.table@.len() && (#[trigger] self.table@[j]).0@
                                == qualified(root, n);
                        if j < mid_len {
                            assert(self.table@[j] == table_mid[j]);
                            assert(nonroot_key(table_mid[j].0@, root));
                            let (p, m) = choose|p: Seq<char>, m: Seq<char>|
                                is_valid_name(p) && is_valid_name(m) && table_mid[j].0@
                                    == qualified(p, m) && p != root;
                            lemma_qualified_injective(p, m, root, n);
                            assert(false);
                        } else if j < mid_len + nc {
                            let m = program.circuits@[j - mid_len].identifier@;
                            lemma_qualified_injective(root, m, root, n);
                            assert(seq_declares_circuit(program.circuits@, n));
                        } else {
                            let m = program.functions@[j - mid_len - nc].identifier@;
                            lemma_qualified_injective(root, m, root, n);
                            assert(seq_declares_function(program.functions@, n));
                        }
                    }
                    assert forall|j: int, n: Seq<char>|
                        #![trigger self.table@[j], qualified(program.name@, n)]
                        0 <= j < self.table@.len() && is_valid_name(n) && self.table@[j].0@
                            == qualified(program.name@, n) && (self.table@[j].1 is Function)
                            implies seq_declares_function(program.functions@, n) by {
                        if j < mid_len {
                            assert(self.table@[j] == table_mid[j]);
                            assert(nonroot_key(table_mid[j].0@, root));
                            let (p, m) = choose|p: Seq<char>, m: Seq<char>|
                                is_valid_name(p) && is_valid_name(m) && table_mid[j].0@
                                    == qualified(p, m) && p != root;
                            lemma_qualified_injective(p, m, root, n);
                            assert(false);
                        } else if j < mid_len + nc {
                            assert(self.table@[j].1 == ConstrainedValue::CircuitDefinition(
                                program.name,
                                program.circuits@[j - mid_len],
                            ));
                            assert(false);
                        } else {
                            let m = program.functions@[j - mid_len - nc].identifier@;
                            lemma_qualified_injective(root, m, root, n);
                            assert(seq_declares_function(program.functions@, n));
                        }
                    }
                    if program_assertion_free(program) && parser_assertion_free(*parser) {
                        assert forall|j: int|
                            0 <= j < self.table@.len() implies ((#[trigger] self.table@[j]).1
                            matches ConstrainedValue::Function(_, f2) ==> assertion_free(
                            f2.body@,
                        )) by {
                            if j < mid_len {
                                assert(self.table@[j] == table_mid[j]);
                            } else if j < mid_len + nc {
                                assert(self.table@[j].1 == ConstrainedValue::CircuitDefinition(
                                    program.name,
                                    program.circuits@[j - mid_len],
                                ));
                            } else {
                                assert(self.table@[j].1 == ConstrainedValue::Function(
                                    program.name,
                                    program.functions@[j - mid_len - nc],
                                ));
                                assert(assertion_free(
                                    program.functions@[j - mid_len - nc].body@,
                                ));
                            }
                        }
                        assert(table_assertion_free(self.table@));
                    }
                }
                Ok(())
            },
            Err(e) => Err(e),
        }
    }
}

} // verus!
