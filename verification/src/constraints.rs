use vstd::prelude::*;
use vstd::string::StringExecFns;
use crate::ast::{ImportParser, Input, Program};
use crate::errors::CompilerError;
use crate::output::OutputBytes;
use crate::program::{
    assertion_free, declaration_names, declares_empty_main, main_name, parser_assertion_free,
    program_assertion_free, seq_declares_circuit, seq_declares_function, table_assertion_free,
    ConstrainedProgram,
};
use crate::eval::input_binds;
use crate::r1cs::ConstraintSystem;
use crate::scope::{is_valid_name, new_scope, qualified};
use crate::value::{width_bound, ConstrainedValue, IntValue};

verus! {

/// The record the test harness keeps for one embedded test: the test's
/// qualified name and either the satisfiability of its own constraint system
/// or the error its evaluation raised.
#[derive(Debug)]
pub struct TestOutcome {
    pub name: String,
    pub verdict: Result<bool, CompilerError>,
}

/// Whether the program's entry function takes no inputs and returns exactly
/// the given integer literal.
pub open spec fn declares_literal_main(program: Program, w: u32, v: u64) -> bool {
    exists|i: int|
        0 <= i < program.functions@.len() && (#[trigger] program.functions@[i]).identifier@
            == main_name() && program.functions@[i].parameters@.len() == 0
            && program.functions@[i].body@.len() == 1 && program.functions@[i].body@[0]
            == crate::ast::Statement::Return(crate::ast::Expression::IntLit(w, v))
            && program.functions@[i].return_type == Some(crate::ast::Type::IntegerType(w))
}

/// Whether the program declares an entry function with a parameter that the
/// input fixture does not bind by name.
pub open spec fn main_input_missing(program: Program, input: Input) -> bool {
    exists|i: int, k: int|
        0 <= i < program.functions@.len() && (#[trigger] program.functions@[i]).identifier@
            == main_name() && 0 <= k < program.functions@[i].parameters@.len() && !input_binds(
            input,
            (#[trigger] program.functions@[i].parameters@[k]).identifier@,
        )
}

/// Resolves all definitions of the program (imports included), looks up the
/// entry function under the program's own qualified `main` key, binds the
/// caller-supplied inputs and evaluates it, accumulating constraints into the
/// caller-owned system.  Satisfiability of that system is the caller's
/// concern; this function never checks it.
pub fn generate_constraints(
    cs: &mut ConstraintSystem,
    program: Program,
    input: Input,
    imported_programs: &ImportParser,
) -> (r: Result<OutputBytes, CompilerError>)
    requires
        old(cs).wf(),
        program.wf(),
        imported_programs.wf(),
    ensures
        crate::gadgets::cs_extended(*old(cs), *final(cs)),
        final(cs).satisfied() ==> old(cs).satisfied(),
        (program_assertion_free(program) && parser_assertion_free(*imported_programs))
            ==> (final(cs).satisfied() <==> old(cs).satisfied()),
        (r matches Err(e) && e is NoMain) ==> !program.declares_function(main_name()),
        (!program.declares_function(main_name()) && !program.declares_circuit(main_name()))
            ==> (r matches Err(e) && (e is NoMain || e.is_resolution_error())),
        r is Ok ==> program.declares_function(main_name()),
        (r matches Err(e) && !(e is TypeMismatch) && !(e is UnsupportedOperation) && !(e
            is CyclicCallGraph)) ==> *final(cs) == *old(cs),
        (!program.declares_function(main_name()) && !program.declares_circuit(main_name()) && !(r
            matches Err(e) && e.is_resolution_error())) ==> (r matches Err(e2) && e2 is NoMain),
        (!program.declares_function(main_name()) && program.declares_circuit(main_name()) && !(r
            matches Err(e) && e.is_resolution_error())) ==> (r matches Err(e2) && e2
            is NoMainFunction),
        (program.imports@.len() == 0 && declaration_names(
            program.circuits@,
            program.functions@,
        ).no_duplicates() && !program.declares_function(main_name())
            && !program.declares_circuit(main_name())) ==> (r matches Err(e) && e is NoMain),
        (program.imports@.len() == 0 && declaration_names(
            program.circuits@,
            program.functions@,
        ).no_duplicates() && !program.declares_function(main_name())
            && program.declares_circuit(main_name())) ==> (r matches Err(e) && e
            is NoMainFunction),
        (program.imports@.len() == 0 && !declaration_names(
            program.circuits@,
            program.functions@,
        ).no_duplicates()) ==> (r matches Err(e) && e is DuplicateDefinition),
        (program.imports@.len() >= 1 && !imported_programs.contains_path(program.imports@[0]@))
            ==> (r matches Err(e) && e is UnresolvedImport),
        !(r matches Err(e) && e.is_resolution_error()) ==> (forall|i: int|
            0 <= i < program.imports@.len() ==> imported_programs.contains_path(
                (#[trigger] program.imports@[i])@,
            )),
        (program.imports@.len() == 0 && declaration_names(
            program.circuits@,
            program.functions@,
        ).no_duplicates() && declares_empty_main(program)) ==> r is Ok,
        (program.imports@.len() == 0 && declaration_names(
            program.circuits@,
            program.functions@,
        ).no_duplicates() && main_input_missing(program, input)) ==> (r matches Err(e) && e
            is TypeMismatch),
        forall|w: u32, v: u64|
            (program.imports@.len() == 0 && declaration_names(
                program.circuits@,
                program.functions@,
            ).no_duplicates() && #[trigger] declares_literal_main(program, w, v) && (w == 8 || w
                == 16 || w == 32) && (v as int) < width_bound(w)) ==> (r matches Ok(ob)
                && ob.bytes@ == crate::output::value_bytes(
                ConstrainedValue::Integer(IntValue { width: w, value: v, variable: None }),
            )),
{
    let mut resolved_program = ConstrainedProgram::new();
    let program_name = program.get_name().clone();
    let main_label: String = <String as StringExecFns>::from_str("main");
    let main_function_name = new_scope(program_name.clone(), main_label);
    proof {
        reveal_strlit("main");
        assert(is_valid_name(main_name()));
    }
    match resolved_program.store_definitions(program, imported_programs) {
        Ok(()) => {},
        Err(e) => {
            return Err(e);
        },
    }
    let main_symbol = match resolved_program.get(&main_function_name) {
        Some(v) => v,
        None => {
            proof {
                if program.declares_function(main_name()) {
                    let i = choose|i: int|
                        0 <= i < program.functions@.len() && (#[trigger] program.functions@[i])
                            .identifier@ == main_name();
                    assert(resolved_program.contains_key(
                        qualified(program.name@, program.functions@[i].identifier@),
                    ));
                }
                if program.declares_circuit(main_name()) {
                    let i = choose|i: int|
                        0 <= i < program.circuits@.len() && (#[trigger] program.circuits@[i])
                            .identifier@ == main_name();
                    assert(resolved_program.contains_key(
                        qualified(program.name@, program.circuits@[i].identifier@),
                    ));
                }
            }
            return Err(CompilerError::NoMain);
        },
    };
    proof {
        assert(resolved_program.contains_key(qualified(program.name@, main_name())));
        assert(program.declares_function(main_name()) || program.declares_circuit(main_name()));
    }
    match main_symbol {
        ConstrainedValue::Function(_defining_scope, function) => {
            proof {
                let i = choose|i: int|
                    0 <= i < resolved_program.table@.len()
                        && (#[trigger] resolved_program.table@[i]).0@ == main_function_name@
                        && resolved_program.table@[i].1 == *main_symbol;
                assert(seq_declares_function(program.functions@, main_name()));
                assert(program.declares_function(main_name()));
                if program_assertion_free(program) && parser_assertion_free(*imported_programs) {
                    assert(table_assertion_free(resolved_program.table@));
                    assert(assertion_free(function.body@));
                }
                if program.imports@.len() == 0 && declaration_names(
                    program.circuits@,
                    program.functions@,
                ).no_duplicates() && main_input_missing(program, input) {
                    let (m, k) = choose|m: int, k: int|
                        0 <= m < program.functions@.len() && (#[trigger] program.functions@[m])
                            .identifier@ == main_name() && 0 <= k
                            < program.functions@[m].parameters@.len() && !input_binds(
                            input,
                            (#[trigger] program.functions@[m].parameters@[k]).identifier@,
                        );
                    let j = choose|j: int|
                        0 <= j < resolved_program.table@.len()
                            && (#[trigger] resolved_program.table@[j]).0@ == qualified(
                            program.name@,
                            program.functions@[m].identifier@,
                        ) && resolved_program.table@[j].1 == ConstrainedValue::Function(
                            program.name,
                            program.functions@[m],
                        );
                    assert(resolved_program.table@[j].0@ == main_function_name@);
                    if i != j {
                        assert(resolved_program.table@[i].0@ != resolved_program.table@[j].0@);
                        assert(false);
                    }
                    assert(*main_symbol == ConstrainedValue::Function(
                        program.name,
                        program.functions@[m],
                    ));
                    assert(!input_binds(input, function.parameters@[k].identifier@));
                }
                if declares_empty_main(program) {
                    let m = choose|m: int|
                        0 <= m < program.functions@.len() && (#[trigger] program.functions@[m])
                            .identifier@ == main_name() && program.functions@[m].parameters@.len()
                            == 0 && program.functions@[m].body@.len() == 0 && (
                        program.functions@[m].return_type is None);
                    let j = choose|j: int|
                        0 <= j < resolved_program.table@.len()
                            && (#[trigger] resolved_program.table@[j]).0@ == qualified(
                            program.name@,
                            program.functions@[m].identifier@,
                        ) && resolved_program.table@[j].1 == ConstrainedValue::Function(
                            program.name,
                            program.functions@[m],
                        );
                    assert(resolved_program.table@[j].0@ == main_function_name@);
                    if i != j {
                        assert(resolved_program.table@[i].0@ != resolved_program.table@[j].0@);
                        assert(false);
                    }
                    assert(*main_symbol == ConstrainedValue::Function(
                        program.name,
                        program.functions@[m],
                    ));
                    assert(function.parameters@.len() == 0 && function.body@.len() == 0 && (
                    function.return_type is None));
                }
            }
            let result = resolved_program.enforce_main_function(cs, &program_name, function, &input);
            proof {
                assert forall|w: u32, v: u64|
                    (program.imports@.len() == 0 && declaration_names(
                        program.circuits@,
                        program.functions@,
                    ).no_duplicates() && #[trigger] declares_literal_main(program, w, v) && (w == 8
                        || w == 16 || w == 32) && (v as int) < width_bound(w)) implies (result
                    matches Ok(ob) && ob.bytes@ == crate::output::value_bytes(
                    ConstrainedValue::Integer(IntValue { width: w, value: v, variable: None }),
                )) by {
                    let i = choose|i: int|
                        0 <= i < resolved_program.table@.len()
                            && (#[trigger] resolved_program.table@[i]).0@ == main_function_name@
                            && resolved_program.table@[i].1 == *main_symbol;
                    let m = choose|m: int|
                        0 <= m < program.functions@.len() && (#[trigger] program.functions@[m])
                            .identifier@ == main_name() && program.functions@[m].parameters@.len()
                            == 0 && program.functions@[m].body@.len() == 1
                            && program.functions@[m].body@[0] == crate::ast::Statement::Return(
                            crate::ast::Expression::IntLit(w, v),
                        ) && program.functions@[m].return_type == Some(
                            crate::ast::Type::IntegerType(w),
                        );
                    let j = choose|j: int|
                        0 <= j < resolved_program.table@.len()
                            && (#[trigger] resolved_program.table@[j]).0@ == qualified(
                            program.name@,
                            program.functions@[m].identifier@,
                        ) && resolved_program.table@[j].1 == ConstrainedValue::Function(
                            program.name,
                            program.functions@[m],
                        );
                    assert(resolved_program.table@[j].0@ == main_function_name@);
                    if i != j {
                        assert(resolved_program.table@[i].0@ != resolved_program.table@[j].0@);
                        assert(false);
                    }
                    assert(*main_symbol == ConstrainedValue::Function(
                        program.name,
                        program.functions@[m],
                    ));
                    assert(function.body@[0] == crate::ast::Statement::Return(
                        crate::ast::Expression::IntLit(w, v),
                    ));
                }
            }
            result
        },
        _ => {
            proof {
                assert forall|w: u32, v: u64|
                    (program.imports@.len() == 0 && declaration_names(
                        program.circuits@,
                        program.functions@,
                    ).no_duplicates() && #[trigger] declares_literal_main(program, w, v) && (w == 8
                        || w == 16 || w == 32) && (v as int) < width_bound(w)) implies false by {
                    let i = choose|i: int|
                        0 <= i < resolved_program.table@.len()
                            && (#[trigger] resolved_program.table@[i]).0@ == main_function_name@
                            && resolved_program.table@[i].1 == *main_symbol;
                    let m = choose|m: int|
                        0 <= m < program.functions@.len() && (#[trigger] program.functions@[m])
                            .identifier@ == main_name() && program.functions@[m].parameters@.len()
                            == 0 && program.functions@[m].body@.len() == 1
                            && program.functions@[m].body@[0] == crate::ast::Statement::Return(
                            crate::ast::Expression::IntLit(w, v),
                        ) && program.functions@[m].return_type == Some(
                            crate::ast::Type::IntegerType(w),
                        );
                    let j = choose|j: int|
                        0 <= j < resolved_program.table@.len()
                            && (#[trigger] resolved_program.table@[j]).0@ == qualified(
                            program.name@,
                            program.functions@[m].identifier@,
                        ) && resolved_program.table@[j].1 == ConstrainedValue::Function(
                            program.name,
                            program.functions@[m],
                        );
                    assert(resolved_program.table@[j].0@ == main_function_name@);
                    if i != j {
                        assert(resolved_program.table@[i].0@ != resolved_program.table@[j].0@);
                        assert(false);
                    }
                }
                if program.imports@.len() == 0 && declaration_names(
                    program.circuits@,
                    program.functions@,
                ).no_duplicates() && main_input_missing(program, input) {
                    let i = choose|i: int|
                        0 <= i < resolved_program.table@.len()
                            && (#[trigger] resolved_program.table@[i]).0@ == main_function_name@
                            && resolved_program.table@[i].1 == *main_symbol;
                    let (m, k) = choose|m: int, k: int|
                        0 <= m < program.functions@.len() && (#[trigger] program.functions@[m])
                            .identifier@ == main_name() && 0 <= k
                            < program.functions@[m].parameters@.len() && !input_binds(
                            input,
                            (#[trigger] program.functions@[m].parameters@[k]).identifier@,
                        );
                    let j = choose|j: int|
                        0 <= j < resolved_program.table@.len()
                            && (#[trigger] resolved_program.table@[j]).0@ == qualified(
                            program.name@,
                            program.functions@[m].identifier@,
                        ) && resolved_program.table@[j].1 == ConstrainedValue::Function(
                            program.name,
                            program.functions@[m],
                        );
                    assert(resolved_program.table@[j].0@ == main_function_name@);
                    if i != j {
                        assert(resolved_program.table@[i].0@ != resolved_program.table@[j].0@);
                        assert(false);
                    }
                    assert(false);
                }
                if declares_empty_main(program) {
                    let i = choose|i: int|
                        0 <= i < resolved_program.table@.len()
                            && (#[trigger] resolved_program.table@[i]).0@ == main_function_name@
                            && resolved_program.table@[i].1 == *main_symbol;
                    let m = choose|m: int|
                        0 <= m < program.functions@.len() && (#[trigger] program.functions@[m])
                            .identifier@ == main_name() && program.functions@[m].parameters@.len()
                            == 0 && program.functions@[m].body@.len() == 0 && (
                        program.functions@[m].return_type is None);
                    let j = choose|j: int|
                        0 <= j < resolved_program.table@.len()
                            && (#[trigger] resolved_program.table@[j]).0@ == qualified(
                            program.name@,
                            program.functions@[m].identifier@,
                        ) && resolved_program.table@[j].1 == ConstrainedValue::Function(
                            program.name,
                            program.functions@[m],
                        );
                    assert(resolved_program.table@[j].0@ == main_function_name@);
                    if i != j {
                        assert(resolved_program.table@[i].0@ != resolved_program.table@[j].0@);
                        assert(false);
                    }
                    assert(false);
                }
            }
            Err(CompilerError::NoMainFunction)
        },
    }
}

/// Runs every embedded test function of the program under its own fresh,
/// isolated constraint system, reusing the one shared input fixture for every
/// test.  A test's own failure or unsatisfied system is recorded in its
/// outcome and never aborts the harness: the only hard error is a failure of
/// the shared definition resolution that runs once before any test.
pub fn generate_test_constraints(
    program: Program,
    input: Input,
    imported_programs: &ImportParser,
) -> (r: Result<Vec<TestOutcome>, CompilerError>)
    requires
        program.wf(),
        imported_programs.wf(),
    ensures
        match r {
            Ok(outcomes) => {
                &&& outcomes@.len() == program.tests@.len()
                &&& forall|i: int|
                    0 <= i < outcomes@.len() ==> (#[trigger] outcomes@[i]).name@ == qualified(
                        program.name@,
                        program.tests@[i].0.identifier@,
                    )
                &&& forall|i: int|
                    0 <= i < outcomes@.len() ==> ((#[trigger] outcomes@[i]).verdict matches Err(e)
                        ==> ((e is TypeMismatch) || (e is UnsupportedOperation) || (e
                        is CyclicCallGraph)))
                &&& forall|i: int|
                    0 <= i < outcomes@.len() ==> ((program_assertion_free(program)
                        && parser_assertion_free(*imported_programs) && assertion_free(
                        (#[trigger] program.tests@[i]).0.body@,
                    )) ==> (outcomes@[i].verdict matches Ok(b) ==> b))
            },
            Err(e) => e.is_resolution_error(),
        },
        (program.imports@.len() == 0 && declaration_names(
            program.circuits@,
            program.functions@,
        ).no_duplicates()) ==> r is Ok,
        r is Ok ==> declaration_names(program.circuits@, program.functions@).no_duplicates(),
        r is Ok ==> (forall|i: int|
            0 <= i < program.imports@.len() ==> imported_programs.contains_path(
                (#[trigger] program.imports@[i])@,
            )),
        (program.imports@.len() == 0 && !declaration_names(
            program.circuits@,
            program.functions@,
        ).no_duplicates()) ==> (r matches Err(e) && e is DuplicateDefinition),
        (program.imports@.len() >= 1 && !imported_programs.contains_path(program.imports@[0]@))
            ==> (r matches Err(e) && e is UnresolvedImport),
{
    let Program { name, imports, circuits, functions, tests } = program;
    let resolvable = Program {
        name: name.clone(),
        imports,
        circuits,
        functions,
        tests: Vec::new(),
    };
    let mut resolved_program = ConstrainedProgram::new();
    match resolved_program.store_definitions(resolvable, imported_programs) {
        Ok(()) => {},
        Err(e) => {
            return Err(e);
        },
    }
    proof {
        if program_assertion_free(program) && parser_assertion_free(*imported_programs) {
            assert(table_assertion_free(resolved_program.table@));
        }
    }
    let n = tests.len();
    let mut outcomes: Vec<TestOutcome> = Vec::new();
    let mut i: usize = 0;
    while i < n
        invariant
            0 <= i <= n,
            n == tests@.len(),
            tests@ == program.tests@,
            name@ == program.name@,
            resolved_program.wf(),
            outcomes@.len() == i,
            forall|j: int|
                0 <= j < i ==> (#[trigger] outcomes@[j]).name@ == qualified(
                    program.name@,
                    program.tests@[j].0.identifier@,
                ),
            forall|j: int|
                0 <= j < i ==> ((#[trigger] outcomes@[j]).verdict matches Err(e) ==> ((e
                    is TypeMismatch) || (e is UnsupportedOperation) || (e is CyclicCallGraph))),
            (program_assertion_free(program) && parser_assertion_free(*imported_programs))
                ==> table_assertion_free(resolved_program.table@),
            forall|j: int|
                0 <= j < i ==> ((program_assertion_free(program) && parser_assertion_free(
                    *imported_programs,
                ) && assertion_free((#[trigger] program.tests@[j]).0.body@))
                    ==> (outcomes@[j].verdict matches Ok(b) ==> b)),
        decreases n - i,
    {
        let test = &tests[i];
        // Each test owns its own fresh constraint system: one test's
        // constraints can never leak into another's.
        let mut cs = ConstraintSystem::new();
        let full_test_name = new_scope(name.clone(), test.0.identifier.clone());
        let result = resolved_program.enforce_main_function(&mut cs, &name, &test.0, &input);
        proof {
            if program_assertion_free(program) && parser_assertion_free(*imported_programs)
                && assertion_free(program.tests@[i as int].0.body@) {
                assert(assertion_free(test.0.body@));
                assert(cs.satisfied());
            }
        }
        let verdict = match result {
            Ok(_) => Ok(cs.is_satisfied()),
            Err(e) => Err(e),
        };
        outcomes.push(TestOutcome { name: full_test_name, verdict });
        i = i + 1;
    }
    Ok(outcomes)
}

} // verus!
