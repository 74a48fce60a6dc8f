use constraint_synth::ast::{
    Circuit, Expression, Function, ImportParser, Input, InputEntry, InputValue, Parameter,
    Program, Statement, TestFunction, Type,
};
use constraint_synth::constraints::{generate_constraints, generate_test_constraints};
use constraint_synth::errors::CompilerError;
use constraint_synth::r1cs::{ConstraintSystem, Term, Visibility};
use constraint_synth::scope::new_scope;
use constraint_synth::value::{BoolValue, ConstrainedValue, FieldValue, IntValue};
use constraint_synth::output::OutputBytes;

fn empty_input() -> Input {
    Input { entries: Vec::new() }
}

fn no_imports() -> ImportParser {
    ImportParser { programs: Vec::new() }
}

fn simple_function(name: &str, ret: Option<Type>, body: Vec<Statement>) -> Function {
    Function {
        identifier: name.to_string(),
        parameters: Vec::new(),
        return_type: ret,
        body,
    }
}

fn program_named(name: &str, functions: Vec<Function>) -> Program {
    Program {
        name: name.to_string(),
        imports: Vec::new(),
        circuits: Vec::new(),
        functions,
        tests: Vec::new(),
    }
}

fn main_returning_five() -> Program {
    program_named(
        "demo",
        vec![simple_function(
            "main",
            Some(Type::IntegerType(32)),
            vec![Statement::Return(Expression::IntLit(32, 5))],
        )],
    )
}

#[test]
fn no_main_yields_no_main_error() {
    let program = program_named(
        "empty",
        vec![simple_function(
            "helper",
            Some(Type::FieldType),
            vec![Statement::Return(Expression::FieldLit(1))],
        )],
    );
    let mut cs = ConstraintSystem::new();
    let result = generate_constraints(&mut cs, program, empty_input(), &no_imports());
    assert!(matches!(result, Err(CompilerError::NoMain)));
}

#[test]
fn no_main_regardless_of_other_definitions() {
    let mut functions = Vec::new();
    for name in ["alpha", "beta", "gamma"] {
        functions.push(simple_function(
            name,
            Some(Type::BooleanType),
            vec![Statement::Return(Expression::BoolLit(true))],
        ));
    }
    let program = program_named("lots", functions);
    let mut cs = ConstraintSystem::new();
    let result = generate_constraints(&mut cs, program, empty_input(), &no_imports());
    assert!(matches!(result, Err(CompilerError::NoMain)));
}

#[test]
fn main_literal_five_decodes_and_satisfies() {
    let mut cs = ConstraintSystem::new();
    let result = generate_constraints(&mut cs, main_returning_five(), empty_input(), &no_imports());
    let output = result.expect("compilation succeeds");
    match output.decode() {
        Some(ConstrainedValue::Integer(n)) => {
            assert_eq!(n.width, 32);
            assert_eq!(n.value, 5);
            assert!(n.variable.is_none());
        }
        other => panic!("expected an integer output, got {:?}", other),
    }
    assert!(cs.is_satisfied());
}

#[test]
fn compile_main_is_deterministic() {
    let mut cs1 = ConstraintSystem::new();
    let out1 = generate_constraints(&mut cs1, main_returning_five(), empty_input(), &no_imports())
        .expect("first run succeeds");
    let mut cs2 = ConstraintSystem::new();
    let out2 = generate_constraints(&mut cs2, main_returning_five(), empty_input(), &no_imports())
        .expect("second run succeeds");
    assert_eq!(out1.bytes, out2.bytes);
    assert_eq!(cs1.num_variables(), cs2.num_variables());
    assert_eq!(cs1.num_constraints(), cs2.num_constraints());
}

#[test]
fn imported_helpers_do_not_collide() {
    // Program a imports program b; both declare `helper`; a's main calls
    // b's helper through the explicit scope.
    let helper_a = simple_function(
        "helper",
        Some(Type::FieldType),
        vec![Statement::Return(Expression::FieldLit(3))],
    );
    let main_a = simple_function(
        "main",
        Some(Type::FieldType),
        vec![Statement::Return(Expression::Call(
            Some("b".to_string()),
            "helper".to_string(),
            Vec::new(),
        ))],
    );
    let mut root = program_named("a", vec![helper_a, main_a]);
    root.imports.push("b_path".to_string());
    let helper_b = simple_function(
        "helper",
        Some(Type::FieldType),
        vec![Statement::Return(Expression::FieldLit(7))],
    );
    let imported = program_named("b", vec![helper_b]);
    let parser = ImportParser { programs: vec![("b_path".to_string(), imported)] };
    let mut cs = ConstraintSystem::new();
    let result = generate_constraints(&mut cs, root, empty_input(), &parser);
    let output = result.expect("cross-program call resolves");
    match output.decode() {
        Some(ConstrainedValue::FieldElement(f)) => assert_eq!(f.value, 7),
        other => panic!("expected a field output, got {:?}", other),
    }
}

#[test]
fn two_tests_one_unsatisfied_both_reported() {
    let test_true = TestFunction(simple_function(
        "test_passes",
        None,
        vec![Statement::Assertion(Expression::Equal(
            Box::new(Expression::BoolLit(true)),
            Box::new(Expression::BoolLit(true)),
        ))],
    ));
    let test_false = TestFunction(simple_function(
        "test_fails",
        None,
        vec![Statement::Assertion(Expression::Equal(
            Box::new(Expression::BoolLit(true)),
            Box::new(Expression::BoolLit(false)),
        ))],
    ));
    let mut program = program_named("suite", Vec::new());
    program.tests.push(test_true);
    program.tests.push(test_false);
    let outcomes = generate_test_constraints(program, empty_input(), &no_imports())
        .expect("per-test failures never abort the harness");
    assert_eq!(outcomes.len(), 2);
    assert_eq!(outcomes[0].name, "suite:test_passes");
    assert_eq!(outcomes[0].verdict, Ok(true));
    assert_eq!(outcomes[1].name, "suite:test_fails");
    assert_eq!(outcomes[1].verdict, Ok(false));
}

#[test]
fn unsatisfiable_test_does_not_change_its_successor() {
    // Same suite with the failing test first: the second test's outcome is
    // unchanged because every test owns a fresh constraint system.
    let test_false = TestFunction(simple_function(
        "test_fails",
        None,
        vec![Statement::Assertion(Expression::BoolLit(false))],
    ));
    let test_true = TestFunction(simple_function(
        "test_passes",
        None,
        vec![Statement::Assertion(Expression::BoolLit(true))],
    ));
    let mut program = program_named("suite", Vec::new());
    program.tests.push(test_false);
    program.tests.push(test_true);
    let outcomes = generate_test_constraints(program, empty_input(), &no_imports())
        .expect("harness completes");
    assert_eq!(outcomes.len(), 2);
    assert_eq!(outcomes[0].verdict, Ok(false));
    assert_eq!(outcomes[1].verdict, Ok(true));
}

#[test]
fn run_tests_errors_only_on_resolution_failure() {
    let mut program = program_named("broken", Vec::new());
    program.imports.push("missing".to_string());
    program.tests.push(TestFunction(simple_function(
        "test_anything",
        None,
        vec![Statement::Assertion(Expression::BoolLit(true))],
    )));
    let result = generate_test_constraints(program, empty_input(), &no_imports());
    assert!(matches!(result, Err(CompilerError::UnresolvedImport(_))));
}

#[test]
fn duplicate_definition_is_rejected() {
    let f1 = simple_function(
        "same",
        Some(Type::FieldType),
        vec![Statement::Return(Expression::FieldLit(1))],
    );
    let f2 = simple_function(
        "same",
        Some(Type::FieldType),
        vec![Statement::Return(Expression::FieldLit(2))],
    );
    let program = program_named("dup", vec![f1, f2]);
    let mut cs = ConstraintSystem::new();
    let result = generate_constraints(&mut cs, program, empty_input(), &no_imports());
    assert!(matches!(result, Err(CompilerError::DuplicateDefinition(_))));
}

#[test]
fn import_cycle_is_reported() {
    let mut root = program_named(
        "a",
        vec![simple_function(
            "main",
            None,
            vec![],
        )],
    );
    root.imports.push("pb".to_string());
    let mut prog_b = program_named("b", Vec::new());
    prog_b.imports.push("pa".to_string());
    let prog_a_again = {
        let mut p = program_named("a", Vec::new());
        p.imports.push("pb".to_string());
        p
    };
    let parser = ImportParser {
        programs: vec![("pb".to_string(), prog_b), ("pa".to_string(), prog_a_again)],
    };
    let mut cs = ConstraintSystem::new();
    let result = generate_constraints(&mut cs, root, empty_input(), &parser);
    assert!(matches!(result, Err(CompilerError::CyclicCallGraph(_))));
}

#[test]
fn cyclic_call_graph_is_reported() {
    let main = Function {
        identifier: "main".to_string(),
        parameters: Vec::new(),
        return_type: Some(Type::FieldType),
        body: vec![Statement::Return(Expression::Call(
            None,
            "main".to_string(),
            Vec::new(),
        ))],
    };
    let program = program_named("loopy", vec![main]);
    let mut cs = ConstraintSystem::new();
    let result = generate_constraints(&mut cs, program, empty_input(), &no_imports());
    assert!(matches!(result, Err(CompilerError::CyclicCallGraph(_))));
}

#[test]
fn circuit_symbol_under_main_is_no_main_function() {
    let mut program = program_named("shape", Vec::new());
    program.circuits.push(Circuit {
        identifier: "main".to_string(),
        members: Vec::new(),
    });
    let mut cs = ConstraintSystem::new();
    let result = generate_constraints(&mut cs, program, empty_input(), &no_imports());
    assert!(matches!(result, Err(CompilerError::NoMainFunction)));
}

#[test]
fn missing_input_is_a_type_mismatch() {
    let main = Function {
        identifier: "main".to_string(),
        parameters: vec![Parameter { identifier: "x".to_string(), ty: Type::FieldType }],
        return_type: Some(Type::FieldType),
        body: vec![Statement::Return(Expression::Ident("x".to_string()))],
    };
    let program = program_named("needs_input", vec![main]);
    let mut cs = ConstraintSystem::new();
    let result = generate_constraints(&mut cs, program, empty_input(), &no_imports());
    assert!(matches!(result, Err(CompilerError::TypeMismatch(_))));
}

#[test]
fn mistyped_input_is_a_type_mismatch() {
    let main = Function {
        identifier: "main".to_string(),
        parameters: vec![Parameter { identifier: "x".to_string(), ty: Type::FieldType }],
        return_type: Some(Type::FieldType),
        body: vec![Statement::Return(Expression::Ident("x".to_string()))],
    };
    let program = program_named("mistyped", vec![main]);
    let input = Input {
        entries: vec![InputEntry {
            name: "x".to_string(),
            visibility: Visibility::Public,
            value: InputValue::Boolean(true),
        }],
    };
    let mut cs = ConstraintSystem::new();
    let result = generate_constraints(&mut cs, program, input, &no_imports());
    assert!(matches!(result, Err(CompilerError::TypeMismatch(_))));
}

#[test]
fn integer_overflow_is_unsupported() {
    let main = simple_function(
        "main",
        Some(Type::IntegerType(8)),
        vec![Statement::Return(Expression::Add(
            Box::new(Expression::IntLit(8, 200)),
            Box::new(Expression::IntLit(8, 100)),
        ))],
    );
    let program = program_named("overflow", vec![main]);
    let mut cs = ConstraintSystem::new();
    let result = generate_constraints(&mut cs, program, empty_input(), &no_imports());
    assert!(matches!(result, Err(CompilerError::UnsupportedOperation(_))));
}

#[test]
fn input_bound_arithmetic_emits_satisfied_constraints() {
    // main(x: field) -> field { return x + 41 }
    let main = Function {
        identifier: "main".to_string(),
        parameters: vec![Parameter { identifier: "x".to_string(), ty: Type::FieldType }],
        return_type: Some(Type::FieldType),
        body: vec![Statement::Return(Expression::Add(
            Box::new(Expression::Ident("x".to_string())),
            Box::new(Expression::FieldLit(41)),
        ))],
    };
    let program = program_named("adder", vec![main]);
    let input = Input {
        entries: vec![InputEntry {
            name: "x".to_string(),
            visibility: Visibility::Private,
            value: InputValue::Field(1),
        }],
    };
    let mut cs = ConstraintSystem::new();
    let before = cs.num_variables();
    let output = generate_constraints(&mut cs, program, input, &no_imports())
        .expect("compiles");
    assert!(cs.num_variables() > before);
    assert!(cs.num_constraints() > 0);
    assert!(cs.is_satisfied());
    match output.decode() {
        Some(ConstrainedValue::FieldElement(f)) => assert_eq!(f.value, 42),
        other => panic!("expected a field output, got {:?}", other),
    }
}

#[test]
fn conditional_on_input_selects_either_arm() {
    for (flag, expected) in [(true, 3u64), (false, 4u64)] {
        let main = Function {
            identifier: "main".to_string(),
            parameters: vec![Parameter { identifier: "b".to_string(), ty: Type::BooleanType }],
            return_type: Some(Type::FieldType),
            body: vec![Statement::Return(Expression::Conditional(
                Box::new(Expression::Ident("b".to_string())),
                Box::new(Expression::FieldLit(3)),
                Box::new(Expression::FieldLit(4)),
            ))],
        };
        let program = program_named("chooser", vec![main]);
        let input = Input {
            entries: vec![InputEntry {
                name: "b".to_string(),
                visibility: Visibility::Private,
                value: InputValue::Boolean(flag),
            }],
        };
        let mut cs = ConstraintSystem::new();
        let output = generate_constraints(&mut cs, program, input, &no_imports())
            .expect("compiles");
        assert!(cs.is_satisfied());
        match output.decode() {
            Some(ConstrainedValue::FieldElement(f)) => assert_eq!(f.value, expected),
            other => panic!("expected a field output, got {:?}", other),
        }
    }
}

#[test]
fn circuit_member_access_returns_the_member() {
    let mut program = program_named(
        "shapes",
        vec![simple_function(
            "main",
            Some(Type::FieldType),
            vec![Statement::Return(Expression::Member(
                Box::new(Expression::CircuitInit(
                    "Point".to_string(),
                    vec![("x".to_string(), Expression::FieldLit(9))],
                )),
                "x".to_string(),
            ))],
        )],
    );
    program.circuits.push(Circuit {
        identifier: "Point".to_string(),
        members: vec![Parameter { identifier: "x".to_string(), ty: Type::FieldType }],
    });
    let mut cs = ConstraintSystem::new();
    let output = generate_constraints(&mut cs, program, empty_input(), &no_imports())
        .expect("compiles");
    match output.decode() {
        Some(ConstrainedValue::FieldElement(f)) => assert_eq!(f.value, 9),
        other => panic!("expected a field output, got {:?}", other),
    }
}

#[test]
fn new_scope_concatenates_with_separator() {
    assert_eq!(new_scope("a".to_string(), "b".to_string()), "a:b");
    assert_eq!(new_scope("outer".to_string(), "inner".to_string()), "outer:inner");
}

#[test]
fn output_bytes_round_trip_composites() {
    let value = ConstrainedValue::Tuple(vec![
        ConstrainedValue::Boolean(BoolValue { value: true, variable: None }),
        ConstrainedValue::Array(vec![
            ConstrainedValue::Integer(IntValue { width: 16, value: 515, variable: None }),
            ConstrainedValue::Integer(IntValue { width: 16, value: 0, variable: None }),
        ]),
        ConstrainedValue::FieldElement(FieldValue { value: 77, variable: None }),
    ]);
    let encoded = OutputBytes::encode(&value).expect("encodable");
    match encoded.decode() {
        Some(ConstrainedValue::Tuple(items)) => {
            assert_eq!(items.len(), 3);
            assert!(matches!(
                items[0],
                ConstrainedValue::Boolean(BoolValue { value: true, variable: None })
            ));
            match &items[1] {
                ConstrainedValue::Array(elements) => {
                    assert_eq!(elements.len(), 2);
                    assert!(matches!(
                        elements[0],
                        ConstrainedValue::Integer(IntValue { width: 16, value: 515, variable: None })
                    ));
                }
                other => panic!("expected an array, got {:?}", other),
            }
            assert!(matches!(
                items[2],
                ConstrainedValue::FieldElement(FieldValue { value: 77, variable: None })
            ));
        }
        other => panic!("expected a tuple, got {:?}", other),
    }
}

#[test]
fn direct_constraint_system_detects_unsatisfiable() {
    let mut cs = ConstraintSystem::new();
    assert!(cs.is_satisfied());
    // 1 * 1 = 0 can never hold.
    cs.enforce(
        vec![Term { coeff: 1, var: 0 }],
        vec![Term { coeff: 1, var: 0 }],
        Vec::new(),
    );
    assert!(!cs.is_satisfied());
}

#[test]
fn empty_test_suite_yields_no_outcomes() {
    let program = program_named("quiet", Vec::new());
    let outcomes = generate_test_constraints(program, empty_input(), &no_imports())
        .expect("an empty suite resolves");
    assert_eq!(outcomes.len(), 0);
}

#[test]
fn group_input_passes_through() {
    let main = Function {
        identifier: "main".to_string(),
        parameters: vec![Parameter { identifier: "g".to_string(), ty: Type::GroupType }],
        return_type: Some(Type::GroupType),
        body: vec![Statement::Return(Expression::Ident("g".to_string()))],
    };
    let program = program_named("points", vec![main]);
    let input = Input {
        entries: vec![InputEntry {
            name: "g".to_string(),
            visibility: Visibility::Public,
            value: InputValue::Group(11, 13),
        }],
    };
    let mut cs = ConstraintSystem::new();
    let output = generate_constraints(&mut cs, program, input, &no_imports()).expect("compiles");
    assert!(cs.is_satisfied());
    match output.decode() {
        Some(ConstrainedValue::Group(g)) => {
            assert_eq!(g.x.value, 11);
            assert_eq!(g.y.value, 13);
        }
        other => panic!("expected a group output, got {:?}", other),
    }
}

#[test]
fn error_messages_name_the_error_and_payload() {
    assert_eq!(CompilerError::NoMain.message(), "program has no main function");
    assert_eq!(
        CompilerError::DuplicateDefinition("p:f".to_string()).message(),
        "duplicate definition: p:f"
    );
    assert_eq!(
        CompilerError::CyclicCallGraph("p:main".to_string()).message(),
        "cyclic call graph at: p:main"
    );
}

#[test]
fn type_mismatch_reports_the_offending_kind() {
    // A field element where the conditional wants a boolean condition.
    let main = simple_function(
        "main",
        Some(Type::FieldType),
        vec![Statement::Return(Expression::Conditional(
            Box::new(Expression::FieldLit(1)),
            Box::new(Expression::FieldLit(2)),
            Box::new(Expression::FieldLit(3)),
        ))],
    );
    let program = program_named("badcond", vec![main]);
    let mut cs = ConstraintSystem::new();
    match generate_constraints(&mut cs, program, empty_input(), &no_imports()) {
        Err(CompilerError::TypeMismatch(kind)) => assert_eq!(kind, "field element"),
        other => panic!("expected a type mismatch, got {:?}", other),
    }
}

#[test]
fn bound_field_equality_emits_constraints() {
    for (x, expected) in [(5u64, true), (6u64, false)] {
        let main = Function {
            identifier: "main".to_string(),
            parameters: vec![Parameter { identifier: "x".to_string(), ty: Type::FieldType }],
            return_type: Some(Type::BooleanType),
            body: vec![Statement::Return(Expression::Equal(
                Box::new(Expression::Ident("x".to_string())),
                Box::new(Expression::FieldLit(5)),
            ))],
        };
        let program = program_named("cmp", vec![main]);
        let input = Input {
            entries: vec![InputEntry {
                name: "x".to_string(),
                visibility: Visibility::Private,
                value: InputValue::Field(x),
            }],
        };
        let mut cs = ConstraintSystem::new();
        let output = generate_constraints(&mut cs, program, input, &no_imports())
            .expect("bound equality compiles");
        // The comparison emits real constraints over an inverse witness, and
        // the system stays satisfied whichever way the comparison went.
        assert!(cs.num_constraints() >= 2);
        assert!(cs.is_satisfied());
        match output.decode() {
            Some(ConstrainedValue::Boolean(b)) => assert_eq!(b.value, expected),
            other => panic!("expected a boolean output, got {:?}", other),
        }
    }
}

#[test]
fn asserted_bound_equality_decides_satisfiability() {
    for (x, expected_satisfied) in [(7u64, true), (8u64, false)] {
        let main = Function {
            identifier: "main".to_string(),
            parameters: vec![Parameter { identifier: "x".to_string(), ty: Type::FieldType }],
            return_type: Some(Type::BooleanType),
            body: vec![
                Statement::Assertion(Expression::Equal(
                    Box::new(Expression::Ident("x".to_string())),
                    Box::new(Expression::FieldLit(7)),
                )),
                Statement::Return(Expression::BoolLit(true)),
            ],
        };
        let program = program_named("checker", vec![main]);
        let input = Input {
            entries: vec![InputEntry {
                name: "x".to_string(),
                visibility: Visibility::Private,
                value: InputValue::Field(x),
            }],
        };
        let mut cs = ConstraintSystem::new();
        generate_constraints(&mut cs, program, input, &no_imports()).expect("compiles");
        assert_eq!(cs.is_satisfied(), expected_satisfied);
    }
}

#[test]
fn bound_integer_equality_compares_values() {
    let main = Function {
        identifier: "main".to_string(),
        parameters: vec![Parameter { identifier: "n".to_string(), ty: Type::IntegerType(16) }],
        return_type: Some(Type::BooleanType),
        body: vec![Statement::Return(Expression::Equal(
            Box::new(Expression::Ident("n".to_string())),
            Box::new(Expression::IntLit(16, 300)),
        ))],
    };
    let program = program_named("intcmp", vec![main]);
    let input = Input {
        entries: vec![InputEntry {
            name: "n".to_string(),
            visibility: Visibility::Public,
            value: InputValue::Integer(16, 300),
        }],
    };
    let mut cs = ConstraintSystem::new();
    let output = generate_constraints(&mut cs, program, input, &no_imports()).expect("compiles");
    assert!(cs.is_satisfied());
    match output.decode() {
        Some(ConstrainedValue::Boolean(b)) => assert!(b.value),
        other => panic!("expected a boolean output, got {:?}", other),
    }
}

#[test]
fn bound_group_equality_compares_both_coordinates() {
    for (gy, expected) in [(13u64, true), (14u64, false)] {
        let main = Function {
            identifier: "main".to_string(),
            parameters: vec![
                Parameter { identifier: "g".to_string(), ty: Type::GroupType },
                Parameter { identifier: "h".to_string(), ty: Type::GroupType },
            ],
            return_type: Some(Type::BooleanType),
            body: vec![Statement::Return(Expression::Equal(
                Box::new(Expression::Ident("g".to_string())),
                Box::new(Expression::Ident("h".to_string())),
            ))],
        };
        let program = program_named("grpcmp", vec![main]);
        let input = Input {
            entries: vec![
                InputEntry {
                    name: "g".to_string(),
                    visibility: Visibility::Public,
                    value: InputValue::Group(11, 13),
                },
                InputEntry {
                    name: "h".to_string(),
                    visibility: Visibility::Public,
                    value: InputValue::Group(11, gy),
                },
            ],
        };
        let mut cs = ConstraintSystem::new();
        let output = generate_constraints(&mut cs, program, input, &no_imports())
            .expect("compiles");
        assert!(cs.is_satisfied());
        match output.decode() {
            Some(ConstrainedValue::Boolean(b)) => assert_eq!(b.value, expected),
            other => panic!("expected a boolean output, got {:?}", other),
        }
    }
}

#[test]
fn trivial_main_compiles_to_unit_output() {
    let main = Function {
        identifier: "main".to_string(),
        parameters: Vec::new(),
        return_type: None,
        body: Vec::new(),
    };
    let program = program_named("unit", vec![main]);
    let mut cs = ConstraintSystem::new();
    let output = generate_constraints(&mut cs, program, empty_input(), &no_imports())
        .expect("an entry with no inputs and an empty body always compiles");
    assert!(cs.is_satisfied());
    match output.decode() {
        Some(ConstrainedValue::Tuple(items)) => assert_eq!(items.len(), 0),
        other => panic!("expected the empty tuple, got {:?}", other),
    }
}
