use vstd::prelude::*;
use vstd::set_lib::lemma_len_subset;
use vstd::arithmetic::div_mod::lemma_small_mod;
use vstd::string::StringExecFns;
use crate::ast::{Expression, Function, Input, InputValue, Statement, Type};
use crate::errors::CompilerError;
use crate::field::{bool_to_field, fmul, field_reduce, FIELD_PRIME};
use crate::gadgets::{
    add_gadget, assert_gadget, binding_consistent, bool_eq_gadget, cs_extended, eq_gadget,
    mul_gadget, select_gadget,
};
use crate::program::{
    assertion_free, contains_string, table_assertion_free, ConstrainedProgram,
};
use crate::r1cs::ConstraintSystem;
use crate::scope::new_scope;
use crate::value::{
    check_value_type, is_data_value, kind_label, lemma_value_equal_ok, value_equal, value_ok,
    width_bound_exec, BoolValue, ConstrainedValue, FieldValue, IntValue,
};

verus! {

/// A short constant message for an error payload.
fn label(text: &str) -> String {
    <String as vstd::string::StringExecFns>::from_str(text)
}

/// A value's bindings all agree with the accumulated assignment: booleans are
/// encoded as 0 or 1, every other primitive as its own field representative.
pub open spec fn value_consistent(v: ConstrainedValue, asg: Seq<u64>) -> bool
    decreases v,
{
    match v {
        ConstrainedValue::Boolean(b) => binding_consistent(bool_to_field(b.value), b.variable, asg),
        ConstrainedValue::FieldElement(f) => binding_consistent(f.value, f.variable, asg),
        ConstrainedValue::Integer(n) => binding_consistent(n.value, n.variable, asg),
        ConstrainedValue::Group(g) => binding_consistent(g.x.value, g.x.variable, asg)
            && binding_consistent(g.y.value, g.y.variable, asg),
        ConstrainedValue::CircuitInstance(_, members) => forall|i: int|
            0 <= i < members@.len() ==> value_consistent((#[trigger] members@[i]).1, asg),
        ConstrainedValue::Array(elements) => forall|i: int|
            0 <= i < elements@.len() ==> value_consistent(#[trigger] elements@[i], asg),
        ConstrainedValue::Tuple(elements) => forall|i: int|
            0 <= i < elements@.len() ==> value_consistent(#[trigger] elements@[i], asg),
        _ => true,
    }
}

/// Consistency survives allocation: earlier assignments never change.
pub proof fn lemma_value_consistent_monotone(v: ConstrainedValue, asg1: Seq<u64>, asg2: Seq<u64>)
    requires
        value_consistent(v, asg1),
        asg1.len() <= asg2.len(),
        forall|i: int| 0 <= i < asg1.len() ==> asg1[i] == asg2[i],
    ensures
        value_consistent(v, asg2),
    decreases v,
{
    match v {
        ConstrainedValue::CircuitInstance(_, members) => {
            assert forall|i: int| 0 <= i < members@.len() implies value_consistent(
                (#[trigger] members@[i]).1,
                asg2,
            ) by {
                lemma_value_consistent_monotone(members@[i].1, asg1, asg2);
            }
        },
        ConstrainedValue::Array(elements) => {
            assert forall|i: int| 0 <= i < elements@.len() implies value_consistent(
                #[trigger] elements@[i],
                asg2,
            ) by {
                lemma_value_consistent_monotone(elements@[i], asg1, asg2);
            }
        },
        ConstrainedValue::Tuple(elements) => {
            assert forall|i: int| 0 <= i < elements@.len() implies value_consistent(
                #[trigger] elements@[i],
                asg2,
            ) by {
                lemma_value_consistent_monotone(elements@[i], asg1, asg2);
            }
        },
        _ => {},
    }
}

/// Equal data values agree with the same assignments.
pub proof fn lemma_value_equal_consistent(a: ConstrainedValue, b: ConstrainedValue, asg: Seq<u64>)
    requires
        value_equal(a, b),
        value_consistent(b, asg),
    ensures
        value_consistent(a, asg),
    decreases a,
{
    match (a, b) {
        (ConstrainedValue::CircuitInstance(_, m1), ConstrainedValue::CircuitInstance(_, m2)) => {
            assert forall|i: int| 0 <= i < m1@.len() implies value_consistent(
                (#[trigger] m1@[i]).1,
                asg,
            ) by {
                lemma_value_equal_consistent(m1@[i].1, m2@[i].1, asg);
            }
        },
        (ConstrainedValue::Array(e1), ConstrainedValue::Array(e2)) => {
            assert forall|i: int| 0 <= i < e1@.len() implies value_consistent(
                #[trigger] e1@[i],
                asg,
            ) by {
                lemma_value_equal_consistent(e1@[i], e2@[i], asg);
            }
        },
        (ConstrainedValue::Tuple(e1), ConstrainedValue::Tuple(e2)) => {
            assert forall|i: int| 0 <= i < e1@.len() implies value_consistent(
                #[trigger] e1@[i],
                asg,
            ) by {
                lemma_value_equal_consistent(e1@[i], e2@[i], asg);
            }
        },
        _ => {},
    }
}

/// The local environment: every bound value is a well-formed, consistent data
/// value.
pub open spec fn env_ok(
    env: Seq<(String, ConstrainedValue)>,
    nvars: nat,
    asg: Seq<u64>,
) -> bool {
    forall|i: int|
        0 <= i < env.len() ==> is_data_value((#[trigger] env[i]).1) && value_ok(env[i].1, nvars)
            && value_consistent(env[i].1, asg)
}

/// The whole environment survives allocation.
pub proof fn lemma_env_ok_monotone(
    env: Seq<(String, ConstrainedValue)>,
    pre: ConstraintSystem,
    post: ConstraintSystem,
)
    requires
        env_ok(env, pre.num_vars(), pre.assignments_view()),
        cs_extended(pre, post),
    ensures
        env_ok(env, post.num_vars(), post.assignments_view()),
{
    assert forall|i: int| 0 <= i < env.len() implies is_data_value((#[trigger] env[i]).1)
        && value_ok(env[i].1, post.num_vars()) && value_consistent(
        env[i].1,
        post.assignments_view(),
    ) by {
        crate::value::lemma_value_ok_monotone(env[i].1, pre.num_vars(), post.num_vars());
        lemma_value_consistent_monotone(env[i].1, pre.assignments_view(), post.assignments_view());
    }
}

/// Reads the innermost binding of a local name.
fn env_get<'a>(env: &'a Vec<(String, ConstrainedValue)>, name: &String) -> (r: Option<
    &'a ConstrainedValue,
>)
    ensures
        match r {
            Some(v) => exists|i: int|
                0 <= i < env@.len() && (#[trigger] env@[i]).0@ == name@ && env@[i].1 == *v,
            None => forall|i: int| 0 <= i < env@.len() ==> (#[trigger] env@[i]).0@ != name@,
        },
{
    let n = env.len();
    let mut i: usize = n;
    while i > 0
        invariant
            0 <= i <= n,
            n == env@.len(),
            forall|j: int| i <= j < n ==> (#[trigger] env@[j]).0@ != name@,
        decreases i,
    {
        i = i - 1;
        if env[i].0 == *name {
            return Some(&env[i].1);
        }
    }
    None
}

/// Whether the input fixture carries an assignment for the given parameter
/// name.
pub open spec fn input_binds(input: Input, name: Seq<char>) -> bool {
    exists|j: int|
        0 <= j < input.entries@.len() && (#[trigger] input.entries@[j]).name@ == name
}

/// The active call chain: distinct qualified keys, each present in the table,
/// so that the chain can never outgrow the table.
pub open spec fn stack_ok(stack: Seq<String>, prog: ConstrainedProgram) -> bool {
    &&& crate::program::views_distinct(stack)
    &&& forall|i: int| 0 <= i < stack.len() ==> prog.contains_key((#[trigger] stack[i])@)
}

/// A chain of distinct table keys is no longer than the table.
pub proof fn lemma_stack_bound(stack: Seq<String>, prog: ConstrainedProgram)
    requires
        prog.wf(),
        stack_ok(stack, prog),
    ensures
        stack.len() <= prog.table@.len(),
{
    let views = stack.map_values(|s: String| s@);
    assert(views.no_duplicates()) by {
        assert forall|i: int, j: int| 0 <= i < j < views.len() implies views[i] != views[j] by {
            assert(stack[i]@ != stack[j]@);
        }
    }
    views.unique_seq_to_set();
    let keys = prog.table@.map_values(|p: (String, ConstrainedValue)| p.0@);
    assert(views.to_set().subset_of(keys.to_set())) by {
        assert forall|x: Seq<char>| views.to_set().contains(x) implies keys.to_set().contains(
            x,
        ) by {
            let i = choose|i: int| 0 <= i < views.len() && views[i] == x;
            assert(prog.contains_key(stack[i]@));
            let j = choose|j: int|
                0 <= j < prog.table@.len() && (#[trigger] prog.table@[j]).0@ == x;
            assert(keys[j] == x);
            assert(keys.contains(x));
        }
    }
    keys.lemma_cardinality_of_set();
    lemma_len_subset(views.to_set(), keys.to_set());
}


/// Evaluates one expression against the symbol table, the local environment
/// and the constraint system, emitting constraints as a side effect.  Every
/// constraint emitted here holds of the witness the evaluator itself builds,
/// so satisfiability is never lost by evaluating an expression.
#[verifier::loop_isolation(false)]
#[verifier::rlimit(60)]
fn eval_expression(
    prog: &ConstrainedProgram,
    cs: &mut ConstraintSystem,
    env: &Vec<(String, ConstrainedValue)>,
    scope: &String,
    stack: &mut Vec<String>,
    e: &Expression,
) -> (r: Result<ConstrainedValue, CompilerError>)
    requires
        prog.wf(),
        old(cs).wf(),
        stack_ok(old(stack)@, *prog),
        env_ok(env@, old(cs).num_vars(), old(cs).assignments_view()),
    ensures
        cs_extended(*old(cs), *final(cs)),
        final(cs).satisfied() ==> old(cs).satisfied(),
        table_assertion_free(prog.table@) ==> (final(cs).satisfied() <==> old(cs).satisfied()),
        final(stack)@ == old(stack)@,
        forall|w: u32, v: u64|
            (*e == Expression::IntLit(w, v) && (w == 8 || w == 16 || w == 32) && (v as int)
                < crate::value::width_bound(w)) ==> r == Result::<
                ConstrainedValue,
                CompilerError,
            >::Ok(ConstrainedValue::Integer(IntValue { width: w, value: v, variable: None })),
        match r {
            Ok(v) => is_data_value(v) && value_ok(v, final(cs).num_vars()) && value_consistent(
                v,
                final(cs).assignments_view(),
            ),
            Err(e) => (e is TypeMismatch) || (e is UnsupportedOperation) || (e
                is CyclicCallGraph),
        },
    decreases prog.table@.len() - old(stack)@.len(), 0nat, *e,
{
    match e {
        Expression::BoolLit(b) => Ok(
            ConstrainedValue::Boolean(BoolValue { value: *b, variable: None }),
        ),
        Expression::IntLit(w, v) => {
            if !(*w == 8 || *w == 16 || *w == 32) {
                return Err(CompilerError::TypeMismatch(label("unsupported integer width")));
            }
            if *v >= width_bound_exec(*w) {
                return Err(CompilerError::TypeMismatch(label("integer literal exceeds its width")));
            }
            Ok(ConstrainedValue::Integer(IntValue { width: *w, value: *v, variable: None }))
        },
        Expression::FieldLit(v) => Ok(
            ConstrainedValue::FieldElement(FieldValue { value: field_reduce(*v), variable: None }),
        ),
        Expression::Ident(n) => {
            match env_get(env, n) {
                Some(v) => {
                    let copy = v.duplicate();
                    proof {
                        let i = choose|i: int|
                            0 <= i < env@.len() && (#[trigger] env@[i]).0@ == n@ && env@[i].1
                                == *v;
                        lemma_value_equal_ok(copy, *v, cs.num_vars());
                        lemma_value_equal_consistent(copy, *v, cs.assignments_view());
                    }
                    Ok(copy)
                },
                None => Err(CompilerError::TypeMismatch(n.clone())),
            }
        },
        Expression::Add(a, b) => {
            proof {
                assert(decreases_to!(*e => **a));
                assert(decreases_to!(*e => **b));
            }
            let va = match eval_expression(prog, cs, env, scope, stack, a) {
                Ok(v) => v,
                Err(err) => {
                    return Err(err);
                },
            };
            proof {
                lemma_env_ok_monotone(env@, *old(cs), *cs);
            }
            let ghost cs_mid = *cs;
            let vb = match eval_expression(prog, cs, env, scope, stack, b) {
                Ok(v) => v,
                Err(err) => {
                    return Err(err);
                },
            };
            proof {
                crate::value::lemma_value_ok_monotone(va, cs_mid.num_vars(), cs.num_vars());
                lemma_value_consistent_monotone(
                    va,
                    cs_mid.assignments_view(),
                    cs.assignments_view(),
                );
            }
            match (va, vb) {
                (ConstrainedValue::FieldElement(fa), ConstrainedValue::FieldElement(fb)) => {
                    let (value, variable) = add_gadget(
                        cs,
                        fa.value,
                        fa.variable,
                        fb.value,
                        fb.variable,
                    );
                    Ok(ConstrainedValue::FieldElement(FieldValue { value, variable }))
                },
                (ConstrainedValue::Integer(na), ConstrainedValue::Integer(nb)) => {
                    if na.width != nb.width {
                        return Err(CompilerError::TypeMismatch(label("mixed integer widths")));
                    }
                    let bound = width_bound_exec(na.width);
                    let sum = na.value + nb.value;
                    if sum >= bound {
                        return Err(
                            CompilerError::UnsupportedOperation(label("integer sum overflows")),
                        );
                    }
                    proof {
                        lemma_small_mod(sum as nat, FIELD_PRIME as nat);
                    }
                    let (value, variable) = add_gadget(
                        cs,
                        na.value,
                        na.variable,
                        nb.value,
                        nb.variable,
                    );
                    Ok(ConstrainedValue::Integer(IntValue { width: na.width, value, variable }))
                },
                (other, _) => Err(CompilerError::TypeMismatch(kind_label(&other))),
            }
        },
        Expression::Mul(a, b) => {
            proof {
                assert(decreases_to!(*e => **a));
                assert(decreases_to!(*e => **b));
            }
            let va = match eval_expression(prog, cs, env, scope, stack, a) {
                Ok(v) => v,
                Err(err) => {
                    return Err(err);
                },
            };
            proof {
                lemma_env_ok_monotone(env@, *old(cs), *cs);
            }
            let ghost cs_mid = *cs;
            let vb = match eval_expression(prog, cs, env, scope, stack, b) {
                Ok(v) => v,
                Err(err) => {
                    return Err(err);
                },
            };
            proof {
                crate::value::lemma_value_ok_monotone(va, cs_mid.num_vars(), cs.num_vars());
                lemma_value_consistent_monotone(
                    va,
                    cs_mid.assignments_view(),
                    cs.assignments_view(),
                );
            }
            match (va, vb) {
                (ConstrainedValue::FieldElement(fa), ConstrainedValue::FieldElement(fb)) => {
                    let (value, variable) = mul_gadget(
                        cs,
                        fa.value,
                        fa.variable,
                        fb.value,
                        fb.variable,
                    );
                    Ok(ConstrainedValue::FieldElement(FieldValue { value, variable }))
                },
                (ConstrainedValue::Integer(na), ConstrainedValue::Integer(nb)) => {
                    if na.width != nb.width {
                        return Err(CompilerError::TypeMismatch(label("mixed integer widths")));
                    }
                    let bound = width_bound_exec(na.width);
                    proof {
                        assert((na.value as int) * (nb.value as int)
                            < 0x10000000000000000) by (nonlinear_arith)
                            requires
                                na.value < 0x100000000,
                                nb.value < 0x100000000,
                        ;
                    }
                    let product = na.value * nb.value;
                    if product >= bound {
                        return Err(
                            CompilerError::UnsupportedOperation(label("integer product overflows")),
                        );
                    }
                    proof {
                        lemma_small_mod(product as nat, FIELD_PRIME as nat);
                        vstd::arithmetic::div_mod::lemma_small_mod(
                            (fmul(na.value as int, nb.value as int)) as nat,
                            FIELD_PRIME as nat,
                        );
                    }
                    let (value, variable) = mul_gadget(
                        cs,
                        na.value,
                        na.variable,
                        nb.value,
                        nb.variable,
                    );
                    Ok(ConstrainedValue::Integer(IntValue { width: na.width, value, variable }))
                },
                (other, _) => Err(CompilerError::TypeMismatch(kind_label(&other))),
            }
        },
        Expression::Equal(a, b) => {
            proof {
                assert(decreases_to!(*e => **a));
                assert(decreases_to!(*e => **b));
            }
            let va = match eval_expression(prog, cs, env, scope, stack, a) {
                Ok(v) => v,
                Err(err) => {
                    return Err(err);
                },
            };
            proof {
                lemma_env_ok_monotone(env@, *old(cs), *cs);
            }
            let ghost cs_mid = *cs;
            let vb = match eval_expression(prog, cs, env, scope, stack, b) {
                Ok(v) => v,
                Err(err) => {
                    return Err(err);
                },
            };
            proof {
                crate::value::lemma_value_ok_monotone(va, cs_mid.num_vars(), cs.num_vars());
                lemma_value_consistent_monotone(
                    va,
                    cs_mid.assignments_view(),
                    cs.assignments_view(),
                );
            }
            match (va, vb) {
                (ConstrainedValue::Boolean(ba), ConstrainedValue::Boolean(bb)) => {
                    let (value, variable) = bool_eq_gadget(
                        cs,
                        ba.value,
                        ba.variable,
                        bb.value,
                        bb.variable,
                    );
                    Ok(ConstrainedValue::Boolean(BoolValue { value, variable }))
                },
                (ConstrainedValue::FieldElement(fa), ConstrainedValue::FieldElement(fb)) => {
                    match eq_gadget(cs, fa.value, fa.variable, fb.value, fb.variable) {
                        Ok((value, variable)) => Ok(
                            ConstrainedValue::Boolean(BoolValue { value, variable }),
                        ),
                        Err(err) => Err(err),
                    }
                },
                (ConstrainedValue::Integer(na), ConstrainedValue::Integer(nb)) => {
                    if na.width != nb.width {
                        return Err(CompilerError::TypeMismatch(label("mixed integer widths")));
                    }
                    match eq_gadget(cs, na.value, na.variable, nb.value, nb.variable) {
                        Ok((value, variable)) => Ok(
                            ConstrainedValue::Boolean(BoolValue { value, variable }),
                        ),
                        Err(err) => Err(err),
                    }
                },
                (ConstrainedValue::Group(ga), ConstrainedValue::Group(gb)) => {
                    let ghost cs_g = *cs;
                    let (bx, vx) = match eq_gadget(
                        cs,
                        ga.x.value,
                        ga.x.variable,
                        gb.x.value,
                        gb.x.variable,
                    ) {
                        Ok(r) => r,
                        Err(err) => {
                            return Err(err);
                        },
                    };
                    proof {
                        assert(binding_consistent(ga.y.value, ga.y.variable, cs.assignments_view()));
                        assert(binding_consistent(gb.y.value, gb.y.variable, cs.assignments_view()));
                    }
                    let ghost cs_gx = *cs;
                    let (by, vy) = match eq_gadget(
                        cs,
                        ga.y.value,
                        ga.y.variable,
                        gb.y.value,
                        gb.y.variable,
                    ) {
                        Ok(r) => r,
                        Err(err) => {
                            return Err(err);
                        },
                    };
                    proof {
                        assert(binding_consistent(
                            bool_to_field(bx),
                            vx,
                            cs.assignments_view(),
                        ));
                    }
                    // The conjunction of the two coordinate comparisons, as a
                    // product of their 0/1 encodings.
                    let (both, vboth) = mul_gadget(
                        cs,
                        if bx { 1 } else { 0 },
                        vx,
                        if by { 1 } else { 0 },
                        vy,
                    );
                    proof {
                        lemma_small_mod(bool_to_field(bx && by) as nat, FIELD_PRIME as nat);
                        assert(both == bool_to_field(bx && by));
                    }
                    Ok(
                        ConstrainedValue::Boolean(
                            BoolValue { value: bx && by, variable: vboth },
                        ),
                    )
                },
                (other, _) => Err(CompilerError::TypeMismatch(kind_label(&other))),
            }
        },
        Expression::Conditional(c, a, b) => {
            proof {
                assert(decreases_to!(*e => **c));
                assert(decreases_to!(*e => **a));
                assert(decreases_to!(*e => **b));
            }
            let vc = match eval_expression(prog, cs, env, scope, stack, c) {
                Ok(v) => v,
                Err(err) => {
                    return Err(err);
                },
            };
            let cond = match vc {
                ConstrainedValue::Boolean(bc) => bc,
                other => {
                    return Err(CompilerError::TypeMismatch(kind_label(&other)));
                },
            };
            proof {
                lemma_env_ok_monotone(env@, *old(cs), *cs);
            }
            if cond.variable.is_none() {
                // A compile-time condition selects its arm directly, without
                // allocating selection variables.
                if cond.value {
                    eval_expression(prog, cs, env, scope, stack, a)
                } else {
                    eval_expression(prog, cs, env, scope, stack, b)
                }
            } else {
                let va = match eval_expression(prog, cs, env, scope, stack, a) {
                    Ok(v) => v,
                    Err(err) => {
                        return Err(err);
                    },
                };
                proof {
                    lemma_env_ok_monotone(env@, *old(cs), *cs);
                }
                let ghost cs_mid2 = *cs;
                let vb = match eval_expression(prog, cs, env, scope, stack, b) {
                    Ok(v) => v,
                    Err(err) => {
                        return Err(err);
                    },
                };
                proof {
                    crate::value::lemma_value_ok_monotone(va, cs_mid2.num_vars(), cs.num_vars());
                    lemma_value_consistent_monotone(
                        va,
                        cs_mid2.assignments_view(),
                        cs.assignments_view(),
                    );
                }
                match (va, vb) {
                    (ConstrainedValue::Boolean(ba), ConstrainedValue::Boolean(bb)) => {
                        let (value, variable) = select_gadget(
                            cs,
                            cond.value,
                            cond.variable,
                            if ba.value { 1 } else { 0 },
                            ba.variable,
                            if bb.value { 1 } else { 0 },
                            bb.variable,
                        );
                        let picked = if cond.value { ba.value } else { bb.value };
                        Ok(ConstrainedValue::Boolean(BoolValue { value: picked, variable }))
                    },
                    (
                        ConstrainedValue::FieldElement(fa),
                        ConstrainedValue::FieldElement(fb),
                    ) => {
                        let (value, variable) = select_gadget(
                            cs,
                            cond.value,
                            cond.variable,
                            fa.value,
                            fa.variable,
                            fb.value,
                            fb.variable,
                        );
                        Ok(ConstrainedValue::FieldElement(FieldValue { value, variable }))
                    },
                    (ConstrainedValue::Integer(na), ConstrainedValue::Integer(nb)) => {
                        if na.width != nb.width {
                            return Err(CompilerError::TypeMismatch(label("mixed integer widths")));
                        }
                        let (value, variable) = select_gadget(
                            cs,
                            cond.value,
                            cond.variable,
                            na.value,
                            na.variable,
                            nb.value,
                            nb.variable,
                        );
                        Ok(
                            ConstrainedValue::Integer(
                                IntValue { width: na.width, value, variable },
                            ),
                        )
                    },
                    (ConstrainedValue::Group(ga), ConstrainedValue::Group(gb)) => {
                        let (xv, xvar) = select_gadget(
                            cs,
                            cond.value,
                            cond.variable,
                            ga.x.value,
                            ga.x.variable,
                            gb.x.value,
                            gb.x.variable,
                        );
                        proof {
                            assert(binding_consistent(ga.y.value, ga.y.variable, cs.assignments_view()));
                            assert(binding_consistent(gb.y.value, gb.y.variable, cs.assignments_view()));
                            assert(binding_consistent(bool_to_field(cond.value), cond.variable, cs.assignments_view()));
                        }
                        let (yv, yvar) = select_gadget(
                            cs,
                            cond.value,
                            cond.variable,
                            ga.y.value,
                            ga.y.variable,
                            gb.y.value,
                            gb.y.variable,
                        );
                        Ok(
                            ConstrainedValue::Group(
                                crate::value::GroupValue {
                                    x: FieldValue { value: xv, variable: xvar },
                                    y: FieldValue { value: yv, variable: yvar },
                                },
                            ),
                        )
                    },
                    _ => Err(
                        CompilerError::UnsupportedOperation(label("selection between composites")),
                    ),
                }
            }
        },
        Expression::Call(explicit_scope, name, args) => {
            let key = match explicit_scope {
                Some(s) => new_scope(s.clone(), name.clone()),
                None => new_scope(scope.clone(), name.clone()),
            };
            let n_args = args.len();
            let mut arg_values: Vec<ConstrainedValue> = Vec::new();
            let mut i: usize = 0;
            while i < n_args
                invariant
                    0 <= i <= n_args,
                    arg_values@.len() == i,
                    cs.wf(),
                    cs_extended(*old(cs), *cs),
                    cs.satisfied() ==> old(cs).satisfied(),
                    table_assertion_free(prog.table@) ==> (cs.satisfied() <==> old(cs).satisfied()),
                    stack@ == old(stack)@,
                    env_ok(env@, cs.num_vars(), cs.assignments_view()),
                    forall|j: int|
                        0 <= j < i ==> is_data_value(#[trigger] arg_values@[j]) && value_ok(
                            arg_values@[j],
                            cs.num_vars(),
                        ) && value_consistent(arg_values@[j], cs.assignments_view()),
                decreases n_args - i,
            {
                proof {
                    assert(decreases_to!(*e => args@[i as int]));
                }
                let ghost cs_pre = *cs;
                let v = match eval_expression(prog, cs, env, scope, stack, &args[i]) {
                    Ok(v) => v,
                    Err(err) => {
                        return Err(err);
                    },
                };
                proof {
                    lemma_env_ok_monotone(env@, cs_pre, *cs);
                    assert forall|j: int| 0 <= j < i implies is_data_value(
                        #[trigger] arg_values@[j],
                    ) && value_ok(arg_values@[j], cs.num_vars()) && value_consistent(
                        arg_values@[j],
                        cs.assignments_view(),
                    ) by {
                        crate::value::lemma_value_ok_monotone(
                            arg_values@[j],
                            cs_pre.num_vars(),
                            cs.num_vars(),
                        );
                        lemma_value_consistent_monotone(
                            arg_values@[j],
                            cs_pre.assignments_view(),
                            cs.assignments_view(),
                        );
                    }
                }
                arg_values.push(v);
                i = i + 1;
            }
            let callee = match prog.get(&key) {
                Some(v) => v,
                None => {
                    return Err(CompilerError::TypeMismatch(key));
                },
            };
            match callee {
                ConstrainedValue::Function(def_scope, function) => {
                    if contains_string(stack, &key) {
                        return Err(CompilerError::CyclicCallGraph(key));
                    }
                    if function.parameters.len() != arg_values.len() {
                        return Err(CompilerError::TypeMismatch(key));
                    }
                    let mut callee_env: Vec<(String, ConstrainedValue)> = Vec::new();
                    let n_params = function.parameters.len();
                    let mut k: usize = n_params;
                    while k > 0
                        invariant
                            0 <= k <= n_params,
                            n_params == function.parameters@.len(),
                            arg_values@.len() + callee_env@.len() == n_params,
                            arg_values@.len() == k,
                            cs.wf(),
                            env_ok(callee_env@, cs.num_vars(), cs.assignments_view()),
                            forall|j: int|
                                0 <= j < k ==> is_data_value(#[trigger] arg_values@[j])
                                    && value_ok(arg_values@[j], cs.num_vars())
                                    && value_consistent(arg_values@[j], cs.assignments_view()),
                        decreases k,
                    {
                        k = k - 1;
                        let arg = match arg_values.pop() {
                            Some(a) => a,
                            None => {
                                return Err(CompilerError::TypeMismatch(key));
                            },
                        };
                        if !check_value_type(&arg, &function.parameters[k].ty) {
                            return Err(CompilerError::TypeMismatch(key));
                        }
                        callee_env.push((function.parameters[k].identifier.clone(), arg));
                    }
                    proof {
                        lemma_stack_bound(stack@.push(key), *prog);
                        if table_assertion_free(prog.table@) {
                            let ti = choose|ti: int|
                                0 <= ti < prog.table@.len() && (#[trigger] prog.table@[ti]).0@
                                    == key@ && prog.table@[ti].1 == *callee;
                            assert(assertion_free(function.body@));
                        }
                    }
                    stack.push(key.clone());
                    let body_result = eval_function_body(
                        prog,
                        cs,
                        callee_env,
                        def_scope,
                        stack,
                        &function.body,
                    );
                    let _ = stack.pop();
                    proof {
                        assert(stack@ =~= old(stack)@);
                    }
                    let ret = match body_result {
                        Ok(v) => v,
                        Err(err) => {
                            return Err(err);
                        },
                    };
                    match &function.return_type {
                        Some(t) => {
                            if check_value_type(&ret, t) {
                                Ok(ret)
                            } else {
                                Err(CompilerError::TypeMismatch(key))
                            }
                        },
                        None => Ok(ret),
                    }
                },
                _ => Err(CompilerError::TypeMismatch(key)),
            }
        },
        Expression::CircuitInit(name, members) => {
            let key = new_scope(scope.clone(), name.clone());
            let template = match prog.get(&key) {
                Some(v) => v,
                None => {
                    return Err(CompilerError::TypeMismatch(key));
                },
            };
            let circuit = match template {
                ConstrainedValue::CircuitDefinition(_, c) => c,
                _ => {
                    return Err(CompilerError::TypeMismatch(key));
                },
            };
            if circuit.members.len() != members.len() {
                return Err(CompilerError::TypeMismatch(key));
            }
            let n_members = circuit.members.len();
            let mut out: Vec<(String, ConstrainedValue)> = Vec::new();
            let mut i: usize = 0;
            while i < n_members
                invariant
                    0 <= i <= n_members,
                    n_members == circuit.members@.len(),
                    n_members == members@.len(),
                    out@.len() == i,
                    cs.wf(),
                    cs_extended(*old(cs), *cs),
                    cs.satisfied() ==> old(cs).satisfied(),
                    table_assertion_free(prog.table@) ==> (cs.satisfied() <==> old(cs).satisfied()),
                    stack@ == old(stack)@,
                    env_ok(env@, cs.num_vars(), cs.assignments_view()),
                    env_ok(out@, cs.num_vars(), cs.assignments_view()),
                decreases n_members - i,
            {
                // Find the initializer for this declared member.
                let mut found: usize = n_members;
                let mut j: usize = 0;
                while j < n_members
                    invariant
                        0 <= j <= n_members,
                        n_members == members@.len(),
                        found == n_members || found < j,
                        found < n_members ==> members@[found as int].0@
                            == circuit.members@[i as int].identifier@,
                    decreases n_members - j,
                {
                    if members[j].0 == circuit.members[i].identifier {
                        found = j;
                        j = n_members;
                    } else {
                        j = j + 1;
                    }
                }
                if found >= n_members {
                    return Err(CompilerError::TypeMismatch(key));
                }
                proof {
                    assert(decreases_to!(*e => members@[found as int].1));
                }
                let ghost cs_pre = *cs;
                let v = match eval_expression(prog, cs, env, scope, stack, &members[found].1) {
                    Ok(v) => v,
                    Err(err) => {
                        return Err(err);
                    },
                };
                proof {
                    lemma_env_ok_monotone(env@, cs_pre, *cs);
                    lemma_env_ok_monotone(out@, cs_pre, *cs);
                }
                if !check_value_type(&v, &circuit.members[i].ty) {
                    return Err(CompilerError::TypeMismatch(key));
                }
                out.push((circuit.members[i].identifier.clone(), v));
                i = i + 1;
            }
            Ok(ConstrainedValue::CircuitInstance(name.clone(), out))
        },
        Expression::Member(inner, member_name) => {
            proof {
                assert(decreases_to!(*e => **inner));
            }
            let v = match eval_expression(prog, cs, env, scope, stack, inner) {
                Ok(v) => v,
                Err(err) => {
                    return Err(err);
                },
            };
            match v {
                ConstrainedValue::CircuitInstance(_, ms) => {
                    let n = ms.len();
                    let mut i: usize = 0;
                    while i < n
                        invariant
                            0 <= i <= n,
                            n == ms@.len(),
                            cs.wf(),
                            forall|j: int|
                                0 <= j < ms@.len() ==> is_data_value((#[trigger] ms@[j]).1)
                                    && value_ok(ms@[j].1, cs.num_vars()) && value_consistent(
                                    ms@[j].1,
                                    cs.assignments_view(),
                                ),
                        decreases n - i,
                    {
                        if ms[i].0 == *member_name {
                            let copy = ms[i].1.duplicate();
                            proof {
                                lemma_value_equal_ok(copy, ms@[i as int].1, cs.num_vars());
                                lemma_value_equal_consistent(
                                    copy,
                                    ms@[i as int].1,
                                    cs.assignments_view(),
                                );
                            }
                            return Ok(copy);
                        }
                        i = i + 1;
                    }
                    Err(CompilerError::TypeMismatch(member_name.clone()))
                },
                _ => Err(CompilerError::TypeMismatch(member_name.clone())),
            }
        },
    }
}

/// Evaluates a function body statement by statement in program order:
/// definitions extend the local environment, assertions emit constraints, and
/// a return statement ends evaluation with its value.  A body without a
/// return yields the empty tuple.
#[verifier::loop_isolation(false)]
fn eval_function_body(
    prog: &ConstrainedProgram,
    cs: &mut ConstraintSystem,
    env: Vec<(String, ConstrainedValue)>,
    scope: &String,
    stack: &mut Vec<String>,
    body: &Vec<crate::ast::Statement>,
) -> (r: Result<ConstrainedValue, CompilerError>)
    requires
        prog.wf(),
        old(cs).wf(),
        stack_ok(old(stack)@, *prog),
        env_ok(env@, old(cs).num_vars(), old(cs).assignments_view()),
    ensures
        cs_extended(*old(cs), *final(cs)),
        final(cs).satisfied() ==> old(cs).satisfied(),
        (assertion_free(body@) && table_assertion_free(prog.table@)) ==> (final(cs).satisfied()
            <==> old(cs).satisfied()),
        final(stack)@ == old(stack)@,
        body@.len() == 0 ==> (r matches Ok(v) && v matches ConstrainedValue::Tuple(es)
            && es@.len() == 0),
        forall|w: u32, v: u64|
            (body@.len() == 1 && body@[0] == Statement::Return(Expression::IntLit(w, v)) && (w == 8
                || w == 16 || w == 32) && (v as int) < crate::value::width_bound(w)) ==> r
                == Result::<ConstrainedValue, CompilerError>::Ok(
                ConstrainedValue::Integer(IntValue { width: w, value: v, variable: None }),
            ),
        match r {
            Ok(v) => is_data_value(v) && value_ok(v, final(cs).num_vars()) && value_consistent(
                v,
                final(cs).assignments_view(),
            ),
            Err(e) => (e is TypeMismatch) || (e is UnsupportedOperation) || (e
                is CyclicCallGraph),
        },
    decreases prog.table@.len() - old(stack)@.len(), 1nat, *body,
{
    let mut env = env;
    let n = body.len();
    let mut i: usize = 0;
    while i < n
        invariant
            0 <= i <= n,
            n == body@.len(),
            cs.wf(),
            cs_extended(*old(cs), *cs),
            cs.satisfied() ==> old(cs).satisfied(),
            (assertion_free(body@) && table_assertion_free(prog.table@)) ==> (cs.satisfied()
                <==> old(cs).satisfied()),
            stack@ == old(stack)@,
            env_ok(env@, cs.num_vars(), cs.assignments_view()),
            forall|j: int| 0 <= j < i ==> !((#[trigger] body@[j]) is Return),
        decreases n - i,
    {
        let ghost cs_pre = *cs;
        match &body[i] {
            crate::ast::Statement::Definition(name, expr) => {
                let v = match eval_expression(prog, cs, &env, scope, stack, expr) {
                    Ok(v) => v,
                    Err(err) => {
                        return Err(err);
                    },
                };
                proof {
                    lemma_env_ok_monotone(env@, cs_pre, *cs);
                }
                env.push((name.clone(), v));
            },
            crate::ast::Statement::Assertion(expr) => {
                let v = match eval_expression(prog, cs, &env, scope, stack, expr) {
                    Ok(v) => v,
                    Err(err) => {
                        return Err(err);
                    },
                };
                proof {
                    lemma_env_ok_monotone(env@, cs_pre, *cs);
                }
                proof {
                    assert(body@[i as int] is Assertion);
                    assert(!assertion_free(body@));
                }
                match v {
                    ConstrainedValue::Boolean(b) => {
                        assert_gadget(cs, b.value, b.variable);
                    },
                    other => {
                        return Err(CompilerError::TypeMismatch(kind_label(&other)));
                    },
                }
            },
            crate::ast::Statement::Return(expr) => {
                let ret = eval_expression(prog, cs, &env, scope, stack, expr);
                proof {
                    assert forall|w: u32, v: u64|
                        (body@.len() == 1 && body@[0] == Statement::Return(
                            Expression::IntLit(w, v),
                        ) && (w == 8 || w == 16 || w == 32) && (v as int)
                            < crate::value::width_bound(w)) implies ret == Result::<
                        ConstrainedValue,
                        CompilerError,
                    >::Ok(
                        ConstrainedValue::Integer(IntValue { width: w, value: v, variable: None }),
                    ) by {
                        assert(*expr == Expression::IntLit(w, v));
                    }
                }
                return ret;
            },
        }
        i = i + 1;
    }
    Ok(ConstrainedValue::Tuple(Vec::new()))
}


impl ConstrainedProgram {
    /// Binds the declared inputs of an entry (or test) function to freshly
    /// allocated constraint-system variables tagged with each input's
    /// visibility, evaluates the body, validates the returned value against
    /// the declared return type, and serializes it.  A missing, extra-typed
    /// or out-of-range input is a type mismatch.  Satisfiability of the
    /// resulting system is the caller's concern, never silently lost here:
    /// it changes only by the assertions the body itself makes.
    pub fn enforce_main_function(
        &self,
        cs: &mut ConstraintSystem,
        program_name: &String,
        function: &Function,
        input: &Input,
    ) -> (r: Result<crate::output::OutputBytes, CompilerError>)
        requires
            self.wf(),
            old(cs).wf(),
        ensures
            cs_extended(*old(cs), *final(cs)),
            final(cs).satisfied() ==> old(cs).satisfied(),
            (assertion_free(function.body@) && table_assertion_free(self.table@))
                ==> (final(cs).satisfied() <==> old(cs).satisfied()),
            (function.parameters@.len() == 0 && function.body@.len() == 0
                && function.return_type is None) ==> r is Ok,
            forall|w: u32, v: u64|
                (function.parameters@.len() == 0 && function.body@.len() == 1
                    && function.body@[0] == Statement::Return(Expression::IntLit(w, v)) && (w == 8
                    || w == 16 || w == 32) && (v as int) < crate::value::width_bound(w)
                    && function.return_type == Some(Type::IntegerType(w))) ==> (r matches Ok(ob)
                    && ob.bytes@ == crate::output::value_bytes(
                    ConstrainedValue::Integer(IntValue { width: w, value: v, variable: None }),
                )),
            (exists|i: int|
                0 <= i < function.parameters@.len() && !input_binds(
                    *input,
                    (#[trigger] function.parameters@[i]).identifier@,
                )) ==> (r matches Err(e) && e is TypeMismatch),
            match r {
                Ok(ob) => match function.return_type {
                    Some(t) => exists|v: ConstrainedValue|
                        crate::value::value_matches_type(v, t) && ob.bytes@
                            == crate::output::value_bytes(v),
                    None => true,
                },
                Err(e) => (e is TypeMismatch) || (e is UnsupportedOperation) || (e
                    is CyclicCallGraph),
            },
    {
        let mut env: Vec<(String, ConstrainedValue)> = Vec::new();
        let n_params = function.parameters.len();
        let mut i: usize = 0;
        while i < n_params
            invariant
                0 <= i <= n_params,
                n_params == function.parameters@.len(),
                cs.wf(),
                cs_extended(*old(cs), *cs),
                cs.satisfied() <==> old(cs).satisfied(),
                env_ok(env@, cs.num_vars(), cs.assignments_view()),
                forall|i2: int|
                    0 <= i2 < i ==> input_binds(
                        *input,
                        (#[trigger] function.parameters@[i2]).identifier@,
                    ),
            decreases n_params - i,
        {
            let param = &function.parameters[i];
            // Take the matching named input assignment.
            let n_inputs = input.entries.len();
            let mut found: usize = n_inputs;
            let mut j: usize = 0;
            while j < n_inputs
                invariant
                    0 <= j <= n_inputs,
                    n_inputs == input.entries@.len(),
                    found == n_inputs || (found < n_inputs && input.entries@[found as int].name@
                        == param.identifier@),
                decreases n_inputs - j,
            {
                if input.entries[j].name == param.identifier {
                    found = j;
                    j = n_inputs;
                } else {
                    j = j + 1;
                }
            }
            if found >= n_inputs {
                return Err(CompilerError::TypeMismatch(param.identifier.clone()));
            }
            proof {
                assert(input_binds(*input, function.parameters@[i as int].identifier@));
            }
            let entry = &input.entries[found];
            let ghost cs_pre = *cs;
            let bound_value: ConstrainedValue = match (&param.ty, &entry.value) {
                (Type::BooleanType, InputValue::Boolean(b)) => {
                    let idx = cs.allocate(if *b { 1 } else { 0 }, entry.visibility);
                    ConstrainedValue::Boolean(BoolValue { value: *b, variable: Some(idx) })
                },
                (Type::FieldType, InputValue::Field(v)) => {
                    let red = field_reduce(*v);
                    let idx = cs.allocate(red, entry.visibility);
                    ConstrainedValue::FieldElement(FieldValue { value: red, variable: Some(idx) })
                },
                (Type::IntegerType(w), InputValue::Integer(iw, iv)) => {
                    if !(*w == 8 || *w == 16 || *w == 32) || *w != *iw {
                        return Err(CompilerError::TypeMismatch(param.identifier.clone()));
                    }
                    if *iv >= width_bound_exec(*w) {
                        return Err(CompilerError::TypeMismatch(param.identifier.clone()));
                    }
                    let idx = cs.allocate(*iv, entry.visibility);
                    ConstrainedValue::Integer(
                        IntValue { width: *w, value: *iv, variable: Some(idx) },
                    )
                },
                (Type::GroupType, InputValue::Group(x, y)) => {
                    let rx = field_reduce(*x);
                    let ry = field_reduce(*y);
                    let ix = cs.allocate(rx, entry.visibility);
                    let iy = cs.allocate(ry, entry.visibility);
                    ConstrainedValue::Group(
                        crate::value::GroupValue {
                            x: FieldValue { value: rx, variable: Some(ix) },
                            y: FieldValue { value: ry, variable: Some(iy) },
                        },
                    )
                },
                _ => {
                    return Err(CompilerError::TypeMismatch(param.identifier.clone()));
                },
            };
            proof {
                lemma_env_ok_monotone(env@, cs_pre, *cs);
            }
            env.push((param.identifier.clone(), bound_value));
            i = i + 1;
        }
        let mut stack: Vec<String> = Vec::new();
        let result = match eval_function_body(self, cs, env, program_name, &mut stack, &function.body) {
            Ok(v) => v,
            Err(err) => {
                return Err(err);
            },
        };
        match &function.return_type {
            Some(t) => {
                if !check_value_type(&result, t) {
                    return Err(CompilerError::TypeMismatch(function.identifier.clone()));
                }
            },
            None => {},
        }
        crate::output::OutputBytes::encode(&result)
    }
}

} // verus!
