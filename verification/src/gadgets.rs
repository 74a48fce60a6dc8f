use vstd::prelude::*;
use vstd::arithmetic::div_mod::{lemma_mod_multiples_vanish, lemma_small_mod};
use crate::errors::CompilerError;
use crate::field::{bool_to_field, fadd, fmul, field_add, field_mul, FIELD_PRIME};
use crate::r1cs::{lc_val, ConstraintSystem, Term, Visibility};

verus! {

/// The field value one linear-combination term contributes.
pub open spec fn term_value(t: Term, asg: Seq<u64>) -> int {
    fmul(t.coeff as int, asg[t.var as int] as int)
}

/// A one-term linear combination standing for a primitive operand: its bound
/// variable if it has one, else its constant folded into the coefficient of
/// the constant-one variable.
fn operand_term(value: u64, variable: Option<usize>) -> (t: Term)
    requires
        value < FIELD_PRIME,
    ensures
        match variable {
            Some(i) => t == (Term { coeff: 1u64, var: i }),
            None => t == (Term { coeff: value, var: 0usize }),
        },
{
    match variable {
        Some(i) => Term { coeff: 1, var: i },
        None => Term { coeff: value, var: 0 },
    }
}

/// A term whose contribution is the negation of the operand's.
fn negated_term(value: u64, variable: Option<usize>) -> (t: Term)
    requires
        value < FIELD_PRIME,
    ensures
        match variable {
            Some(i) => t == (Term { coeff: (FIELD_PRIME - 1) as u64, var: i }),
            None => t == (Term {
                coeff: (((FIELD_PRIME - value) as int % (FIELD_PRIME as int))) as u64,
                var: 0usize,
            }),
        },
{
    match variable {
        Some(i) => Term { coeff: FIELD_PRIME - 1, var: i },
        None => Term { coeff: (FIELD_PRIME - value) % FIELD_PRIME, var: 0 },
    }
}

/// Multiplying by `FIELD_PRIME - 1` negates modulo the prime.
pub proof fn lemma_neg_mul(b: int)
    requires
        0 <= b < FIELD_PRIME,
    ensures
        fmul((FIELD_PRIME - 1) as int, b) == (FIELD_PRIME - b) % (FIELD_PRIME as int),
{
    let p = FIELD_PRIME as int;
    assert((p - 1) * b == b * p + (-b)) by (nonlinear_arith);
    lemma_mod_multiples_vanish(b, -b, p);
    lemma_mod_multiples_vanish(1, -b, p);
}

/// The value of a one-term linear combination.
pub proof fn lemma_lc_one(t: Term, asg: Seq<u64>)
    requires
        0 <= t.var < asg.len(),
        forall|i: int| 0 <= i < asg.len() ==> (#[trigger] asg[i]) < FIELD_PRIME,
    ensures
        lc_val(seq![t], asg) == term_value(t, asg),
{
    reveal_with_fuel(lc_val, 3);
    let s = seq![t];
    assert(s[0] == t);
    assert(s.skip(1) =~= Seq::<Term>::empty());
    let tv = term_value(t, asg);
    vstd::arithmetic::div_mod::lemma_mod_bound(
        (t.coeff as int) * (asg[t.var as int] as int),
        FIELD_PRIME as int,
    );
    assert(0 <= tv < FIELD_PRIME);
    lemma_small_mod(tv as nat, FIELD_PRIME as nat);
    assert(lc_val(s, asg) == fadd(tv, 0));
}

/// The value of a two-term linear combination.
pub proof fn lemma_lc_two(t1: Term, t2: Term, asg: Seq<u64>)
    requires
        0 <= t1.var < asg.len(),
        0 <= t2.var < asg.len(),
        forall|i: int| 0 <= i < asg.len() ==> (#[trigger] asg[i]) < FIELD_PRIME,
    ensures
        lc_val(seq![t1, t2], asg) == fadd(term_value(t1, asg), term_value(t2, asg)),
    decreases 0int,
{
    reveal_with_fuel(lc_val, 3);
    let s = seq![t1, t2];
    assert(s[0] == t1);
    assert(s.skip(1) =~= seq![t2]);
    lemma_lc_one(t2, asg);
    assert(lc_val(s, asg) == fadd(term_value(t1, asg), lc_val(seq![t2], asg)));
}

/// The contribution of an operand's term equals the operand's value whenever
/// its binding is consistent with the assignment.
pub proof fn lemma_operand_term_value(value: u64, variable: Option<usize>, t: Term, asg: Seq<u64>)
    requires
        value < FIELD_PRIME,
        asg.len() >= 1,
        asg[0] == 1u64,
        forall|i: int| 0 <= i < asg.len() ==> (#[trigger] asg[i]) < FIELD_PRIME,
        match variable {
            Some(i) => 0 <= i < asg.len() && asg[i as int] == value && t == (Term {
                coeff: 1u64,
                var: i,
            }),
            None => t == (Term { coeff: value, var: 0usize }),
        },
    ensures
        term_value(t, asg) == value,
{
    match variable {
        Some(i) => {
            lemma_small_mod(value as nat, FIELD_PRIME as nat);
        },
        None => {
            lemma_small_mod(value as nat, FIELD_PRIME as nat);
        },
    }
}

/// The contribution of a negated operand term is the field negation of the
/// operand's value.
pub proof fn lemma_negated_term_value(value: u64, variable: Option<usize>, t: Term, asg: Seq<u64>)
    requires
        value < FIELD_PRIME,
        asg.len() >= 1,
        asg[0] == 1u64,
        forall|i: int| 0 <= i < asg.len() ==> (#[trigger] asg[i]) < FIELD_PRIME,
        match variable {
            Some(i) => 0 <= i < asg.len() && asg[i as int] == value && t == (Term {
                coeff: (FIELD_PRIME - 1) as u64,
                var: i,
            }),
            None => t == (Term {
                coeff: (((FIELD_PRIME - value) as int % (FIELD_PRIME as int))) as u64,
                var: 0usize,
            }),
        },
    ensures
        term_value(t, asg) == (FIELD_PRIME - value) % (FIELD_PRIME as int),
{
    let p = FIELD_PRIME as int;
    match variable {
        Some(i) => {
            lemma_neg_mul(value as int);
        },
        None => {
            let c = (FIELD_PRIME - value) as int % (FIELD_PRIME as int);
            assert(0 <= c < FIELD_PRIME);
            lemma_small_mod(c as nat, FIELD_PRIME as nat);
        },
    }
}


/// A binding is consistent with an assignment when the bound variable holds
/// exactly the value.
pub open spec fn binding_consistent(value: u64, variable: Option<usize>, asg: Seq<u64>) -> bool {
    match variable {
        Some(i) => 0 <= i < asg.len() && asg[i as int] == value,
        None => true,
    }
}

/// Squaring the field's negative one gives one.
pub proof fn lemma_pm1_sq()
    ensures
        fmul((FIELD_PRIME - 1) as int, (FIELD_PRIME - 1) as int) == 1,
{
    let p = FIELD_PRIME as int;
    assert((p - 1) * (p - 1) == p * (p - 2) + 1) by (nonlinear_arith);
    lemma_mod_multiples_vanish(p - 2, 1, p);
    lemma_small_mod(1nat, FIELD_PRIME as nat);
}

/// The common postconditions of every gadget on the constraint system: it
/// stays well-formed, assignments only grow, and nothing already allocated is
/// rebound.
pub open spec fn cs_extended(pre: ConstraintSystem, post: ConstraintSystem) -> bool {
    &&& post.wf()
    &&& pre.assignments_view().len() <= post.assignments_view().len()
    &&& forall|i: int|
        0 <= i < pre.assignments_view().len() ==> (#[trigger] post.assignments_view()[i])
            == pre.assignments_view()[i]
}

/// Emits the constraints of a field addition and returns the sum, constant
/// folded when both operands are compile-time constants.
pub fn add_gadget(
    cs: &mut ConstraintSystem,
    av: u64,
    avar: Option<usize>,
    bv: u64,
    bvar: Option<usize>,
) -> (r: (u64, Option<usize>))
    requires
        old(cs).wf(),
        av < FIELD_PRIME,
        bv < FIELD_PRIME,
        binding_consistent(av, avar, old(cs).assignments_view()),
        binding_consistent(bv, bvar, old(cs).assignments_view()),
    ensures
        cs_extended(*old(cs), *final(cs)),
        final(cs).satisfied() <==> old(cs).satisfied(),
        r.0 == fadd(av as int, bv as int),
        r.0 < FIELD_PRIME,
        binding_consistent(r.0, r.1, final(cs).assignments_view()),
        (avar is None && bvar is None) ==> r.1 is None,
        (avar is Some || bvar is Some) ==> r.1 is Some,
{
    let value = field_add(av, bv);
    if avar.is_none() && bvar.is_none() {
        return (value, None);
    }
    let ta = operand_term(av, avar);
    let tb = operand_term(bv, bvar);
    let idx = cs.allocate(value, Visibility::Private);
    let tr = operand_term(value, Some(idx));
    let ghost asg = cs.assignments_view();
    proof {
        lemma_operand_term_value(av, avar, ta, asg);
        lemma_operand_term_value(bv, bvar, tb, asg);
        lemma_operand_term_value(value, Some(idx), tr, asg);
        lemma_lc_two(ta, tb, asg);
        lemma_lc_one(tr, asg);
        lemma_lc_one(Term { coeff: 1u64, var: 0usize }, asg);
        lemma_operand_term_value(1u64, None, Term { coeff: 1u64, var: 0usize }, asg);
        lemma_small_mod((fadd(av as int, bv as int)) as nat, FIELD_PRIME as nat);
    }
    let lc_a = vec![ta, tb];
    let lc_b = vec![Term { coeff: 1u64, var: 0usize }];
    let lc_c = vec![tr];
    proof {
        assert(lc_a@ =~= seq![ta, tb]);
        assert(lc_b@ =~= seq![Term { coeff: 1u64, var: 0usize }]);
        assert(lc_c@ =~= seq![tr]);
    }
    cs.enforce(lc_a, lc_b, lc_c);
    (value, Some(idx))
}

/// Emits the constraints of a field multiplication and returns the product,
/// constant folded when both operands are compile-time constants.
pub fn mul_gadget(
    cs: &mut ConstraintSystem,
    av: u64,
    avar: Option<usize>,
    bv: u64,
    bvar: Option<usize>,
) -> (r: (u64, Option<usize>))
    requires
        old(cs).wf(),
        av < FIELD_PRIME,
        bv < FIELD_PRIME,
        binding_consistent(av, avar, old(cs).assignments_view()),
        binding_consistent(bv, bvar, old(cs).assignments_view()),
    ensures
        cs_extended(*old(cs), *final(cs)),
        final(cs).satisfied() <==> old(cs).satisfied(),
        r.0 == fmul(av as int, bv as int),
        r.0 < FIELD_PRIME,
        binding_consistent(r.0, r.1, final(cs).assignments_view()),
        (avar is None && bvar is None) ==> r.1 is None,
        (avar is Some || bvar is Some) ==> r.1 is Some,
{
    let value = field_mul(av, bv);
    if avar.is_none() && bvar.is_none() {
        return (value, None);
    }
    let ta = operand_term(av, avar);
    let tb = operand_term(bv, bvar);
    let idx = cs.allocate(value, Visibility::Private);
    let tr = operand_term(value, Some(idx));
    let ghost asg = cs.assignments_view();
    proof {
        lemma_operand_term_value(av, avar, ta, asg);
        lemma_operand_term_value(bv, bvar, tb, asg);
        lemma_operand_term_value(value, Some(idx), tr, asg);
        lemma_lc_one(ta, asg);
        lemma_lc_one(tb, asg);
        lemma_lc_one(tr, asg);
    }
    let lc_a = vec![ta];
    let lc_b = vec![tb];
    let lc_c = vec![tr];
    proof {
        assert(lc_a@ =~= seq![ta]);
        assert(lc_b@ =~= seq![tb]);
        assert(lc_c@ =~= seq![tr]);
    }
    cs.enforce(lc_a, lc_b, lc_c);
    (value, Some(idx))
}

/// Emits the single selection constraint `cond * (a - b) = r - b` and returns
/// the selected value; a compile-time condition selects directly.
pub fn select_gadget(
    cs: &mut ConstraintSystem,
    cv: bool,
    cvar: Option<usize>,
    av: u64,
    avar: Option<usize>,
    bv: u64,
    bvar: Option<usize>,
) -> (r: (u64, Option<usize>))
    requires
        old(cs).wf(),
        av < FIELD_PRIME,
        bv < FIELD_PRIME,
        binding_consistent(bool_to_field(cv), cvar, old(cs).assignments_view()),
        binding_consistent(av, avar, old(cs).assignments_view()),
        binding_consistent(bv, bvar, old(cs).assignments_view()),
    ensures
        cs_extended(*old(cs), *final(cs)),
        final(cs).satisfied() <==> old(cs).satisfied(),
        r.0 == (if cv { av } else { bv }),
        r.0 < FIELD_PRIME,
        binding_consistent(r.0, r.1, final(cs).assignments_view()),
{
    if cvar.is_none() {
        if cv {
            return (av, avar);
        } else {
            return (bv, bvar);
        }
    }
    let value = if cv { av } else { bv };
    let tc = operand_term(if cv { 1 } else { 0 }, cvar);
    let ta = operand_term(av, avar);
    let ntb = negated_term(bv, bvar);
    let idx = cs.allocate(value, Visibility::Private);
    let tr = operand_term(value, Some(idx));
    let ghost asg = cs.assignments_view();
    proof {
        lemma_operand_term_value(bool_to_field(cv), cvar, tc, asg);
        lemma_operand_term_value(av, avar, ta, asg);
        lemma_negated_term_value(bv, bvar, ntb, asg);
        lemma_operand_term_value(value, Some(idx), tr, asg);
        lemma_lc_one(tc, asg);
        lemma_lc_two(ta, ntb, asg);
        lemma_lc_two(tr, ntb, asg);
        let p = FIELD_PRIME as int;
        let nb = (FIELD_PRIME - bv) % p;
        let d = fadd(av as int, nb);
        if cv {
            lemma_small_mod(d as nat, FIELD_PRIME as nat);
            assert(fmul(1, d) == d);
        } else {
            assert(fmul(0, d) == 0) by {
                lemma_small_mod(0nat, FIELD_PRIME as nat);
            }
            if bv == 0 {
                lemma_small_mod(0nat, FIELD_PRIME as nat);
                assert(fadd(bv as int, nb) == 0);
            } else {
                lemma_small_mod((FIELD_PRIME - bv) as nat, FIELD_PRIME as nat);
                assert(nb == FIELD_PRIME - bv);
                assert(bv + nb == FIELD_PRIME);
                assert(fadd(bv as int, nb) == 0) by {
                    lemma_mod_multiples_vanish(1, 0, p);
                    lemma_small_mod(0nat, FIELD_PRIME as nat);
                }
            }
        }
    }
    let lc_a = vec![tc];
    let lc_b = vec![ta, ntb];
    let lc_c = vec![tr, ntb];
    proof {
        assert(lc_a@ =~= seq![tc]);
        assert(lc_b@ =~= seq![ta, ntb]);
        assert(lc_c@ =~= seq![tr, ntb]);
    }
    cs.enforce(lc_a, lc_b, lc_c);
    (value, Some(idx))
}

/// Emits the boolean-equality constraint `(a - b) * (a - b) = 1 - r` and
/// returns the comparison, constant folded when both sides are constants.
pub fn bool_eq_gadget(
    cs: &mut ConstraintSystem,
    av: bool,
    avar: Option<usize>,
    bv: bool,
    bvar: Option<usize>,
) -> (r: (bool, Option<usize>))
    requires
        old(cs).wf(),
        binding_consistent(bool_to_field(av), avar, old(cs).assignments_view()),
        binding_consistent(bool_to_field(bv), bvar, old(cs).assignments_view()),
    ensures
        cs_extended(*old(cs), *final(cs)),
        final(cs).satisfied() <==> old(cs).satisfied(),
        r.0 == (av == bv),
        binding_consistent(bool_to_field(r.0), r.1, final(cs).assignments_view()),
        (avar is None && bvar is None) ==> r.1 is None,
{
    if avar.is_none() && bvar.is_none() {
        return (av == bv, None);
    }
    let value = av == bv;
    let ae = if av { 1u64 } else { 0u64 };
    let be = if bv { 1u64 } else { 0u64 };
    let ta = operand_term(ae, avar);
    let ntb = negated_term(be, bvar);
    let idx = cs.allocate(if value { 1 } else { 0 }, Visibility::Private);
    let ntr = negated_term(if value { 1 } else { 0 }, Some(idx));
    let tone = Term { coeff: 1u64, var: 0usize };
    let ghost asg = cs.assignments_view();
    proof {
        lemma_operand_term_value(ae, avar, ta, asg);
        lemma_negated_term_value(be, bvar, ntb, asg);
        lemma_negated_term_value(if value { 1u64 } else { 0u64 }, Some(idx), ntr, asg);
        lemma_operand_term_value(1u64, None, tone, asg);
        lemma_lc_two(ta, ntb, asg);
        lemma_lc_two(tone, ntr, asg);
        let p = FIELD_PRIME as int;
        lemma_small_mod(0nat, FIELD_PRIME as nat);
        lemma_small_mod(1nat, FIELD_PRIME as nat);
        lemma_small_mod((FIELD_PRIME - 1) as nat, FIELD_PRIME as nat);
        lemma_mod_multiples_vanish(1, 0, p);
        lemma_pm1_sq();
        let nbe = (FIELD_PRIME - be) as int % p;
        let d = fadd(ae as int, nbe);
        let re: int = if value { 1 } else { 0 };
        let nre = (FIELD_PRIME - re) % p;
        let rhs = fadd(1, nre);
        if av && bv {
            assert(nbe == FIELD_PRIME - 1);
            assert(d == 0);
            assert(fmul(d, d) == 0);
            assert(nre == FIELD_PRIME - 1);
            assert(rhs == 0);
        } else if !av && !bv {
            assert(nbe == 0);
            assert(d == 0);
            assert(fmul(d, d) == 0);
            assert(rhs == 0);
        } else if av && !bv {
            assert(nbe == 0);
            assert(d == 1);
            assert(fmul(d, d) == 1);
            assert(nre == 0);
            assert(rhs == 1);
        } else {
            assert(nbe == FIELD_PRIME - 1);
            assert(d == FIELD_PRIME - 1);
            assert(fmul(d, d) == 1);
            assert(nre == 0);
            assert(rhs == 1);
        }
        assert(fmul(d, d) == rhs);
    }
    let lc_a = vec![ta, ntb];
    let lc_b = vec![ta, ntb];
    let lc_c = vec![tone, ntr];
    proof {
        assert(lc_a@ =~= seq![ta, ntb]);
        assert(lc_b@ =~= seq![ta, ntb]);
        assert(lc_c@ =~= seq![tone, ntr]);
    }
    cs.enforce(lc_a, lc_b, lc_c);
    (value, Some(idx))
}

/// Constrains a boolean to hold: the system stays satisfied exactly when it
/// was satisfied and the asserted value is true.
pub fn assert_gadget(cs: &mut ConstraintSystem, bv: bool, bvar: Option<usize>)
    requires
        old(cs).wf(),
        binding_consistent(bool_to_field(bv), bvar, old(cs).assignments_view()),
    ensures
        cs_extended(*old(cs), *final(cs)),
        final(cs).assignments_view() == old(cs).assignments_view(),
        final(cs).satisfied() <==> (old(cs).satisfied() && bv),
{
    let tone = Term { coeff: 1u64, var: 0usize };
    let ghost asg = cs.assignments_view();
    if bvar.is_none() {
        if bv {
            return;
        }
        proof {
            lemma_operand_term_value(1u64, None, tone, asg);
            lemma_lc_one(tone, asg);
            lemma_small_mod(1nat, FIELD_PRIME as nat);
        }
        let lc_a = vec![tone];
        let lc_b = vec![tone];
        let lc_c: Vec<Term> = Vec::new();
        proof {
            assert(lc_a@ =~= seq![tone]);
            assert(lc_b@ =~= seq![tone]);
            assert(lc_c@ =~= Seq::<Term>::empty());
        }
        cs.enforce(lc_a, lc_b, lc_c);
        return;
    }
    let be = if bv { 1u64 } else { 0u64 };
    let tb = operand_term(be, bvar);
    proof {
        lemma_operand_term_value(be, bvar, tb, asg);
        lemma_operand_term_value(1u64, None, tone, asg);
        lemma_lc_one(tb, asg);
        lemma_lc_one(tone, asg);
        lemma_small_mod(be as nat, FIELD_PRIME as nat);
        lemma_small_mod(1nat, FIELD_PRIME as nat);
    }
    let lc_a = vec![tb];
    let lc_b = vec![tone];
    let lc_c = vec![tone];
    proof {
        assert(lc_a@ =~= seq![tb]);
        assert(lc_b@ =~= seq![tone]);
        assert(lc_c@ =~= seq![tone]);
    }
    cs.enforce(lc_a, lc_b, lc_c);
}


/// A difference `a - b` of reduced field elements is zero modulo the prime
/// exactly when the operands are equal.
pub proof fn lemma_diff_zero_iff(a: int, b: int)
    requires
        0 <= a < FIELD_PRIME,
        0 <= b < FIELD_PRIME,
    ensures
        (fadd(a, (FIELD_PRIME - b) as int % (FIELD_PRIME as int)) == 0) <==> (a == b),
{
    let p = FIELD_PRIME as int;
    if b == 0 {
        lemma_mod_multiples_vanish(1, 0, p);
        lemma_small_mod(0nat, FIELD_PRIME as nat);
        lemma_small_mod(a as nat, FIELD_PRIME as nat);
    } else {
        lemma_small_mod((p - b) as nat, FIELD_PRIME as nat);
        if a == b {
            lemma_mod_multiples_vanish(1, 0, p);
            lemma_small_mod(0nat, FIELD_PRIME as nat);
        } else if a < b {
            lemma_small_mod((a + p - b) as nat, FIELD_PRIME as nat);
        } else {
            lemma_mod_multiples_vanish(1, a - b, p);
            lemma_small_mod((a - b) as nat, FIELD_PRIME as nat);
        }
    }
}

/// A candidate inverse of a field element, by exponentiation; the caller
/// checks the product, so nothing is claimed of the value beyond its range.
fn field_inverse_candidate(d: u64) -> (w: u64)
    requires
        d < FIELD_PRIME,
    ensures
        w < FIELD_PRIME,
{
    let mut base = d;
    let mut exp: u64 = FIELD_PRIME - 2;
    let mut acc: u64 = 1;
    while exp > 0
        invariant
            base < FIELD_PRIME,
            acc < FIELD_PRIME,
        decreases exp,
    {
        if exp % 2 == 1 {
            acc = field_mul(acc, base);
        }
        base = field_mul(base, base);
        exp = exp / 2;
    }
    acc
}

/// Emits the equality constraints `(a - b) * w = 1 - r` and `(a - b) * r = 0`
/// over an inverse witness `w`, and returns the comparison; both operands
/// constant folds instead.  The unsupported-operation arm guards the inverse
/// witness and is unreachable while the modulus is prime.
pub fn eq_gadget(
    cs: &mut ConstraintSystem,
    av: u64,
    avar: Option<usize>,
    bv: u64,
    bvar: Option<usize>,
) -> (r: Result<(bool, Option<usize>), CompilerError>)
    requires
        old(cs).wf(),
        av < FIELD_PRIME,
        bv < FIELD_PRIME,
        binding_consistent(av, avar, old(cs).assignments_view()),
        binding_consistent(bv, bvar, old(cs).assignments_view()),
    ensures
        cs_extended(*old(cs), *final(cs)),
        final(cs).satisfied() <==> old(cs).satisfied(),
        match r {
            Ok(res) => res.0 == (av == bv) && binding_consistent(
                bool_to_field(res.0),
                res.1,
                final(cs).assignments_view(),
            ) && ((avar is None && bvar is None) ==> res.1 is None),
            Err(e) => e matches CompilerError::UnsupportedOperation(_),
        },
{
    if avar.is_none() && bvar.is_none() {
        return Ok((av == bv, None));
    }
    let value = av == bv;
    let nbv = (FIELD_PRIME - bv) % FIELD_PRIME;
    let dv = field_add(av, nbv);
    let witness = if value {
        0
    } else {
        field_inverse_candidate(dv)
    };
    if !value && field_mul(dv, witness) != 1 {
        return Err(
            CompilerError::UnsupportedOperation(
                <String as vstd::string::StringExecFns>::from_str("no inverse witness"),
            ),
        );
    }
    let ta = operand_term(av, avar);
    let ntb = negated_term(bv, bvar);
    let r_idx = cs.allocate(if value { 1 } else { 0 }, Visibility::Private);
    let w_idx = cs.allocate(witness, Visibility::Private);
    let tw = operand_term(witness, Some(w_idx));
    let tr = operand_term(if value { 1 } else { 0 }, Some(r_idx));
    let ntr = negated_term(if value { 1 } else { 0 }, Some(r_idx));
    let tone = Term { coeff: 1u64, var: 0usize };
    let ghost asg = cs.assignments_view();
    proof {
        lemma_operand_term_value(av, avar, ta, asg);
        lemma_negated_term_value(bv, bvar, ntb, asg);
        lemma_operand_term_value(witness, Some(w_idx), tw, asg);
        lemma_operand_term_value(if value { 1u64 } else { 0u64 }, Some(r_idx), tr, asg);
        lemma_negated_term_value(if value { 1u64 } else { 0u64 }, Some(r_idx), ntr, asg);
        lemma_operand_term_value(1u64, None, tone, asg);
        lemma_lc_two(ta, ntb, asg);
        lemma_lc_one(tw, asg);
        lemma_lc_one(tr, asg);
        lemma_lc_two(tone, ntr, asg);
        let p = FIELD_PRIME as int;
        lemma_small_mod(0nat, FIELD_PRIME as nat);
        lemma_small_mod(1nat, FIELD_PRIME as nat);
        lemma_small_mod((FIELD_PRIME - 1) as nat, FIELD_PRIME as nat);
        lemma_mod_multiples_vanish(1, 0, p);
        lemma_diff_zero_iff(av as int, bv as int);
        assert(fadd(av as int, (FIELD_PRIME - bv) as int % p) == dv);
        if value {
            assert(dv == 0);
            assert(fmul(0, witness as int) == 0);
            assert(fadd(1, (FIELD_PRIME - 1) as int % p) == 0);
            assert(fmul(0, 1) == 0) by {
                assert(0int * 1int == 0int);
                lemma_small_mod(0nat, FIELD_PRIME as nat);
            }
        } else {
            assert(fmul(dv as int, witness as int) == 1);
            assert((FIELD_PRIME - 0) as int % p == 0);
            assert(fadd(1, 0) == 1);
            assert(fmul(dv as int, 0) == 0);
        }
    }
    let lc_a1 = vec![ta, ntb];
    let lc_b1 = vec![tw];
    let lc_c1 = vec![tone, ntr];
    proof {
        assert(lc_a1@ =~= seq![ta, ntb]);
        assert(lc_b1@ =~= seq![tw]);
        assert(lc_c1@ =~= seq![tone, ntr]);
    }
    cs.enforce(lc_a1, lc_b1, lc_c1);
    let lc_a2 = vec![ta, ntb];
    let lc_b2 = vec![tr];
    let lc_c2: Vec<Term> = Vec::new();
    proof {
        assert(lc_a2@ =~= seq![ta, ntb]);
        assert(lc_b2@ =~= seq![tr]);
        assert(lc_c2@ =~= Seq::<Term>::empty());
    }
    cs.enforce(lc_a2, lc_b2, lc_c2);
    Ok((value, Some(r_idx)))
}

} // verus!
