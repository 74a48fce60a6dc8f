use vstd::prelude::*;
use crate::field::{fadd, fmul, field_add, field_mul, FIELD_PRIME};

verus! {

/// Whether a constraint-system variable is part of the public statement or of
/// the private witness.
#[derive(Clone, Copy, Debug, PartialEq, Eq, Structural)]
pub enum Visibility {
    Public,
    Private,
}

/// One summand of a linear combination: `coeff * assignment[var]`.
#[derive(Clone, Copy, Debug, PartialEq, Eq, Structural)]
pub struct Term {
    pub coeff: u64,
    pub var: usize,
}

/// A rank-1 constraint `a * b = c` over three linear combinations.
#[derive(Clone, Debug)]
pub struct Constraint {
    pub a: Vec<Term>,
    pub b: Vec<Term>,
    pub c: Vec<Term>,
}

pub open spec fn term_ok(t: Term, nvars: nat) -> bool {
    t.coeff < FIELD_PRIME && (t.var as nat) < nvars
}

pub open spec fn lc_ok(lc: Seq<Term>, nvars: nat) -> bool {
    forall|i: int| 0 <= i < lc.len() ==> term_ok(#[trigger] lc[i], nvars)
}

pub open spec fn constraint_ok(c: Constraint, nvars: nat) -> bool {
    lc_ok(c.a@, nvars) && lc_ok(c.b@, nvars) && lc_ok(c.c@, nvars)
}

/// The field value of a linear combination under an assignment.
pub open spec fn lc_val(lc: Seq<Term>, asg: Seq<u64>) -> int
    decreases lc.len(),
{
    if lc.len() == 0 {
        0
    } else {
        fadd(fmul(lc[0].coeff as int, asg[lc[0].var as int] as int), lc_val(lc.skip(1), asg))
    }
}

pub open spec fn constraint_holds(c: Constraint, asg: Seq<u64>) -> bool {
    fmul(lc_val(c.a@, asg), lc_val(c.b@, asg)) == lc_val(c.c@, asg)
}

/// A concrete constraint-system backend: deterministic variable allocation
/// in call order, accumulated rank-1 constraints, and a satisfiability check
/// of the accumulated system under the accumulated assignment.
pub struct ConstraintSystem {
    pub assignments: Vec<u64>,
    pub visibilities: Vec<Visibility>,
    pub constraints: Vec<Constraint>,
}

impl ConstraintSystem {
    pub open spec fn num_vars(self) -> nat {
        self.assignments@.len()
    }

    pub open spec fn assignments_view(self) -> Seq<u64> {
        self.assignments@
    }

    pub open spec fn visibilities_view(self) -> Seq<Visibility> {
        self.visibilities@
    }

    pub open spec fn constraints_view(self) -> Seq<Constraint> {
        self.constraints@
    }

    /// Well-formedness: variable 0 is the constant one, every assignment is a
    /// reduced field element, and every recorded constraint speaks only of
    /// allocated variables.
    pub open spec fn wf(self) -> bool {
        &&& self.assignments@.len() >= 1
        &&& self.assignments@[0] == 1u64
        &&& self.visibilities@.len() == self.assignments@.len()
        &&& forall|i: int|
            0 <= i < self.assignments@.len() ==> (#[trigger] self.assignments@[i]) < FIELD_PRIME
        &&& forall|i: int|
            0 <= i < self.constraints@.len() ==> constraint_ok(
                #[trigger] self.constraints@[i],
                self.assignments@.len() as nat,
            )
    }

    /// Satisfiability of the accumulated system under the accumulated
    /// assignment.
    pub open spec fn satisfied(self) -> bool {
        forall|i: int|
            0 <= i < self.constraints@.len() ==> constraint_holds(
                #[trigger] self.constraints@[i],
                self.assignments@,
            )
    }

    /// A fresh system holding only the constant-one variable and no
    /// constraints.
    pub fn new() -> (r: ConstraintSystem)
        ensures
            r.wf(),
            r.num_vars() == 1,
            r.constraints_view().len() == 0,
            r.satisfied(),
    {
        let mut assignments: Vec<u64> = Vec::new();
        assignments.push(1u64);
        let mut visibilities: Vec<Visibility> = Vec::new();
        visibilities.push(Visibility::Public);
        ConstraintSystem { assignments, visibilities, constraints: Vec::new() }
    }

    /// Allocates the next variable, in call order, and fixes its assignment
    /// forever: earlier assignments are never rebound.
    pub fn allocate(&mut self, value: u64, visibility: Visibility) -> (idx: usize)
        requires
            old(self).wf(),
            value < FIELD_PRIME,
        ensures
            final(self).wf(),
            idx == old(self).num_vars(),
            final(self).assignments_view() == old(self).assignments_view().push(value),
            final(self).visibilities_view() == old(self).visibilities_view().push(visibility),
            final(self).constraints_view() == old(self).constraints_view(),
            final(self).satisfied() <==> old(self).satisfied(),
    {
        let idx = self.assignments.len();
        self.assignments.push(value);
        self.visibilities.push(visibility);
        proof {
            assert forall|i: int| 0 <= i < self.constraints@.len() implies constraint_ok(
                #[trigger] self.constraints@[i],
                self.assignments@.len() as nat,
            ) by {
                assert(constraint_ok(self.constraints@[i], old(self).assignments@.len() as nat));
            }
            lemma_satisfied_extend(*old(self), *self);
        }
        idx
    }

    /// Records the rank-1 constraint `a * b = c` without touching any
    /// assignment.
    pub fn enforce(&mut self, a: Vec<Term>, b: Vec<Term>, c: Vec<Term>)
        requires
            old(self).wf(),
            lc_ok(a@, old(self).num_vars()),
            lc_ok(b@, old(self).num_vars()),
            lc_ok(c@, old(self).num_vars()),
        ensures
            final(self).wf(),
            final(self).assignments_view() == old(self).assignments_view(),
            final(self).visibilities_view() == old(self).visibilities_view(),
            final(self).num_vars() == old(self).num_vars(),
            final(self).constraints_view() == old(self).constraints_view().push(
                Constraint { a: a, b: b, c: c },
            ),
            final(self).satisfied() <==> (old(self).satisfied() && constraint_holds(
                Constraint { a: a, b: b, c: c },
                final(self).assignments_view(),
            )),
    {
        self.constraints.push(Constraint { a, b, c });
        proof {
            let pushed = self.constraints@;
            let k = pushed.len() - 1;
            assert(forall|i: int| 0 <= i < k ==> pushed[i] == old(self).constraints@[i]);
            if old(self).satisfied() && constraint_holds(pushed[k], self.assignments@) {
                assert forall|i: int| 0 <= i < pushed.len() implies constraint_holds(
                    #[trigger] pushed[i],
                    self.assignments@,
                ) by {
                    if i < k {
                        assert(constraint_holds(old(self).constraints@[i], self.assignments@));
                    }
                }
            }
            if self.satisfied() {
                assert(constraint_holds(pushed[k], self.assignments@));
                assert forall|i: int| 0 <= i < old(self).constraints@.len() implies
                    constraint_holds(#[trigger] old(self).constraints@[i], self.assignments@) by {
                    assert(pushed[i] == old(self).constraints@[i]);
                    assert(constraint_holds(pushed[i], self.assignments@));
                }
            }
        }
    }

    /// The number of variables allocated so far (the constant one included).
    pub fn num_variables(&self) -> (n: usize)
        ensures
            n == self.num_vars(),
    {
        self.assignments.len()
    }

    /// The number of constraints enforced so far.
    pub fn num_constraints(&self) -> (n: usize)
        ensures
            n == self.constraints_view().len(),
    {
        self.constraints.len()
    }

    /// The recorded assignment of one allocated variable.
    pub fn assignment(&self, idx: usize) -> (v: u64)
        requires
            idx < self.num_vars(),
        ensures
            v == self.assignments_view()[idx as int],
    {
        self.assignments[idx]
    }

    /// Decides whether the accumulated assignment satisfies every accumulated
    /// constraint.
    pub fn is_satisfied(&self) -> (r: bool)
        requires
            self.wf(),
        ensures
            r == self.satisfied(),
    {
        let n = self.constraints.len();
        let mut i: usize = 0;
        while i < n
            invariant
                self.wf(),
                n == self.constraints@.len(),
                0 <= i <= n,
                forall|j: int|
                    0 <= j < i ==> constraint_holds(#[trigger] self.constraints@[j], self.assignments@),
            decreases n - i,
        {
            let c = &self.constraints[i];
            let va = lc_value(&c.a, &self.assignments);
            let vb = lc_value(&c.b, &self.assignments);
            let vc = lc_value(&c.c, &self.assignments);
            let prod = field_mul(va, vb);
            if prod != vc {
                return false;
            }
            i = i + 1;
        }
        true
    }
}

/// Evaluates a linear combination under an assignment.
pub fn lc_value(lc: &Vec<Term>, assignments: &Vec<u64>) -> (r: u64)
    requires
        lc_ok(lc@, assignments@.len() as nat),
        forall|i: int| 0 <= i < assignments@.len() ==> (#[trigger] assignments@[i]) < FIELD_PRIME,
    ensures
        r == lc_val(lc@, assignments@),
        r < FIELD_PRIME,
{
    let n = lc.len();
    let mut i: usize = n;
    let mut acc: u64 = 0;
    proof {
        assert(lc@.skip(n as int) =~= Seq::<Term>::empty());
    }
    while i > 0
        invariant
            lc_ok(lc@, assignments@.len() as nat),
            forall|k: int| 0 <= k < assignments@.len() ==> (#[trigger] assignments@[k]) < FIELD_PRIME,
            n == lc@.len(),
            0 <= i <= n,
            acc < FIELD_PRIME || acc == 0,
            acc == lc_val(lc@.skip(i as int), assignments@),
        decreases i,
    {
        i = i - 1;
        let t = &lc[i];
        let prod = field_mul(t.coeff, assignments[t.var]);
        let next = field_add(prod, acc);
        proof {
            assert(lc@.skip(i as int)[0] == lc@[i as int]);
            assert(lc@.skip(i as int).skip(1) =~= lc@.skip(i as int + 1));
        }
        acc = next;
    }
    proof {
        assert(lc@.skip(0) =~= lc@);
        lemma_lc_val_bound(lc@, assignments@);
    }
    acc
}

/// The value of a linear combination is a reduced field element (or zero for
/// the empty combination).
proof fn lemma_lc_val_bound(lc: Seq<Term>, asg: Seq<u64>)
    ensures
        0 <= lc_val(lc, asg) < FIELD_PRIME as int || lc_val(lc, asg) == 0,
        0 <= lc_val(lc, asg) < FIELD_PRIME as int,
    decreases lc.len(),
{
    if lc.len() == 0 {
    } else {
        lemma_lc_val_bound(lc.skip(1), asg);
    }
}

/// A linear combination's value only depends on the assignments of the
/// variables it mentions, so extending the assignment leaves it unchanged.
proof fn lemma_lc_val_prefix(lc: Seq<Term>, asg1: Seq<u64>, asg2: Seq<u64>)
    requires
        lc_ok(lc, asg1.len() as nat),
        asg1.len() <= asg2.len(),
        forall|i: int| 0 <= i < asg1.len() ==> asg1[i] == asg2[i],
    ensures
        lc_val(lc, asg1) == lc_val(lc, asg2),
    decreases lc.len(),
{
    if lc.len() == 0 {
    } else {
        assert(lc_ok(lc.skip(1), asg1.len() as nat)) by {
            assert(forall|i: int|
                0 <= i < lc.skip(1).len() ==> lc.skip(1)[i] == lc[i + 1]);
        }
        lemma_lc_val_prefix(lc.skip(1), asg1, asg2);
    }
}

/// Already-recorded constraints keep their status when a new variable is
/// allocated: a binding, once made, is never rebound.
proof fn lemma_satisfied_extend(pre: ConstraintSystem, post: ConstraintSystem)
    requires
        pre.wf(),
        post.constraints_view() == pre.constraints_view(),
        pre.assignments_view().len() <= post.assignments_view().len(),
        forall|i: int|
            0 <= i < pre.assignments_view().len() ==> pre.assignments_view()[i]
                == post.assignments_view()[i],
    ensures
        post.satisfied() <==> pre.satisfied(),
{
    assert forall|i: int| 0 <= i < pre.constraints_view().len() implies (constraint_holds(
        #[trigger] pre.constraints_view()[i],
        pre.assignments_view(),
    ) <==> constraint_holds(pre.constraints_view()[i], post.assignments_view())) by {
        let c = pre.constraints_view()[i];
        lemma_lc_val_prefix(c.a@, pre.assignments_view(), post.assignments_view());
        lemma_lc_val_prefix(c.b@, pre.assignments_view(), post.assignments_view());
        lemma_lc_val_prefix(c.c@, pre.assignments_view(), post.assignments_view());
    }
}

} // verus!
