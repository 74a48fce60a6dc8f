use vstd::prelude::*;
use crate::ast::{Circuit, Function, Type};
use crate::field::FIELD_PRIME;

verus! {

/// A field element, together with its constraint-system binding.  `None`
/// marks a compile-time constant that never needed a variable.
#[derive(Clone, Copy, Debug)]
pub struct FieldValue {
    pub value: u64,
    pub variable: Option<usize>,
}

/// A boolean, represented in the field as 0 or 1.
#[derive(Clone, Copy, Debug)]
pub struct BoolValue {
    pub value: bool,
    pub variable: Option<usize>,
}

/// An unsigned integer of a fixed bit width, embedded into the field.
#[derive(Clone, Copy, Debug)]
pub struct IntValue {
    pub width: u32,
    pub value: u64,
    pub variable: Option<usize>,
}

/// A group element, carried as a pair of field coordinates.
#[derive(Clone, Copy, Debug)]
pub struct GroupValue {
    pub x: FieldValue,
    pub y: FieldValue,
}

/// Every compiled value the evaluator can produce or bind.
#[derive(Debug)]
pub enum ConstrainedValue {
    /// A function, together with the qualified-scope name of the program that
    /// declared it; nested calls inside its body resolve against that scope.
    Function(String, Function),
    /// A circuit type template, with its defining program's name.
    CircuitDefinition(String, Circuit),
    /// An instance of the named circuit type: one value per member.
    CircuitInstance(String, Vec<(String, ConstrainedValue)>),
    Boolean(BoolValue),
    FieldElement(FieldValue),
    Integer(IntValue),
    Group(GroupValue),
    Array(Vec<ConstrainedValue>),
    Tuple(Vec<ConstrainedValue>),
}

/// The engine supports the integer widths whose sums and products always
/// embed losslessly into the field.
pub open spec fn valid_width(w: u32) -> bool {
    w == 8 || w == 16 || w == 32
}

/// The exclusive upper bound of an integer of the given width.
pub open spec fn width_bound(w: u32) -> int {
    if w == 8 {
        256
    } else if w == 16 {
        65536
    } else {
        4294967296
    }
}

/// The exclusive upper bound of an integer of the given width.
pub fn width_bound_exec(w: u32) -> (r: u64)
    requires
        valid_width(w),
    ensures
        r == width_bound(w),
        r < FIELD_PRIME,
{
    if w == 8 {
        256
    } else if w == 16 {
        65536
    } else {
        4294967296
    }
}

pub open spec fn binding_ok(variable: Option<usize>, nvars: nat) -> bool {
    match variable {
        Some(i) => (i as nat) < nvars,
        None => true,
    }
}

/// Well-formedness of a value against a constraint system with `nvars`
/// allocated variables: every numeric payload is a reduced field element (or
/// fits its declared width) and every binding points at an allocated
/// variable.
pub open spec fn value_ok(v: ConstrainedValue, nvars: nat) -> bool
    decreases v,
{
    match v {
        ConstrainedValue::Function(_, _) => true,
        ConstrainedValue::CircuitDefinition(_, _) => true,
        ConstrainedValue::CircuitInstance(_, members) => forall|i: int|
            0 <= i < members@.len() ==> value_ok((#[trigger] members@[i]).1, nvars),
        ConstrainedValue::Boolean(b) => binding_ok(b.variable, nvars),
        ConstrainedValue::FieldElement(f) => f.value < FIELD_PRIME && binding_ok(
            f.variable,
            nvars,
        ),
        ConstrainedValue::Integer(n) => valid_width(n.width) && (n.value as int) < width_bound(
            n.width,
        ) && binding_ok(n.variable, nvars),
        ConstrainedValue::Group(g) => g.x.value < FIELD_PRIME && g.y.value < FIELD_PRIME
            && binding_ok(g.x.variable, nvars) && binding_ok(g.y.variable, nvars),
        ConstrainedValue::Array(elements) => forall|i: int|
            0 <= i < elements@.len() ==> value_ok(#[trigger] elements@[i], nvars),
        ConstrainedValue::Tuple(elements) => forall|i: int|
            0 <= i < elements@.len() ==> value_ok(#[trigger] elements@[i], nvars),
    }
}

/// A value stays well-formed when the constraint system allocates further
/// variables: bindings are never rebound or invalidated.
pub proof fn lemma_value_ok_monotone(v: ConstrainedValue, n1: nat, n2: nat)
    requires
        value_ok(v, n1),
        n1 <= n2,
    ensures
        value_ok(v, n2),
    decreases v,
{
    match v {
        ConstrainedValue::CircuitInstance(_, members) => {
            assert forall|i: int| 0 <= i < members@.len() implies value_ok(
                (#[trigger] members@[i]).1,
                n2,
            ) by {
                lemma_value_ok_monotone(members@[i].1, n1, n2);
            }
        },
        ConstrainedValue::Array(elements) => {
            assert forall|i: int| 0 <= i < elements@.len() implies value_ok(
                #[trigger] elements@[i],
                n2,
            ) by {
                lemma_value_ok_monotone(elements@[i], n1, n2);
            }
        },
        ConstrainedValue::Tuple(elements) => {
            assert forall|i: int| 0 <= i < elements@.len() implies value_ok(
                #[trigger] elements@[i],
                n2,
            ) by {
                lemma_value_ok_monotone(elements@[i], n1, n2);
            }
        },
        _ => {},
    }
}

/// Whether a value's kind (and shape, recursively) matches a declared type.
pub open spec fn value_matches_type(v: ConstrainedValue, t: Type) -> bool
    decreases t,
{
    match t {
        Type::BooleanType => v is Boolean,
        Type::FieldType => v is FieldElement,
        Type::GroupType => v is Group,
        Type::IntegerType(w) => v matches ConstrainedValue::Integer(n) && n.width == w,
        Type::ArrayType(elem, len) => v matches ConstrainedValue::Array(elements)
            && elements@.len() == len && forall|i: int|
            0 <= i < elements@.len() ==> value_matches_type(#[trigger] elements@[i], *elem),
        Type::TupleType(types) => v matches ConstrainedValue::Tuple(elements) && elements@.len()
            == types@.len() && forall|i: int|
            0 <= i < elements@.len() ==> value_matches_type(
                #[trigger] elements@[i],
                types@[i],
            ),
        Type::CircuitType(name) => v matches ConstrainedValue::CircuitInstance(n, _) && n@
            == name@,
    }
}

/// Decides whether a value's kind matches a declared type.
#[verifier::loop_isolation(false)]
#[verifier::rlimit(60)]
pub fn check_value_type(v: &ConstrainedValue, t: &Type) -> (r: bool)
    ensures
        r == value_matches_type(*v, *t),
    decreases *t,
{
    match t {
        Type::BooleanType => match v {
            ConstrainedValue::Boolean(_) => true,
            _ => false,
        },
        Type::FieldType => match v {
            ConstrainedValue::FieldElement(_) => true,
            _ => false,
        },
        Type::GroupType => match v {
            ConstrainedValue::Group(_) => true,
            _ => false,
        },
        Type::IntegerType(w) => match v {
            ConstrainedValue::Integer(n) => n.width == *w,
            _ => false,
        },
        Type::ArrayType(elem, len) => match v {
            ConstrainedValue::Array(elements) => {
                if elements.len() != *len {
                    return false;
                }
                let n = elements.len();
                let mut i: usize = 0;
                while i < n
                    invariant
                        n == elements@.len(),
                        0 <= i <= n,
                        forall|j: int|
                            0 <= j < i ==> value_matches_type(#[trigger] elements@[j], **elem),
                    decreases n - i,
                {
                    proof {
                        assert(decreases_to!(*t => **elem));
                    }
                    if !check_value_type(&elements[i], elem) {
                        return false;
                    }
                    i = i + 1;
                }
                true
            },
            _ => false,
        },
        Type::TupleType(types) => match v {
            ConstrainedValue::Tuple(elements) => {
                if elements.len() != types.len() {
                    return false;
                }
                let n = elements.len();
                let mut i: usize = 0;
                while i < n
                    invariant
                        n == elements@.len(),
                        n == types@.len(),
                        0 <= i <= n,
                        forall|j: int|
                            0 <= j < i ==> value_matches_type(#[trigger] elements@[j], types@[j]),
                    decreases n - i,
                {
                    proof {
                        assert(decreases_to!(*t => types@[i as int]));
                    }
                    if !check_value_type(&elements[i], &types[i]) {
                        return false;
                    }
                    i = i + 1;
                }
                true
            },
            _ => false,
        },
        Type::CircuitType(name) => match v {
            ConstrainedValue::CircuitInstance(n, _) => *n == *name,
            _ => false,
        },
    }
}


/// Data values: what the evaluator binds to locals and returns.  Function
/// and circuit-template payloads live only in the symbol table.
pub open spec fn is_data_value(v: ConstrainedValue) -> bool
    decreases v,
{
    match v {
        ConstrainedValue::Function(_, _) => false,
        ConstrainedValue::CircuitDefinition(_, _) => false,
        ConstrainedValue::CircuitInstance(_, members) => forall|i: int|
            0 <= i < members@.len() ==> is_data_value((#[trigger] members@[i]).1),
        ConstrainedValue::Array(elements) => forall|i: int|
            0 <= i < elements@.len() ==> is_data_value(#[trigger] elements@[i]),
        ConstrainedValue::Tuple(elements) => forall|i: int|
            0 <= i < elements@.len() ==> is_data_value(#[trigger] elements@[i]),
        _ => true,
    }
}

/// Structural equality of data values: the same shape, the same payloads and
/// the same constraint-system bindings.
pub open spec fn value_equal(a: ConstrainedValue, b: ConstrainedValue) -> bool
    decreases a,
{
    match (a, b) {
        (ConstrainedValue::Boolean(x), ConstrainedValue::Boolean(y)) => x == y,
        (ConstrainedValue::FieldElement(x), ConstrainedValue::FieldElement(y)) => x == y,
        (ConstrainedValue::Integer(x), ConstrainedValue::Integer(y)) => x == y,
        (ConstrainedValue::Group(x), ConstrainedValue::Group(y)) => x == y,
        (ConstrainedValue::CircuitInstance(n1, m1), ConstrainedValue::CircuitInstance(n2, m2)) =>
            n1@ == n2@ && m1@.len() == m2@.len() && forall|i: int|
                0 <= i < m1@.len() ==> (#[trigger] m1@[i]).0@ == m2@[i].0@ && value_equal(
                    m1@[i].1,
                    m2@[i].1,
                ),
        (ConstrainedValue::Array(e1), ConstrainedValue::Array(e2)) => e1@.len() == e2@.len()
            && forall|i: int|
                0 <= i < e1@.len() ==> value_equal(#[trigger] e1@[i], e2@[i]),
        (ConstrainedValue::Tuple(e1), ConstrainedValue::Tuple(e2)) => e1@.len() == e2@.len()
            && forall|i: int|
                0 <= i < e1@.len() ==> value_equal(#[trigger] e1@[i], e2@[i]),
        _ => false,
    }
}

/// Equal data values are interchangeable with respect to well-formedness.
pub proof fn lemma_value_equal_ok(a: ConstrainedValue, b: ConstrainedValue, nvars: nat)
    requires
        value_equal(a, b),
        value_ok(b, nvars),
    ensures
        value_ok(a, nvars),
    decreases a,
{
    match (a, b) {
        (ConstrainedValue::CircuitInstance(n1, m1), ConstrainedValue::CircuitInstance(n2, m2)) => {
            assert forall|i: int| 0 <= i < m1@.len() implies value_ok(
                (#[trigger] m1@[i]).1,
                nvars,
            ) by {
                lemma_value_equal_ok(m1@[i].1, m2@[i].1, nvars);
            }
        },
        (ConstrainedValue::Array(e1), ConstrainedValue::Array(e2)) => {
            assert forall|i: int| 0 <= i < e1@.len() implies value_ok(
                #[trigger] e1@[i],
                nvars,
            ) by {
                lemma_value_equal_ok(e1@[i], e2@[i], nvars);
            }
        },
        (ConstrainedValue::Tuple(e1), ConstrainedValue::Tuple(e2)) => {
            assert forall|i: int| 0 <= i < e1@.len() implies value_ok(
                #[trigger] e1@[i],
                nvars,
            ) by {
                lemma_value_equal_ok(e1@[i], e2@[i], nvars);
            }
        },
        _ => {},
    }
}

impl ConstrainedValue {
    /// A copy of a data value: the same payloads and the same bindings.
    #[verifier::loop_isolation(false)]
    pub fn duplicate(&self) -> (r: ConstrainedValue)
        requires
            is_data_value(*self),
        ensures
            value_equal(r, *self),
            is_data_value(r),
        decreases *self,
    {
        match self {
            ConstrainedValue::Boolean(b) => ConstrainedValue::Boolean(*b),
            ConstrainedValue::FieldElement(f) => ConstrainedValue::FieldElement(*f),
            ConstrainedValue::Integer(n) => ConstrainedValue::Integer(*n),
            ConstrainedValue::Group(g) => ConstrainedValue::Group(*g),
            ConstrainedValue::CircuitInstance(name, members) => {
                let mut out: Vec<(String, ConstrainedValue)> = Vec::new();
                let n = members.len();
                let mut i: usize = 0;
                while i < n
                    invariant
                        out@.len() == i,
                        0 <= i <= n,
                        forall|j: int|
                            0 <= j < i ==> (#[trigger] out@[j]).0@ == members@[j].0@ && value_equal(
                                out@[j].1,
                                members@[j].1,
                            ) && is_data_value(out@[j].1),
                    decreases n - i,
                {
                    proof {
                        assert(decreases_to!(*self => members@[i as int].1));
                    }
                    let copy = members[i].1.duplicate();
                    out.push((members[i].0.clone(), copy));
                    i = i + 1;
                }
                ConstrainedValue::CircuitInstance(name.clone(), out)
            },
            ConstrainedValue::Array(elements) => {
                ConstrainedValue::Array(duplicate_elements(elements))
            },
            ConstrainedValue::Tuple(elements) => {
                ConstrainedValue::Tuple(duplicate_elements(elements))
            },
            ConstrainedValue::Function(_, _) => {
                ConstrainedValue::Tuple(Vec::new())
            },
            ConstrainedValue::CircuitDefinition(_, _) => {
                ConstrainedValue::Tuple(Vec::new())
            },
        }
    }
}

/// Copies each element of a sequence of data values.
#[verifier::loop_isolation(false)]
fn duplicate_elements(elements: &Vec<ConstrainedValue>) -> (r: Vec<ConstrainedValue>)
    requires
        forall|i: int| 0 <= i < elements@.len() ==> is_data_value(#[trigger] elements@[i]),
    ensures
        r@.len() == elements@.len(),
        forall|i: int|
            0 <= i < elements@.len() ==> value_equal(#[trigger] r@[i], elements@[i])
                && is_data_value(r@[i]),
    decreases elements@,
{
    let mut out: Vec<ConstrainedValue> = Vec::new();
    let n = elements.len();
    let mut i: usize = 0;
    while i < n
        invariant
            out@.len() == i,
            0 <= i <= n,
            forall|j: int|
                0 <= j < i ==> value_equal(#[trigger] out@[j], elements@[j]) && is_data_value(
                    out@[j],
                ),
        decreases n - i,
    {
        proof {
            assert(decreases_to!(elements@ => elements@[i as int]));
        }
        let copy = elements[i].duplicate();
        out.push(copy);
        i = i + 1;
    }
    out
}


/// A short label for a value's kind, used in type-mismatch reports.
pub fn kind_label(v: &ConstrainedValue) -> String {
    match v {
        ConstrainedValue::Function(_, _) => <String as vstd::string::StringExecFns>::from_str(
            "function",
        ),
        ConstrainedValue::CircuitDefinition(_, _) => <String as vstd::string::StringExecFns>::from_str(
            "circuit definition",
        ),
        ConstrainedValue::CircuitInstance(_, _) => <String as vstd::string::StringExecFns>::from_str(
            "circuit instance",
        ),
        ConstrainedValue::Boolean(_) => <String as vstd::string::StringExecFns>::from_str(
            "boolean",
        ),
        ConstrainedValue::FieldElement(_) => <String as vstd::string::StringExecFns>::from_str(
            "field element",
        ),
        ConstrainedValue::Integer(_) => <String as vstd::string::StringExecFns>::from_str(
            "integer",
        ),
        ConstrainedValue::Group(_) => <String as vstd::string::StringExecFns>::from_str(
            "group element",
        ),
        ConstrainedValue::Array(_) => <String as vstd::string::StringExecFns>::from_str("array"),
        ConstrainedValue::Tuple(_) => <String as vstd::string::StringExecFns>::from_str("tuple"),
    }
}

} // verus!
