use vstd::prelude::*;
use crate::ast::{Circuit, Expression, Function, Parameter, Statement, Type};

verus! {

/// A structural copy of a declared type.
pub fn copy_type(t: &Type) -> (r: Type)
    decreases *t,
{
    match t {
        Type::BooleanType => Type::BooleanType,
        Type::FieldType => Type::FieldType,
        Type::GroupType => Type::GroupType,
        Type::IntegerType(w) => Type::IntegerType(*w),
        Type::ArrayType(elem, len) => {
            proof {
                assert(decreases_to!(*t => **elem));
            }
            Type::ArrayType(Box::new(copy_type(elem)), *len)
        },
        Type::TupleType(types) => {
            let mut out: Vec<Type> = Vec::new();
            let n = types.len();
            let mut i: usize = 0;
            while i < n
                invariant
                    0 <= i <= n,
                    n == types@.len(),
                    t matches Type::TupleType(ts) && ts == *types,
                decreases n - i,
            {
                proof {
                    assert(decreases_to!(*t => types@[i as int]));
                }
                let e = copy_type(&types[i]);
                out.push(e);
                i = i + 1;
            }
            Type::TupleType(out)
        },
        Type::CircuitType(name) => Type::CircuitType(name.clone()),
    }
}

/// A structural copy of an expression.
pub fn copy_expression(e: &Expression) -> (r: Expression)
    decreases *e,
{
    match e {
        Expression::BoolLit(b) => Expression::BoolLit(*b),
        Expression::IntLit(w, v) => Expression::IntLit(*w, *v),
        Expression::FieldLit(v) => Expression::FieldLit(*v),
        Expression::Ident(n) => Expression::Ident(n.clone()),
        Expression::Add(a, b) => {
            proof {
                assert(decreases_to!(*e => **a));
                assert(decreases_to!(*e => **b));
            }
            Expression::Add(Box::new(copy_expression(a)), Box::new(copy_expression(b)))
        },
        Expression::Mul(a, b) => {
            proof {
                assert(decreases_to!(*e => **a));
                assert(decreases_to!(*e => **b));
            }
            Expression::Mul(Box::new(copy_expression(a)), Box::new(copy_expression(b)))
        },
        Expression::Equal(a, b) => {
            proof {
                assert(decreases_to!(*e => **a));
                assert(decreases_to!(*e => **b));
            }
            Expression::Equal(Box::new(copy_expression(a)), Box::new(copy_expression(b)))
        },
        Expression::Conditional(c, a, b) => {
            proof {
                assert(decreases_to!(*e => **c));
                assert(decreases_to!(*e => **a));
                assert(decreases_to!(*e => **b));
            }
            Expression::Conditional(
                Box::new(copy_expression(c)),
                Box::new(copy_expression(a)),
                Box::new(copy_expression(b)),
            )
        },
        Expression::Call(scope, name, args) => {
            let copied_scope = match scope {
                Some(s) => Some(s.clone()),
                None => None,
            };
            let mut out: Vec<Expression> = Vec::new();
            let n = args.len();
            let mut i: usize = 0;
            while i < n
                invariant
                    0 <= i <= n,
                    n == args@.len(),
                    e matches Expression::Call(_, _, a) && a == *args,
                decreases n - i,
            {
                proof {
                    assert(decreases_to!(*e => args@[i as int]));
                }
                let a = copy_expression(&args[i]);
                out.push(a);
                i = i + 1;
            }
            Expression::Call(copied_scope, name.clone(), out)
        },
        Expression::CircuitInit(name, members) => {
            let mut out: Vec<(String, Expression)> = Vec::new();
            let n = members.len();
            let mut i: usize = 0;
            while i < n
                invariant
                    0 <= i <= n,
                    n == members@.len(),
                    e matches Expression::CircuitInit(_, m) && m == *members,
                decreases n - i,
            {
                proof {
                    assert(decreases_to!(*e => members@[i as int].1));
                }
                let m = copy_expression(&members[i].1);
                out.push((members[i].0.clone(), m));
                i = i + 1;
            }
            Expression::CircuitInit(name.clone(), out)
        },
        Expression::Member(inner, name) => {
            proof {
                assert(decreases_to!(*e => **inner));
            }
            Expression::Member(Box::new(copy_expression(inner)), name.clone())
        },
    }
}

/// A structural copy of a statement; it keeps the statement's kind.
pub fn copy_statement(s: &Statement) -> (r: Statement)
    ensures
        (r is Assertion) == (*s is Assertion),
{
    match s {
        Statement::Definition(n, e) => Statement::Definition(n.clone(), copy_expression(e)),
        Statement::Assertion(e) => Statement::Assertion(copy_expression(e)),
        Statement::Return(e) => Statement::Return(copy_expression(e)),
    }
}

/// A structural copy of a parameter declaration.
pub fn copy_parameter(p: &Parameter) -> (r: Parameter)
    ensures
        r.identifier@ == p.identifier@,
{
    Parameter { identifier: p.identifier.clone(), ty: copy_type(&p.ty) }
}

/// A structural copy of a function declaration; it keeps the declared name.
pub fn copy_function(f: &Function) -> (r: Function)
    ensures
        r.identifier@ == f.identifier@,
        r.body@.len() == f.body@.len(),
        forall|i: int|
            0 <= i < r.body@.len() ==> ((#[trigger] r.body@[i]) is Assertion) == (f.body@[i]
                is Assertion),
{
    let mut parameters: Vec<Parameter> = Vec::new();
    let np = f.parameters.len();
    let mut i: usize = 0;
    while i < np
        invariant
            0 <= i <= np,
            np == f.parameters@.len(),
        decreases np - i,
    {
        let p = copy_parameter(&f.parameters[i]);
        parameters.push(p);
        i = i + 1;
    }
    let return_type = match &f.return_type {
        Some(t) => Some(copy_type(t)),
        None => None,
    };
    let mut body: Vec<Statement> = Vec::new();
    let nb = f.body.len();
    let mut j: usize = 0;
    while j < nb
        invariant
            0 <= j <= nb,
            nb == f.body@.len(),
            body@.len() == j,
            forall|i: int|
                0 <= i < j ==> ((#[trigger] body@[i]) is Assertion) == (f.body@[i] is Assertion),
        decreases nb - j,
    {
        let st = copy_statement(&f.body[j]);
        body.push(st);
        j = j + 1;
    }
    Function { identifier: f.identifier.clone(), parameters, return_type, body }
}

/// A structural copy of a circuit declaration; it keeps the declared name.
pub fn copy_circuit(c: &Circuit) -> (r: Circuit)
    ensures
        r.identifier@ == c.identifier@,
{
    let mut members: Vec<Parameter> = Vec::new();
    let n = c.members.len();
    let mut i: usize = 0;
    while i < n
        invariant
            0 <= i <= n,
            n == c.members@.len(),
        decreases n - i,
    {
        let m = copy_parameter(&c.members[i]);
        members.push(m);
        i = i + 1;
    }
    Circuit { identifier: c.identifier.clone(), members }
}

} // verus!
