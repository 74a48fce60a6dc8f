use vstd::prelude::*;
use crate::scope::is_valid_name;

verus! {

/// The declared type of a parameter, a circuit member or a return value.
#[derive(Debug)]
pub enum Type {
    BooleanType,
    FieldType,
    GroupType,
    /// An unsigned integer of the given bit width.
    IntegerType(u32),
    /// A fixed-length array of one element type.
    ArrayType(Box<Type>, usize),
    TupleType(Vec<Type>),
    /// An instance of the named circuit (struct) type.
    CircuitType(String),
}

/// An expression of a function body.  Arithmetic and comparison are
/// translated into field constraints; branching is translated into a
/// selection constraint when the condition is not a compile-time constant.
#[derive(Debug)]
pub enum Expression {
    BoolLit(bool),
    /// An unsigned integer literal of a given bit width.
    IntLit(u32, u64),
    FieldLit(u64),
    /// A reference to a local variable or parameter.
    Ident(String),
    Add(Box<Expression>, Box<Expression>),
    Mul(Box<Expression>, Box<Expression>),
    Equal(Box<Expression>, Box<Expression>),
    /// `if condition { first } else { second }`, evaluated as a selection.
    Conditional(Box<Expression>, Box<Expression>, Box<Expression>),
    /// A call of `scope::name` (or of `name` in the caller's own scope when
    /// no explicit scope is given).
    Call(Option<String>, String, Vec<Expression>),
    /// Instantiation of the named circuit type with one value per member.
    CircuitInit(String, Vec<(String, Expression)>),
    /// Access of one member of a circuit instance.
    Member(Box<Expression>, String),
}

/// A statement of a function body, executed in program order.
#[derive(Debug)]
pub enum Statement {
    /// Binds the value of the expression to a local name.
    Definition(String, Expression),
    /// Constrains the (boolean) expression to hold in the constraint system.
    Assertion(Expression),
    /// Ends evaluation with the value of the expression.
    Return(Expression),
}

/// A declared parameter: its local name and declared type.
#[derive(Debug)]
pub struct Parameter {
    pub identifier: String,
    pub ty: Type,
}

/// A function declaration.
#[derive(Debug)]
pub struct Function {
    pub identifier: String,
    pub parameters: Vec<Parameter>,
    pub return_type: Option<Type>,
    pub body: Vec<Statement>,
}

/// A circuit (struct) type declaration: a name and typed members.
#[derive(Debug)]
pub struct Circuit {
    pub identifier: String,
    pub members: Vec<Parameter>,
}

/// An embedded test function, run by the harness under its own isolated
/// constraint system.
#[derive(Debug)]
pub struct TestFunction(pub Function);

/// A parsed program: its identity, its imports and its declarations.
/// Immutable once produced by the external parser.
#[derive(Debug)]
pub struct Program {
    pub name: String,
    pub imports: Vec<String>,
    pub circuits: Vec<Circuit>,
    pub functions: Vec<Function>,
    pub tests: Vec<TestFunction>,
}

impl Program {
    pub fn get_name(&self) -> (r: &String)
        ensures
            r@ == self.name@,
    {
        &self.name
    }

    /// Whether the program declares a local function of the given name.
    pub open spec fn declares_function(self, name: Seq<char>) -> bool {
        exists|i: int|
            0 <= i < self.functions@.len() && (#[trigger] self.functions@[i]).identifier@ == name
    }

    /// Whether the program declares a local circuit type of the given name.
    pub open spec fn declares_circuit(self, name: Seq<char>) -> bool {
        exists|i: int|
            0 <= i < self.circuits@.len() && (#[trigger] self.circuits@[i]).identifier@ == name
    }

    /// Names fit for qualification: neither the program's identity nor any
    /// declared symbol name contains the reserved scope separator.
    pub open spec fn wf(self) -> bool {
        &&& is_valid_name(self.name@)
        &&& forall|i: int|
            0 <= i < self.functions@.len() ==> is_valid_name(
                (#[trigger] self.functions@[i]).identifier@,
            )
        &&& forall|i: int|
            0 <= i < self.circuits@.len() ==> is_valid_name(
                (#[trigger] self.circuits@[i]).identifier@,
            )
        &&& forall|i: int|
            0 <= i < self.tests@.len() ==> is_valid_name((#[trigger] self.tests@[i]).0.identifier@)
    }
}

/// One caller-supplied input assignment: the entry parameter it binds, its
/// visibility in the constraint system, and its typed value.
#[derive(Debug)]
pub struct InputEntry {
    pub name: String,
    pub visibility: crate::r1cs::Visibility,
    pub value: InputValue,
}

/// A typed input value, matched against the entry function's declared
/// parameter types.
#[derive(Clone, Copy, Debug)]
pub enum InputValue {
    Boolean(bool),
    Field(u64),
    Group(u64, u64),
    /// Bit width and value.
    Integer(u32, u64),
}

/// The named collection of input assignments for one invocation; cloned per
/// test run.
#[derive(Debug)]
pub struct Input {
    pub entries: Vec<InputEntry>,
}

/// The external import parser's answers: a mapping from import path to the
/// fully parsed imported program.
#[derive(Debug)]
pub struct ImportParser {
    pub programs: Vec<(String, Program)>,
}

impl ImportParser {
    /// A mapping: every import path occurs once, and every program it can
    /// hand out is itself well-formed.
    pub open spec fn wf(self) -> bool {
        &&& forall|i: int| 0 <= i < self.programs@.len() ==> (#[trigger] self.programs@[i]).1.wf()
        &&& forall|i: int, j: int|
            0 <= i < j < self.programs@.len() ==> (#[trigger] self.programs@[i]).0@ != (
            #[trigger] self.programs@[j]).0@
    }

    pub open spec fn contains_path(self, path: Seq<char>) -> bool {
        exists|i: int|
            0 <= i < self.programs@.len() && (#[trigger] self.programs@[i]).0@ == path
    }

    /// The program this parser maps the given path to.
    pub open spec fn program_at(self, path: Seq<char>) -> Program {
        self.programs@[choose|i: int|
            0 <= i < self.programs@.len() && (#[trigger] self.programs@[i]).0@ == path].1
    }

    /// The set of names of programs the parser can hand out, plus one root
    /// name; the import recursion never holds more resolved names than this.
    pub open spec fn program_names(self) -> Set<Seq<char>> {
        self.programs@.map_values(|pp: (String, Program)| pp.1.name@).to_set()
    }

    /// Maps an import path to its parsed program, or reports that the path
    /// cannot be resolved.
    pub fn resolve(&self, path: &String) -> (r: Option<&Program>)
        requires
            self.wf(),
        ensures
            match r {
                Some(p) => self.contains_path(path@) && *p == self.program_at(path@),
                None => !self.contains_path(path@),
            },
    {
        let n = self.programs.len();
        let mut i: usize = 0;
        while i < n
            invariant
                self.wf(),
                n == self.programs@.len(),
                0 <= i <= n,
                forall|j: int| 0 <= j < i ==> (#[trigger] self.programs@[j]).0@ != path@,
            decreases n - i,
        {
            if self.programs[i].0 == *path {
                proof {
                    let w = choose|w: int|
                        0 <= w < self.programs@.len() && (#[trigger] self.programs@[w]).0@
                            == path@;
                    assert(w == i);
                }
                return Some(&self.programs[i].1);
            }
            i = i + 1;
        }
        None
    }
}

} // verus!
