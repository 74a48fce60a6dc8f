use vstd::prelude::*;

verus! {

/// Errors raised while synthesizing constraints for a program.
#[derive(Clone, Debug, PartialEq, Eq)]
pub enum CompilerError {
    /// The resolved symbol table holds no entry under the program's `main` key.
    NoMain,
    /// The symbol stored under the entry name is not a function.
    NoMainFunction,
    /// Two definitions resolved to the same qualified name.
    DuplicateDefinition(String),
    /// An import path that the import parser cannot map to a program.
    UnresolvedImport(String),
    /// A value of one kind appeared where another kind was declared or required.
    TypeMismatch(String),
    /// An operation the engine does not translate into constraints.
    UnsupportedOperation(String),
    /// The call graph (or import graph) revisits a definition currently being expanded.
    CyclicCallGraph(String),
}

impl CompilerError {
    /// True exactly for the errors that definition resolution can raise;
    /// per-test evaluation failures are never of this shape alone.
    pub open spec fn is_resolution_error(self) -> bool {
        match self {
            CompilerError::DuplicateDefinition(_) => true,
            CompilerError::UnresolvedImport(_) => true,
            CompilerError::CyclicCallGraph(_) => true,
            _ => false,
        }
    }

    /// A human-readable report of the error, with its payload appended.
    pub fn message(&self) -> (r: String)
        ensures
            self is NoMain ==> r@ == "program has no main function"@,
            self is NoMainFunction ==> r@ == "the main symbol is not a function"@,
            self matches CompilerError::DuplicateDefinition(s) ==> r@ == "duplicate definition: "@
                + s@,
            self matches CompilerError::UnresolvedImport(s) ==> r@ == "unresolved import: "@ + s@,
            self matches CompilerError::TypeMismatch(s) ==> r@ == "type mismatch: "@ + s@,
            self matches CompilerError::UnsupportedOperation(s) ==> r@
                == "unsupported operation: "@ + s@,
            self matches CompilerError::CyclicCallGraph(s) ==> r@ == "cyclic call graph at: "@
                + s@,
    {
        let label: &str = match self {
            CompilerError::NoMain => "program has no main function",
            CompilerError::NoMainFunction => "the main symbol is not a function",
            CompilerError::DuplicateDefinition(_) => "duplicate definition: ",
            CompilerError::UnresolvedImport(_) => "unresolved import: ",
            CompilerError::TypeMismatch(_) => "type mismatch: ",
            CompilerError::UnsupportedOperation(_) => "unsupported operation: ",
            CompilerError::CyclicCallGraph(_) => "cyclic call graph at: ",
        };
        let head = <String as vstd::string::StringExecFns>::from_str(label);
        match self {
            CompilerError::DuplicateDefinition(s) => head.concat(s.as_str()),
            CompilerError::UnresolvedImport(s) => head.concat(s.as_str()),
            CompilerError::TypeMismatch(s) => head.concat(s.as_str()),
            CompilerError::UnsupportedOperation(s) => head.concat(s.as_str()),
            CompilerError::CyclicCallGraph(s) => head.concat(s.as_str()),
            _ => head,
        }
    }
}

} // verus!
