//! The library's error type.

use vstd::prelude::*;

verus! {

/// Which part of the engine an error comes from.
#[derive(Debug, Clone, Copy, PartialEq, Eq, Structural)]
pub enum ErrorKind {
    /// Graph definition.
    Graph,
    /// Compilation.
    Compile,
    /// A node.
    Node,
    /// The node registry.
    Registry,
    /// The runtime.
    Runtime,
    /// Patch application.
    Patch,
    /// The pin store.
    Storage,
    /// The server layer.
    Server,
}

/// The engine's error: a kind, a stable code and a human-readable message.
#[derive(Debug)]
pub struct AqueductError {
    kind: ErrorKind,
    code: &'static str,
    message: String,
}

/// The engine's result type.
pub type AqueductResult<T> = Result<T, AqueductError>;

impl AqueductError {
    /// The error's kind.
    pub closed spec fn spec_kind(&self) -> ErrorKind {
        self.kind
    }

    /// The error's code.
    pub closed spec fn spec_code(&self) -> &'static str {
        self.code
    }

    /// The error's message.
    pub closed spec fn spec_message(&self) -> Seq<char> {
        self.message@
    }

    /// Makes an error.
    pub fn new(kind: ErrorKind, code: &'static str, message: String) -> (r: Self)
        ensures
            r.spec_kind() == kind,
            r.spec_code() == code,
            r.spec_message() == message@,
    {
        AqueductError { kind, code, message }
    }

    /// The error's kind.
    pub fn kind(&self) -> (r: ErrorKind)
        ensures
            r == self.spec_kind(),
    {
        self.kind
    }

    /// The error's code.
    pub fn code(&self) -> (r: &'static str)
        ensures
            r == self.spec_code(),
    {
        self.code
    }

    /// The error's message.
    pub fn message(&self) -> (r: &str)
        ensures
            r@ == self.spec_message(),
    {
        self.message.as_str()
    }

    /// The text `code: message`, as the error is displayed.
    pub fn to_text(&self) -> (r: String)
        ensures
            r@ == self.spec_code()@ + ": "@ + self.spec_message(),
    {
        let mut text = String::from_str(self.code);
        text.append(": ");
        text.append(self.message.as_str());
        text
    }
}

/// `a` followed by `b`.
pub fn concat2(a: &str, b: &str) -> (r: String)
    ensures
        r@ == a@ + b@,
{
    let mut text = String::from_str(a);
    text.append(b);
    text
}

/// `a`, `b` and `c` one after the other.
pub fn concat3(a: &str, b: &str, c: &str) -> (r: String)
    ensures
        r@ == a@ + b@ + c@,
{
    let mut text = String::from_str(a);
    text.append(b);
    text.append(c);
    text
}

/// `a` to `e` one after the other.
pub fn concat5(a: &str, b: &str, c: &str, d: &str, e: &str) -> (r: String)
    ensures
        r@ == a@ + b@ + c@ + d@ + e@,
{
    let mut text = String::from_str(a);
    text.append(b);
    text.append(c);
    text.append(d);
    text.append(e);
    text
}

} // verus!
