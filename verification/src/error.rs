//! Error kinds and the library's error value.
use vstd::prelude::*;

verus! {

/// The category of a [`LinderaError`].
#[derive(Debug, Clone, Copy, PartialEq, Eq, Structural)]
pub enum LinderaErrorKind {
    Args,
    Content,
    Decode,
    Deserialize,
    Io,
    Parse,
    Serialize,
    Compress,
    Decompress,
    NotFound,
    Load,
    Build,
    Dictionary,
    Source,
    Mode,
    Token,
    Algorithm,
}

impl LinderaErrorKind {
    /// Wraps a message describing the cause into an error of this kind.
    pub fn with_error(self, source: String) -> (r: LinderaError)
        ensures
            r.kind == self,
            r.source@ == source@,
            r.context@ == Seq::<String>::empty(),
    {
        LinderaError { kind: self, source, context: Vec::new() }
    }
}

/// An error: its kind, the message of its cause, and the contexts added on
/// the way up, innermost first.
#[derive(Debug, Clone)]
pub struct LinderaError {
    pub kind: LinderaErrorKind,
    pub source: String,
    pub context: Vec<String>,
}

impl LinderaError {
    /// Adds a context message on top of this error; the kind and the cause
    /// stay as they were.
    pub fn add_context(self, ctx: String) -> (r: Self)
        ensures
            r.kind == self.kind,
            r.source@ == self.source@,
            r.context@ == self.context@.push(ctx),
    {
        let mut context = self.context;
        context.push(ctx);
        LinderaError { kind: self.kind, source: self.source, context }
    }

    /// The kind of this error.
    pub fn kind(&self) -> (r: LinderaErrorKind)
        ensures
            r == self.kind,
    {
        self.kind
    }
}

/// Builds an error of `kind` from a static message.
pub fn error_of(kind: LinderaErrorKind, message: &str) -> (r: LinderaError)
    ensures
        r.kind == kind,
        r.source@ == message@,
{
    kind.with_error(message.to_owned())
}

} // verus!
