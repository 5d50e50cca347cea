use vstd::prelude::*;

verus! {

/// Failure taxonomy of the provisioning engine.
///
/// Every failure aborts the whole resolution; no partial environment is ever
/// returned. Variants carry the context a caller needs to report the failure.
#[derive(Debug)]
pub enum ChenvError {
    /// Malformed or contradictory resource declaration (for example declaring
    /// both hash kinds, or neither).
    Config(String),
    /// The dependency graph cannot be ordered; carries the names that could
    /// not be placed.
    CircularDependency(Vec<String>),
    /// A template placeholder references a name absent from the resolution
    /// context; carries the full placeholder expression.
    MissingVariable(String),
    /// A structured-value query did not yield exactly one match; carries the
    /// query expression.
    AmbiguousResolution(String),
    /// A template placeholder is opened with `${` but never closed.
    UnterminatedPlaceholder,
    /// Fetched bytes hash differently from the declared digest.
    IntegrityMismatch { url: String, computed: String, expected: String },
    /// The resource URL uses a scheme other than `file`, `http` or `https`,
    /// or does not parse as a URL at all; carries the scheme or the URL.
    UnsupportedScheme(String),
    /// The archive format was not recognized.
    UnsupportedArchiveFormat(String),
    /// A filesystem operation (create, move, copy, permission) failed.
    Filesystem(String),
    /// A transport failure or a non-success HTTP status.
    Network(String),
}

} // verus!
