use crate::errors::ChenvError;
use crate::strutil::split_on;
use crate::strutil::split_on_exec;
use crate::value::query_from;
use crate::value::val_to_display;
use crate::value::ValModel;
use crate::value::Value;
use vstd::prelude::*;

verus! {

/// The resolved, immutable value produced by materializing a resource: either
/// a plain string or a structured value. Read-only to every consumer.
pub struct Substrate(Value);

impl View for Substrate {
    type V = ValModel;

    closed spec fn view(&self) -> ValModel {
        self.0@
    }
}

/// What a dotted-path query against a substrate yields: the display text of
/// the unique match, or nothing.
pub open spec fn resolve_model(m: ValModel, path: Seq<char>) -> Option<Seq<char>> {
    match query_from(m, split_on(path, '.'), 0) {
        Some(v) => Some(val_to_display(v)),
        None => None,
    }
}

impl Substrate {
    /// A substrate wrapping a plain string.
    pub fn new(s: String) -> (r: Substrate)
        ensures
            r@ == ValModel::Str(s@),
    {
        Substrate(Value::Str(s))
    }

    /// A substrate wrapping a structured value.
    pub fn from_value(v: Value) -> (r: Substrate)
        ensures
            r@ == v@,
    {
        Substrate(v)
    }

    /// The bare string if the wrapped value is one, otherwise the canonical
    /// serialization of the structured value.
    pub fn to_string(&self) -> (r: String)
        ensures
            r@ == val_to_display(self@),
    {
        self.0.to_display()
    }

    /// Evaluates a minimal dotted field/index path against the wrapped value.
    /// Succeeds exactly when the path reaches a value; anything else is an
    /// ambiguous access and fails rather than guessing.
    pub fn resolve(&self, path: &str) -> (r: Result<String, ChenvError>)
        ensures
            match r {
                Ok(out) => resolve_model(self@, path@) == Some(out@),
                Err(e) => {
                    &&& resolve_model(self@, path@) is None
                    &&& e matches ChenvError::AmbiguousResolution(p) && p@ == path@
                },
            },
    {
        let segs = split_on_exec(path, '.');
        match self.0.query(&segs) {
            Some(v) => Ok(v.to_display()),
            None => Err(ChenvError::AmbiguousResolution(path.to_owned())),
        }
    }
}

} // verus!
