//! Why a binding's value could not be read without running the program.

use vstd::prelude::*;
use crate::text::{push_str, string_from};

verus! {

/// Why a static read failed. A caller reacts differently to each: a parse
/// failure is a broken file, a missing name usually means "fall back to the
/// default", and a non-static binding is a real value the caller simply
/// can't read without running the program.
#[derive(Debug, Clone)]
pub enum StaticValueError {
    /// The source didn't parse; wraps the parse error message.
    Parse(String),
    /// No top-level binding of this name exists in the source.
    NotFound { name: String },
    /// The name is bound, but its value isn't statically known.
    NotStatic { name: String, reason: String },
}

/// How a [`StaticValueError`] reads.
pub open spec fn message_spec(e: StaticValueError) -> Seq<char> {
    match e {
        StaticValueError::Parse(msg) => "source did not parse: "@ + msg@,
        StaticValueError::NotFound { name } => "no top-level binding for `"@ + name@ + "`"@,
        StaticValueError::NotStatic { name, reason } => "`"@ + name@ + "` is not a static value: "@ + reason@,
    }
}

impl StaticValueError {
    /// The error as a reader sees it.
    pub fn message(&self) -> (r: String)
        ensures
            r@ == message_spec(*self),
    {
        match self {
            StaticValueError::Parse(msg) => {
                let mut s = string_from("source did not parse: ");
                push_str(&mut s, msg.as_str());
                s
            },
            StaticValueError::NotFound { name } => {
                let mut s = string_from("no top-level binding for `");
                push_str(&mut s, name.as_str());
                push_str(&mut s, "`");
                s
            },
            StaticValueError::NotStatic { name, reason } => {
                let mut s = string_from("`");
                push_str(&mut s, name.as_str());
                push_str(&mut s, "` is not a static value: ");
                push_str(&mut s, reason.as_str());
                s
            },
        }
    }
}

} // verus!
