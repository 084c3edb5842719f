//! How directly a call's argument traces back to editable source.

use vstd::prelude::*;

verus! {

/// How directly an argument traces back to something an editor may rewrite.
#[derive(Debug, Clone, Copy, PartialEq, Eq, Structural)]
pub enum ArgKind {
    /// The argument is a literal in the call: the safest thing to edit.
    Literal,
    /// The argument is a name that resolves to a literal elsewhere; editable,
    /// but the definition may feed other calls.
    Binding,
    /// The argument is computed; not rewritable by editing one number.
    Computed,
}

} // verus!
