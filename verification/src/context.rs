//! The state that the encoder carries along.
use vstd::prelude::*;

verus! {

/// Current state of the encoder.
pub struct Context {
    /// The indentation in force, as text: the indentation unit once per
    /// nesting level.
    pub indent: String,
    /// What has been written so far.
    pub output: String,
}

impl Context {
    /// A context with no indentation and nothing written.
    pub fn new() -> (r: Self)
        ensures
            r.indent@ == Seq::<char>::empty(),
            r.output@ == Seq::<char>::empty(),
    {
        Context { indent: String::new(), output: String::new() }
    }
}

impl Default for Context {
    fn default() -> (r: Self)
        ensures
            r.indent@ == Seq::<char>::empty(),
            r.output@ == Seq::<char>::empty(),
    {
        Self::new()
    }
}

} // verus!
