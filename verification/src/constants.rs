//! Constants of the formatter.
use vstd::prelude::*;

verus! {

/// Base IRI used when parsing if no base is set, and removed again when
/// formatting.
///
/// It lets relative IRIs in documents without a base parse, and come out as
/// relative IRIs again. The value only has to be a valid IRI that ends in
/// `/` or `#` and that no real document is likely to use.
pub const SUBSTITUTE_BASE: &'static str = "http://a1234567890.substitute.base/";

} // verus!
