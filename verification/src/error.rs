use vstd::prelude::*;

verus! {

/// Why a codec did not produce a value.
#[derive(Clone, Copy, Debug, PartialEq, Eq, Structural)]
pub enum ParseError {
    /// The input does not begin a value of the attempted kind.
    NotMatched,
    /// The input began as a value but broke the grammar or the record layout.
    Malformed,
    /// The input uses a feature that is out of scope: an exponent, an escape
    /// other than `\n`, `\t`, `\\` and `\uXXXX`, a surrogate code point.
    Unsupported,
    /// A length or a number does not fit the field that has to hold it.
    Overflow,
}

/// Inside a container a value is owed, so its absence breaks the grammar.
pub open spec fn fatal(e: ParseError) -> ParseError {
    if e == ParseError::NotMatched {
        ParseError::Malformed
    } else {
        e
    }
}

/// Executable form of [`fatal`].
pub fn make_fatal(e: ParseError) -> (r: ParseError)
    ensures
        r == fatal(e),
{
    match e {
        ParseError::NotMatched => ParseError::Malformed,
        other => other,
    }
}

} // verus!
