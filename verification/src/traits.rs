//! What can be parsed from bytes, streamed to bytes, or converted.
use vstd::prelude::*;
use crate::error::ParseError;

verus! {

/// `r`, the result of parsing `input`, is what `spec` says: on success the
/// value (by its view) and the rest of the input after the `n` bytes used.
pub open spec fn parsed<T: View>(
    input: Seq<u8>,
    r: Result<(T, &[u8]), ParseError>,
    spec: Result<(T::V, nat), ParseError>,
) -> bool {
    match r {
        Ok((v, rest)) => match spec {
            Ok((w, n)) => v@ == w && n <= input.len() && rest@ == input.skip(n as int),
            Err(_) => false,
        },
        Err(e) => spec == Err::<(T::V, nat), ParseError>(e),
    }
}

/// A value that can be parsed from the front of a byte slice.
pub trait Parsable: Sized + View {
    /// What parsing `input` gives: the value and the number of bytes it
    /// used, or the error.
    spec fn spec_parse(input: Seq<u8>) -> Result<(Self::V, nat), ParseError>;

    /// Parses a value from the front of `input`, and returns it with the rest
    /// of the input.
    fn parse(input: &[u8]) -> (r: Result<(Self, &[u8]), ParseError>)
        ensures
            parsed(input@, r, Self::spec_parse(input@)),
    ;
}

/// A value that can be written out as bytes.
pub trait Streamable: View {
    /// The bytes that a value with view `v` is written as.
    spec fn spec_stream(v: Self::V) -> Seq<u8>;

    /// Appends the value's bytes to `out` and returns how many there are.
    fn stream(&self, out: &mut Vec<u8>) -> (n: usize)
        ensures
            final(out)@ == old(out)@ + Self::spec_stream(self@),
            n == Self::spec_stream(self@).len(),
    ;
}

/// A conversion that may fail.
pub trait TryFrom<T>: Sized + View {
    type Err;

    /// What converting `input` gives: the view of the value, or the error.
    spec fn spec_try_from(input: T) -> Result<Self::V, Self::Err>;

    fn try_from(input: T) -> (r: Result<Self, Self::Err>)
        ensures
            match r {
                Ok(v) => Self::spec_try_from(input) == Ok::<Self::V, Self::Err>(v@),
                Err(e) => Self::spec_try_from(input) == Err::<Self::V, Self::Err>(e),
            },
    ;
}

} // verus!
