use vstd::prelude::*;

verus! {

/// Failures that the library reports instead of aborting.
#[derive(Clone, Copy, Debug, PartialEq, Eq, Structural)]
pub enum SimError {
    /// The field or sub-field names designate no editable scalar.
    UnknownField,
    /// A radical or nucleus index is past the end of its list.
    IndexOutOfRange,
    /// The point count or sweep cannot hold the requested spectrum.
    DimensionMismatch,
    /// The stick-spectrum intensities exceed the range of `u64`.
    IntensityOverflow,
    /// An intensity field of the experimental text is not a number.
    MalformedRecord,
}

} // verus!
