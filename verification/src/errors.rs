use vstd::prelude::*;

verus! {

/// Everything that can go wrong while building a codec or running it.
///
/// Construction-time failures (`InvalidAlphabet`, `UnknownPreset`,
/// `UnknownPaddingMode`, `InvalidWidth`) reject a whole call eagerly;
/// the remaining variants describe a single decode input.
#[derive(Clone, Copy, Debug, PartialEq, Eq, Structural)]
pub enum CodecError {
    /// The supplied symbol set is not 64 unique printable ASCII bytes,
    /// or the pad byte collides with a symbol.
    InvalidAlphabet,
    /// No preset is registered under the supplied name.
    UnknownPreset,
    /// No decode padding mode is registered under the supplied key.
    UnknownPaddingMode,
    /// A chunk width that is zero or not a multiple of four.
    InvalidWidth,
    /// A decode input byte that is neither a symbol nor the pad byte.
    InvalidCharacter,
    /// Pad bytes placed or counted in a way the configured mode rejects.
    InvalidPadding,
    /// A decode input whose symbol count leaves a single trailing symbol.
    InvalidLength,
    /// Nonzero unused bits in the final symbol while they are disallowed.
    InvalidTrailingBits,
}

impl CodecError {
    /// A short stable description, for hosts that render errors as text.
    pub fn describe(&self) -> (s: &'static str)
        ensures
            match self {
                CodecError::InvalidAlphabet => s@ == "invalid alphabet"@,
                CodecError::UnknownPreset => s@ == "unknown preset"@,
                CodecError::UnknownPaddingMode => s@ == "unknown padding mode"@,
                CodecError::InvalidWidth => s@ == "invalid chunk width"@,
                CodecError::InvalidCharacter => s@ == "invalid character"@,
                CodecError::InvalidPadding => s@ == "invalid padding"@,
                CodecError::InvalidLength => s@ == "invalid length"@,
                CodecError::InvalidTrailingBits => s@ == "invalid trailing bits"@,
            },
    {
        match self {
            CodecError::InvalidAlphabet => "invalid alphabet",
            CodecError::UnknownPreset => "unknown preset",
            CodecError::UnknownPaddingMode => "unknown padding mode",
            CodecError::InvalidWidth => "invalid chunk width",
            CodecError::InvalidCharacter => "invalid character",
            CodecError::InvalidPadding => "invalid padding",
            CodecError::InvalidLength => "invalid length",
            CodecError::InvalidTrailingBits => "invalid trailing bits",
        }
    }
}

} // verus!
