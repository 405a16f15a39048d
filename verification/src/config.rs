use crate::alphabet::str_eq;
use crate::errors::CodecError;
use vstd::prelude::*;

verus! {

/// How strictly decoding treats pad bytes at the end of the input.
#[derive(Clone, Copy, Debug, PartialEq, Eq, Structural)]
pub enum PaddingMode {
    /// Padding may be present or absent; only its placement is checked.
    Indifferent,
    /// Exactly the minimal padding for the data length must be present.
    RequireCanonical,
    /// No pad byte may appear at all.
    RequireNone,
}

/// The padding policy bundle an engine runs under.
#[derive(Clone, Copy, Debug, PartialEq, Eq, Structural)]
pub struct Config {
    /// Append pad bytes on encode so the output length is a multiple of 4.
    pub encode_padding: bool,
    /// Accept a final symbol whose unused low bits are nonzero.
    pub decode_allow_trailing_bits: bool,
    /// The padding strictness applied on decode.
    pub decode_padding_mode: PaddingMode,
}

impl Config {
    /// Bundles the three policy choices; every combination is legal.
    pub fn build(
        encode_padding: bool,
        decode_allow_trailing_bits: bool,
        decode_padding_mode: PaddingMode,
    ) -> (c: Config)
        ensures
            c.encode_padding == encode_padding,
            c.decode_allow_trailing_bits == decode_allow_trailing_bits,
            c.decode_padding_mode == decode_padding_mode,
    {
        Config { encode_padding, decode_allow_trailing_bits, decode_padding_mode }
    }

    /// The configuration most callers expect: padded output, strict decode.
    pub fn standard() -> (c: Config)
        ensures
            c.encode_padding == true,
            c.decode_allow_trailing_bits == false,
            c.decode_padding_mode == PaddingMode::RequireCanonical,
    {
        Config {
            encode_padding: true,
            decode_allow_trailing_bits: false,
            decode_padding_mode: PaddingMode::RequireCanonical,
        }
    }

    /// The unpadded variant: no padding emitted, none accepted.
    pub fn no_pad() -> (c: Config)
        ensures
            c.encode_padding == false,
            c.decode_allow_trailing_bits == false,
            c.decode_padding_mode == PaddingMode::RequireNone,
    {
        Config {
            encode_padding: false,
            decode_allow_trailing_bits: false,
            decode_padding_mode: PaddingMode::RequireNone,
        }
    }
}

/// Looks a decode padding mode up by its key.
///
/// The known keys are `indifferent`, `canonical` and `none`; any other
/// key fails with `UnknownPaddingMode`.
pub fn padding_mode_from_key(key: &str) -> (r: Result<PaddingMode, CodecError>)
    ensures
        key@ == "indifferent"@ ==> r == Ok::<PaddingMode, CodecError>(PaddingMode::Indifferent),
        key@ == "canonical"@ ==> r == Ok::<PaddingMode, CodecError>(PaddingMode::RequireCanonical),
        key@ == "none"@ ==> r == Ok::<PaddingMode, CodecError>(PaddingMode::RequireNone),
        key@ != "indifferent"@ && key@ != "canonical"@ && key@ != "none"@ ==> r == Err::<
            PaddingMode,
            CodecError,
        >(CodecError::UnknownPaddingMode),
{
    proof {
        assert("indifferent"@ != "canonical"@ && "indifferent"@ != "none"@ && "canonical"@
            != "none"@) by {
            reveal_strlit("indifferent");
            reveal_strlit("canonical");
            reveal_strlit("none");
            assert("indifferent"@.len() != "canonical"@.len());
            assert("indifferent"@.len() != "none"@.len());
            assert("canonical"@.len() != "none"@.len());
        }
    }
    if str_eq(key, "indifferent") {
        Ok(PaddingMode::Indifferent)
    } else if str_eq(key, "canonical") {
        Ok(PaddingMode::RequireCanonical)
    } else if str_eq(key, "none") {
        Ok(PaddingMode::RequireNone)
    } else {
        Err(CodecError::UnknownPaddingMode)
    }
}

} // verus!
