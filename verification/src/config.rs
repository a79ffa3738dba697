use vstd::prelude::*;

verus! {

/// Available encoding character sets.
#[derive(Clone, Copy, PartialEq, Eq, Structural, Debug)]
pub enum CharacterSet {
    /// The standard character set (uses `+` and `/`).
    Standard,
    /// The URL safe character set (uses `-` and `_`).
    UrlSafe,
}

/// Configuration parameters for base64 encoding.
#[derive(Clone, Copy)]
pub struct Config {
    /// Character set to use.
    pub char_set: CharacterSet,
    /// True to pad output with `=` characters.
    pub pad: bool,
    /// `Some(n)` to wrap lines at `n` characters (a wrap width of zero puts a
    /// line break before every character), `None` to disable line wrapping.
    pub line_length: Option<usize>,
}

/// The configuration for RFC 4648 standard base64 encoding: standard
/// alphabet, padding enabled, no line wrapping.
pub open spec fn spec_standard() -> Config {
    Config { char_set: CharacterSet::Standard, pad: true, line_length: None }
}

/// Returns the configuration for RFC 4648 standard base64 encoding.
pub fn standard() -> (c: Config)
    ensures
        c == spec_standard(),
{
    Config { char_set: CharacterSet::Standard, pad: true, line_length: None }
}

} // verus!
