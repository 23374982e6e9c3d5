use vstd::prelude::*;
use crate::text::lemma_split_single;
use crate::text::split;
use crate::text::split_str;

verus! {

/// Why a value of the configuration cannot be used.
#[derive(Debug, Clone, Copy, PartialEq, Eq, Structural)]
pub enum ConfigError {
    /// A font is given as its family, a colon and its size, and the colon is missing.
    WrongFontFormat,
}

/// A font as the configuration names it: its family, and its size as it is written.
#[derive(Debug, Clone, PartialEq, Eq)]
pub struct FontSpec {
    pub family: String,
    pub size: String,
}

/// Reads a font given as `family:size`: the family is what stands before the first
/// colon, the size what stands between the first colon and the second, or the end.
pub fn parse_font_spec(f: &str) -> (result: Result<FontSpec, ConfigError>)
    ensures
        match result {
            Ok(font) => {
                &&& f@.contains(':')
                &&& font.family@ == split(f@, ':')[0]
                &&& font.size@ == split(f@, ':')[1]
            },
            Err(ConfigError::WrongFontFormat) => !f@.contains(':'),
        },
{
    let parts = split_str(f, ':');
    proof {
        lemma_split_single(f@, ':');
    }
    if parts.len() < 2 {
        return Err(ConfigError::WrongFontFormat);
    }
    Ok(FontSpec { family: parts[0].clone(), size: parts[1].clone() })
}

} // verus!
