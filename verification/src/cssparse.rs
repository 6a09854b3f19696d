use vstd::prelude::*;
use vstd::string::StringExecFns;
use crate::errors::PuhuError;

verus! {

/// What `csscolorparser` reads out of a color string: the parsed color's
/// RGBA bytes, or nothing when the string is not a CSS color. Parsing is a
/// deterministic function of the characters alone.
pub uninterp spec fn css_color_of(s: Seq<char>) -> Option<(u8, u8, u8, u8)>;

/// Relies on `csscolorparser::parse` (a pure function of the string) and
/// `Color::to_rgba8` (rounds each channel to a byte); a failed parse is
/// reported as `None`.
#[verifier::external_body]
fn css_parse_rgba(s: &str) -> (r: Option<(u8, u8, u8, u8)>)
    ensures
        r == css_color_of(s@),
{
    match csscolorparser::parse(s) {
        Ok(c) => {
            let a = c.to_rgba8();
            Some((a[0], a[1], a[2], a[3]))
        },
        Err(_) => None,
    }
}

/// A color handed to this library: a CSS color string, a single gray level,
/// an opaque RGB triple, or a full RGBA tuple.
pub enum ColorSpec {
    Name(String),
    Gray(u8),
    Rgb(u8, u8, u8),
    Rgba(u8, u8, u8, u8),
}

/// The RGBA value a color specification denotes, if any: a gray level
/// broadcasts opaquely, an RGB triple is opaque, and a string means what
/// the CSS grammar says it means.
pub open spec fn spec_parse_color(c: ColorSpec) -> Option<(u8, u8, u8, u8)> {
    match c {
        ColorSpec::Name(s) => css_color_of(s@),
        ColorSpec::Gray(v) => Some((v, v, v, 255u8)),
        ColorSpec::Rgb(r, g, b) => Some((r, g, b, 255u8)),
        ColorSpec::Rgba(r, g, b, a) => Some((r, g, b, a)),
    }
}

/// Resolve a color specification to RGBA bytes; a string that is not a CSS
/// color is rejected.
pub fn parse_color(input: &ColorSpec) -> (r: Result<(u8, u8, u8, u8), PuhuError>)
    ensures
        r is Ok <==> spec_parse_color(*input) is Some,
        r matches Ok(c) ==> spec_parse_color(*input) == Some(c),
{
    match input {
        ColorSpec::Name(s) => match css_parse_rgba(s.as_str()) {
            Some(c) => Ok(c),
            None => Err(
                PuhuError::InvalidOperation(
                    String::from_str("Invalid color string: ").concat(s.as_str()),
                ),
            ),
        },
        ColorSpec::Gray(v) => Ok((*v, *v, *v, 255)),
        ColorSpec::Rgb(r, g, b) => Ok((*r, *g, *b, 255)),
        ColorSpec::Rgba(r, g, b, a) => Ok((*r, *g, *b, *a)),
    }
}

} // verus!
