//! The header block variant: display text together with a heading level.

use vstd::prelude::*;

verus! {

/// The canonical tag string of the header variant.
pub open spec fn header_tag() -> Seq<char> {
    "header"@
}

/// Mathematical model of a header payload.
#[verifier::ext_equal]
pub ghost struct HeaderDataV {
    pub text: Seq<char>,
    pub level: u8,
}

/// Payload of a header block: display text and a heading level.
#[derive(Clone, Debug, PartialEq, Eq)]
pub struct HeaderData {
    pub(crate) text: String,
    pub(crate) level: u8,
}

impl View for HeaderData {
    type V = HeaderDataV;

    closed spec fn view(&self) -> HeaderDataV {
        HeaderDataV { text: self.text@, level: self.level }
    }
}

impl HeaderData {
    pub fn new(text: String, level: u8) -> (r: Self)
        ensures
            r@.text == text@,
            r@.level == level,
    {
        HeaderData { text, level }
    }

    /// The display text of this header.
    pub fn text(&self) -> (r: &str)
        ensures
            r@ == self@.text,
    {
        self.text.as_str()
    }

    /// The heading level of this header.
    pub fn level(&self) -> (r: u8)
        ensures
            r == self@.level,
    {
        self.level
    }
}

} // verus!
