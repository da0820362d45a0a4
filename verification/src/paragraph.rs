//! The paragraph block variant: a single run of display text.

use vstd::prelude::*;

verus! {

/// The canonical tag string of the paragraph variant.
pub open spec fn paragraph_tag() -> Seq<char> {
    "paragraph"@
}

/// Mathematical model of a paragraph payload.
#[verifier::ext_equal]
pub ghost struct ParagraphDataV {
    pub text: Seq<char>,
}

/// Payload of a paragraph block: its display text.
#[derive(Clone, Debug, PartialEq, Eq)]
pub struct ParagraphData {
    pub(crate) text: String,
}

impl View for ParagraphData {
    type V = ParagraphDataV;

    closed spec fn view(&self) -> ParagraphDataV {
        ParagraphDataV { text: self.text@ }
    }
}

impl ParagraphData {
    pub fn new(text: String) -> (r: Self)
        ensures
            r@.text == text@,
    {
        ParagraphData { text }
    }

    /// The display text of this paragraph.
    pub fn text(&self) -> (r: &str)
        ensures
            r@ == self@.text,
    {
        self.text.as_str()
    }
}

} // verus!
