//! Parse results.
//!
//! The lexer, the parser algorithm and the tree representation are external
//! collaborators of this layer: the tree is opaque here and is a pure
//! function of the text handed to the parser. A [`Parse`] therefore records
//! the exact text that was parsed; that text determines the tree.

use vstd::prelude::*;

verus! {

/// Result of handing one text value to the parser.
pub struct Parse {
    text: String,
}

impl View for Parse {
    type V = Seq<char>;

    /// A parse result is abstracted by the text it was produced from.
    closed spec fn view(&self) -> Seq<char> {
        self.text@
    }
}

impl Parse {
    /// The text this parse result was produced from.
    pub fn source_text(&self) -> (r: &str)
        ensures
            r@ == self@,
    {
        self.text.as_str()
    }
}

impl Clone for Parse {
    fn clone(&self) -> (r: Self)
        ensures
            r == *self,
    {
        Parse { text: self.text.clone() }
    }
}

/// Parse one text value. Syntax diagnostics live inside the opaque tree and
/// belong to the parser; this layer never fails on any text.
pub fn parse(text: &str) -> (r: Parse)
    ensures
        r@ == text@,
{
    Parse { text: text.to_owned() }
}

} // verus!
