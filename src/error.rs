use vstd::prelude::*;
use crate::sources::CodeArea;

verus! {

/// The first mismatch a parse meets.
#[derive(Clone, Debug, PartialEq)]
pub enum SyntaxError {
    /// `expected` was wanted where a token of class `typ` with lexeme `found` stands.
    Expected { expected: String, found: String, typ: String, area: CodeArea },
    UnmatchedChar { for_char: String, not_found: String, area: CodeArea },
    InvalidEscape { character: char, area: CodeArea },
}

} // verus!
