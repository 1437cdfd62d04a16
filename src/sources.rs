use vstd::prelude::*;

verus! {

/// Identifies one source text. Areas index into it and never own it.
#[derive(Clone, Copy, Debug, PartialEq, Eq, Structural)]
pub struct SpwnSource {
    pub id: usize,
}

/// A byte span `(start, end)` inside one source.
#[derive(Clone, Copy, Debug, PartialEq, Eq)]
pub struct CodeArea {
    pub source: SpwnSource,
    pub span: (usize, usize),
}

impl SpwnSource {
    /// The area of this source that covers `span`.
    pub fn to_area(&self, span: (usize, usize)) -> (r: CodeArea)
        ensures
            r == (CodeArea { source: *self, span }),
    {
        CodeArea { source: *self, span }
    }
}

} // verus!
