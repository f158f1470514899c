//! Kinds of search results.
use vstd::prelude::*;

verus! {

/// The kinds of results, each shown under a section header.
#[derive(Clone, Copy, PartialEq, Eq, Structural, Debug)]
pub enum ResultKind {
    Calculator,
    Clipboard,
    Applications,
    Files,
}

/// The section header of a kind of result.
pub open spec fn kind_label(kind: ResultKind) -> Seq<char> {
    match kind {
        ResultKind::Calculator => "CALCULATOR"@,
        ResultKind::Clipboard => "CLIPBOARD HISTORY"@,
        ResultKind::Applications => "APPLICATIONS"@,
        ResultKind::Files => "FILES & FOLDERS"@,
    }
}

impl ResultKind {
    /// The section header of this kind of result.
    pub fn label(self) -> (res: &'static str)
        ensures
            res@ == kind_label(self),
    {
        match self {
            ResultKind::Calculator => "CALCULATOR",
            ResultKind::Clipboard => "CLIPBOARD HISTORY",
            ResultKind::Applications => "APPLICATIONS",
            ResultKind::Files => "FILES & FOLDERS",
        }
    }
}

} // verus!
