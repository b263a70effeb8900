//! How much styling a render applies.
use vstd::prelude::*;

verus! {

/// What things to highlight; lower levels highlight less.
///
/// Used when a soft limit is set: each retry renders one level lower.
#[derive(Clone, Copy, Debug, PartialEq, Eq, Structural)]
pub enum HighlightLevel {
    /// Only the colors that are never dropped: keywords, strings, numbers,
    /// escapes, errors, list markers, math operators and raw blocks.
    Off,
    /// Also comments, strong and emphasized text, links, labels,
    /// references and headings.
    L1,
    /// Also operators and math delimiters.
    L2,
    /// Also functions, interpolations, and the code inside raw blocks.
    WithRaw,
    /// Use styles like bold, italic, underline.
    WithStyles,
    All,
}

impl HighlightLevel {
    /// The position of the level in the order `Off < L1 < ... < All`.
    pub open spec fn rank(self) -> nat {
        match self {
            HighlightLevel::Off => 0,
            HighlightLevel::L1 => 1,
            HighlightLevel::L2 => 2,
            HighlightLevel::WithRaw => 3,
            HighlightLevel::WithStyles => 4,
            HighlightLevel::All => 5,
        }
    }

    /// Whether this level is `other` or higher.
    pub fn at_least(self, other: HighlightLevel) -> (r: bool)
        ensures
            r == (self.rank() >= other.rank()),
    {
        self.position() >= other.position()
    }

    fn position(self) -> (r: u8)
        ensures
            r as nat == self.rank(),
    {
        match self {
            HighlightLevel::Off => 0,
            HighlightLevel::L1 => 1,
            HighlightLevel::L2 => 2,
            HighlightLevel::WithRaw => 3,
            HighlightLevel::WithStyles => 4,
            HighlightLevel::All => 5,
        }
    }

    /// The next lower level; `Off` stays `Off`.
    pub fn restrict(self) -> (r: HighlightLevel)
        ensures
            self == HighlightLevel::Off ==> r == HighlightLevel::Off,
            self != HighlightLevel::Off ==> r.rank() + 1 == self.rank(),
    {
        match self {
            HighlightLevel::Off => HighlightLevel::Off,
            HighlightLevel::L1 => HighlightLevel::Off,
            HighlightLevel::L2 => HighlightLevel::L1,
            HighlightLevel::WithRaw => HighlightLevel::L2,
            HighlightLevel::WithStyles => HighlightLevel::WithRaw,
            HighlightLevel::All => HighlightLevel::WithStyles,
        }
    }
}

/// Distinct levels have distinct ranks.
pub proof fn lemma_rank_injective(a: HighlightLevel, b: HighlightLevel)
    ensures
        a.rank() == b.rank() ==> a == b,
{
}

} // verus!
