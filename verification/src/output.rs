//! What a scan gives back, and the buffers that it works in.
use vstd::prelude::*;

use crate::emit::ByteRange;
use crate::issue::Issue;
use crate::rules::ChineseType;
use crate::signals::OralDensity;

verus! {

/// Buffers that one scan after another can use.
pub struct ScratchSpace {
    /// Findings of the scan that is running.
    pub issues: Vec<Issue>,
    /// Where the clues of the document stand.
    pub clue_index: Vec<(usize, u16)>,
}

impl ScratchSpace {
    pub open spec fn is_clear(&self) -> bool {
        self.issues@.len() == 0 && self.clue_index@.len() == 0
    }

    /// Empty buffers.
    pub fn new() -> (r: Self)
        ensures
            r.is_clear(),
    {
        ScratchSpace { issues: Vec::new(), clue_index: Vec::new() }
    }

    /// Empties the buffers.
    pub fn clear(&mut self)
        ensures
            final(self).is_clear(),
    {
        self.issues.clear();
        self.clue_index.clear();
    }
}

impl Default for ScratchSpace {
    fn default() -> (r: Self)
        ensures
            r.is_clear(),
    {
        ScratchSpace::new()
    }
}

/// How many rules a scan consulted, and how many of them made a finding.
#[derive(Clone, Copy, Debug, PartialEq, Eq, Structural)]
pub struct CoverageReport {
    /// The spelling rules that the profile hears.
    pub rules_checked: usize,
    /// Those of which a finding is left once overlaps are resolved.
    pub rules_matched: usize,
}

/// What a scan gives back.
#[derive(Clone, Debug)]
pub struct ScanOutput {
    pub issues: Vec<Issue>,
    pub detected_script: ChineseType,
    pub coverage: Option<CoverageReport>,
    /// How much of the text is filler, unless it is too short to be judged.
    pub oral_density: Option<OralDensity>,
    /// Signals for those who use the report.
    pub quality_flags: Vec<String>,
    /// The bytes of phrases that the text names rather than uses.
    pub mentions: Vec<ByteRange>,
}

} // verus!
