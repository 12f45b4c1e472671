//! What a scan is asked to look for.
use vstd::prelude::*;

use crate::grammar::indexed::Domain;

verus! {

/// How the register of a document is settled.
#[derive(Clone, Copy, Debug, PartialEq, Eq, Structural)]
pub enum RegisterMode {
    /// From the text itself.
    Auto,
    Casual,
    Formal,
}

/// The checks that are on, and how they are set.
#[derive(Clone, Copy, Debug)]
pub struct ProfileConfig {
    pub spelling: bool,
    pub casing: bool,
    pub basic_punctuation: bool,
    pub colon_enforcement: bool,
    pub dunhao_detection: bool,
    pub range_normalization: bool,
    /// Whether a range takes an en dash in place of a wave dash.
    pub range_en_dash: bool,
    pub ellipsis_normalization: bool,
    pub variant_normalization: bool,
    pub grammar_checks: bool,
    pub ai_filler_detection: bool,
    pub ai_semantic_safety: bool,
    pub ai_density_detection: bool,
    pub ai_structural_patterns: bool,
    /// What the thresholds of the machine-style checks are multiplied by, in
    /// percent.
    pub ai_threshold_percent: u32,
    pub translationese_detection: bool,
    pub translationese_domain: Domain,
    pub rhythm: bool,
    pub register: RegisterMode,
    pub exempt_blockquotes: bool,
    pub heading_severity_boost: bool,
    /// Whether only offsets are wanted, without explanations.
    pub offset_only: bool,
}

} // verus!
