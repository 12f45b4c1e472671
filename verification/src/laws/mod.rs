//! What the detectors promise, stated over the characters of the text.
pub mod calques;
pub mod conditions;
pub mod figures;
pub mod habits;
pub mod heads;
pub mod heaps;
pub mod mannerisms;
pub mod marks;
pub mod naming;
pub mod phrases;
pub mod places;
pub mod reading;
pub mod reports;
pub mod rules;
pub mod scans;
pub mod structure;
pub mod style;
pub mod syntax;
pub mod weights;
