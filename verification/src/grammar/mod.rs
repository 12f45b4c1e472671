//! Detectors that read phrases, sentences and paragraphs.
pub mod ai;
pub mod ai_list;
pub mod ai_phrase;
pub mod ai_sentence;
pub mod ai_slogan;
pub mod ai_structure;
pub mod calque;
pub mod closer;
pub mod indexed;
pub mod premodifier;
pub mod rhythm;
pub mod syntactic;
pub mod translationese;
