//! Detection of Mainland phrasing, translationese and machine-written style
//! in Traditional Chinese text.
pub mod absorb;
pub mod adjacent;
pub mod automaton;
pub mod bounds;
pub mod brackets;
pub mod bytes;
pub mod casing;
pub mod chars;
pub mod clues;
pub mod content;
pub mod database;
pub mod emit;
pub mod grammar;
pub mod guard;
pub mod inflate;
pub mod issue;
pub mod keep;
pub mod laws;
pub mod lines;
pub mod listing;
pub mod marks;
pub mod mentions;
pub mod normalize;
pub mod order;
pub mod origin;
pub mod output;
pub mod overlap;
pub mod passes;
pub mod phases;
pub mod phrase_table;
pub mod predicates;
pub mod prepare;
pub mod profile;
pub mod punctuation;
pub mod quotes;
pub mod ranges;
pub mod regions;
pub mod register;
pub mod rules;
pub mod scanner;
pub mod script;
pub mod selector;
pub mod signals;
pub mod spacing;
pub mod spelling;
pub mod text;
pub mod vocabulary;
pub mod walk;
pub mod window;
