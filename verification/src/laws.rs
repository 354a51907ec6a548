//! What holds of the library as a whole: laws that relate several functions, over the
//! mathematical values that their contracts speak of.
pub mod attributes;
pub mod documents;
pub mod growth;
pub mod markup;
pub mod matching;
pub mod queries;
pub mod reading;
pub mod selector_texts;
pub mod selectors;
pub mod structure;
pub mod views;
pub mod vocabulary;
pub mod words;
pub mod writing;
