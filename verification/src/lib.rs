pub mod frequency;
pub mod layout;
pub mod ngram;
pub mod random;
pub mod ranking;
pub mod report;
pub mod score;
pub mod search;
pub mod text;
pub mod weights;
