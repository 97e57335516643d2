pub mod dataset;
pub mod index;
pub mod messages;
pub mod model;
pub mod ngram;
pub mod random;
pub mod text;
pub mod tokenized_messages;
pub mod tokens;
