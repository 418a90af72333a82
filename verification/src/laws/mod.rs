//! What holds of the library as a whole. Where numbers are concerned, they are
//! read as real numbers.
pub mod arithmetic;
pub mod book;
pub mod decimals;
pub mod engine;
pub mod factors;
pub mod fit;
pub mod flow;
pub mod labels;
pub mod messages;
pub mod metrics;
pub mod normaliser;
pub mod prediction;
pub mod promotion;
pub mod settings;
pub mod shown;
pub mod stored;
pub mod texts;
pub mod training;
pub mod windows;
