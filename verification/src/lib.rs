//! Trust checks for robot datasets.

pub mod arrange;
pub mod assoc;
pub mod cat;
pub mod cdm;
pub mod certificate;
pub mod check;
pub mod checks;
pub mod config;
pub mod decimal;
pub mod deviation;
pub mod diff;
pub mod digest;
pub mod double;
pub mod effective;
pub mod emit;
pub mod engine;
pub mod json;
pub mod laws;
pub mod lines;
pub mod media;
pub mod number;
pub mod order;
pub mod pipeline;
pub mod records;
pub mod seqs;
pub mod sort;
pub mod split;
pub mod text;
pub mod tolerances;
