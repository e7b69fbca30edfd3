//! The rules of a tool that drafts, scores and improves business plans with language models.
//!
//! The library makes no calls of a model and touches no files. It says what to ask a model and how to
//! read the answer, which replies count and how they become a score, when the improvement loop goes
//! on and what comes out of it.

pub mod answers;
pub mod binary64;
pub mod checks;
pub mod cli;
pub mod contest;
pub mod counting;
pub mod enclosure;
pub mod generate;
pub mod json;
pub mod listing;
pub mod llm;
pub mod loop_run;
pub mod matching;
pub mod measuring;
pub mod nearness;
pub mod order;
pub mod prompting;
pub mod range;
pub mod reckoning;
pub mod render;
pub mod report;
pub mod reporting;
pub mod running;
pub mod schema;
pub mod score;
pub mod sectioning;
pub mod signed;
pub mod stalling;
pub mod tallying;
pub mod text;
pub mod trimming;
pub mod wording;
pub mod words;
