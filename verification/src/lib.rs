//! Unsupervised sentence boundary detection after Kiss and Strunk (Punkt).
//!
//! A [`Trainer`] learns from a text which of its tokens with a final period
//! are abbreviations, which words start sentences, and which pairs of words
//! belong together, and records it in [`TrainingData`]. A
//! [`SentenceTokenizer`] cuts a text into sentences by that data, and a
//! [`SentenceByteOffsetTokenizer`] gives the byte offsets of the sentences.
//!
//! # Cutting a text into sentences
//!
//! ```
//! use punkt::params::Standard;
//! use punkt::{SentenceTokenizer, TrainingData};
//!
//! let data = TrainingData::new();
//! let doc = "this is a great sentence! this is a sad sentence.";
//! let mut sentences = SentenceTokenizer::<Standard>::new(doc, &data);
//!
//! assert_eq!(sentences.next().unwrap(), "this is a great sentence!");
//! assert_eq!(sentences.next().unwrap(), "this is a sad sentence.");
//! assert!(sentences.next().is_none());
//! ```
//!
//! # Training
//!
//! The trainer counts; the scores that decide over its candidates are
//! logarithms and powers of the counts, and are computed by a
//! [`trainer::Judge`] that the caller brings along. The trainer hands the
//! judge the counts of each candidate and writes its verdicts into the data.
//!
//! # Parameters
//!
//! The sets of characters that the scanners know, and the switches and count
//! limits of the trainer, are the traits of [`params`]. [`params::Standard`]
//! implements all of them.
//!
//! # What is proved
//!
//! Every function of this crate is verified with Verus against its contract,
//! but for the few that call the standard library or `rustc_serialize` where
//! Verus has no specification of the call: those are marked, and their
//! contracts say what is believed of the call.

pub mod annotate;
pub mod data;
pub mod freq;
pub mod json;
pub mod keys;
pub mod ortho;
pub mod params;
pub mod periodctxt;
pub mod sentence;
pub mod text;
pub mod token;
pub mod trainer;
pub mod word;

pub use data::TrainingData;
pub use sentence::{SentenceByteOffsetTokenizer, SentenceTokenizer};
pub use trainer::Trainer;
