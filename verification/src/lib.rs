//! A harness for running a guest program in chunks and checking that the
//! chunks chain into one run.
//!
//! The host hands the guest the opening proofs of a polynomial commitment
//! scheme as a guest input (`codec`, `layout`), runs the guest in an engine
//! that executes it chunk by chunk (`record`), checks that the chunks chain
//! into one execution (`chain`), counts the cycles (`cycles`), and decides
//! at each step what comes next (`run`). The guest decides what it commits
//! (`guest`).

pub mod chain;
pub mod codec;
pub mod cycles;
pub mod guest;
pub mod layout;
pub mod record;
pub mod run;
