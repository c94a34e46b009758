//! Filters a large dataset with the help of external workers.
//!
//! A dataset holds records in groups under unique keys. A run takes it
//! apart into tagged records ([`split`]), cuts those into batches
//! ([`batch`]), fills a script template in for each batch ([`script`]),
//! looks at how the workers that ran the scripts ended ([`worker`]), and
//! merges what they wrote into one dataset ([`accumulate`]). The two halves
//! of a run, before and after the workers, are in [`pipeline`]; starting the
//! workers is left to the caller. What holds of a whole run is proved in
//! [`laws`].

pub mod accumulate;
pub mod batch;
pub mod dataset;
pub mod error;
pub mod laws;
pub mod pipeline;
pub mod script;
pub mod split;
pub mod worker;
