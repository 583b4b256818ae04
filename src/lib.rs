//! Token-stream indexing: an interner from tokens to dense codes, a suffix
//! array over the coded corpus with linear and binary range search, and a
//! sliding-window co-occurrence counter.
pub mod sequence;
pub mod stringmap;
pub mod corpus;
pub mod coocs;
pub mod vocab;
pub mod vocabulary;
