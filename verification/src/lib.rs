//! Streaming aggregation of concatenated JSON debt records.
//!
//! A byte stream holding top-level JSON objects is cut into single objects by
//! the [`framer`], each object is parsed by `serde_json` ([`json`]) and read
//! as a debt record ([`extract`]), and the records are folded into a graph of
//! debtors in which records that share a phone number land in one node
//! ([`debtors`]). A [`worker`] does this for the records it is sent, the
//! [`dispatch`]er decides which worker gets the next record over which
//! [`channel`], and the partial graphs of the workers are merged into one.
//!
//! What holds of the graphs is proved in [`laws`], [`matching`], [`sides`],
//! [`plain`] and [`dealing`]. Amounts are kept as the records state them and are never
//! turned into numbers here. The [`scenario`] module holds a small scripted
//! dialogue that is independent of the rest, and [`page`] reads its requests
//! and fills in its page.

pub mod channel;
pub mod dealing;
pub mod debtors;
pub mod dispatch;
pub mod extract;
pub mod framer;
pub mod json;
pub mod laws;
pub mod matching;
pub mod page;
pub mod plain;
pub mod scenario;
pub mod sides;
pub mod worker;
