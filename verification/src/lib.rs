//! Template engine and request pipeline rules for a command-line HTTP
//! request multiplexer.
//!
//! The program reads records, one on each line, renders a URL template with
//! the fields of each record, makes one request for each URL with a bound on
//! how many are under way at once, and writes one line for each response.
//! This library holds what the program decides and computes; reading,
//! sending and writing are left to the program around it.
//!
//! - [`records`] cuts the input into records and numbers them.
//! - [`fields`] says what the fields of a record are, and [`context`] finds
//!   them without copying.
//! - [`grammar`] defines the template language production by production,
//!   [`spelling`] says which texts are which fragments, and [`parser`] reads
//!   templates accordingly.
//! - [`render`] says what a template gives for a record, and [`context`]
//!   produces it.
//! - [`canonical`] gives each fragment one text and shows that reading it
//!   gives the fragment back.
//! - [`pipeline`] turns records into requests and responses into lines, and
//!   [`reaper`] keeps the requests under way within their limit.
//!
//! Every function carries a contract; Verus proves each one, but for the few
//! calls into code from outside, whose contracts are marked as taken on
//! trust.

pub mod canonical;
pub mod context;
pub mod fields;
pub mod grammar;
pub mod parser;
pub mod pipeline;
pub mod reaper;
pub mod records;
pub mod render;
pub mod spelling;
pub mod utf8;
