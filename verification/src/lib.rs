//! The parsing and comparison half of governance, separated from the binary
//! so it can be checked without reaching GitHub.
//!
//! Everything here is pure: text in, drift out. The half that runs `gh`
//! lives in the binary, because a test that needs a network is a test that
//! gets disabled.
pub mod text;
pub mod reading;
pub mod baseline;
pub mod github;
pub mod plan;
