//! Verified core of a small system-information fetcher: ANSI colouring,
//! a JSON configuration parser, a FIGlet font parser and renderer, and the
//! text layout of the final report.

pub mod ansi;
pub mod text;
pub mod json;
pub mod figfont;
pub mod report;
pub mod sysinfo;
pub mod config;
pub mod ini;
