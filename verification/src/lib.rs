//! Core of a local-only English practice tool: what a recording's transcript
//! is marked, analyzed, streamed and stored by.

pub mod analysis_extract;
pub mod analysis_hub;
pub mod audio;
pub mod config;
pub mod error;
pub mod handlers;
pub mod ids;
pub mod jobs;
pub mod marks;
pub mod providers;
pub mod retention;
pub mod streams;
pub mod text;
