//! A wrapper around terminal commands that shortens their output and keeps their logs.
//!
//! The library decides; it does not touch files, processes or the terminal. It says what
//! a log line means ([`ctlog`]), which tool wrote some output ([`filters`], [`detect`],
//! [`levels`]), what a run does with each piece of output ([`capture`], [`tally`],
//! [`run`], [`render`]), what it writes to its log and to the history of its command
//! ([`runlog`], [`stats`]), what is asked about the latest run ([`ctl`]), and how the
//! shell is set up ([`shell`], [`install`]).
//!
//! What holds of all this stands as laws beside it, and, where a law takes several modules
//! together, in [`text_laws`], [`profile_laws`], [`log_laws`], [`run_laws`], [`stats_laws`]
//! and [`history_laws`].
pub mod capture;
pub mod ctl;
pub mod ctlog;
pub mod detect;
pub mod filters;
pub mod hash;
pub mod history_laws;
pub mod install;
pub mod levels;
pub mod log_laws;
pub mod number;
pub mod order;
pub mod outside;
pub mod paths;
pub mod profile_laws;
pub mod render;
pub mod run;
pub mod run_laws;
pub mod runlog;
pub mod shell;
pub mod stats;
pub mod stats_laws;
pub mod strmap;
pub mod tally;
pub mod text;
pub mod text_laws;
