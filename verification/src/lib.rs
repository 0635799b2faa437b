//! The bookkeeping of a live-recording pipeline, verified with Verus: which
//! recording sessions exist and in what state, and which recorded files still
//! wait to be uploaded.
//!
//! The library holds the state and decides; it reads no file and sends
//! nothing. A change to the recording index returns the lines to append to
//! its log and says when the log is to be compacted; the upload queue says
//! which jobs are due and what the outcome of an attempt makes of a job. The
//! program around it carries that out.
//!
//! - [`session`], [`index`], [`journal`], [`listing`], [`compaction`],
//!   [`sorting`]: the recording index.
//! - [`uploader`], [`backoff`], [`headers`], [`presign`]: the upload queue and
//!   its talk with the coordinator.
//! - [`logfile`], [`paths`], [`text`], [`decimal`], [`order`]: the text of
//!   the files and the names of the files beside them.
//! - [`recording_id`], [`config`]: identifiers and storage settings.
//! - [`playback`], [`admin`]: what the playback server and the admin surface
//!   decide.
//! - [`clock`]: points and spans of time, and the wall clock.
//!
//! What is taken on trust is marked `external_body` and says in its comment
//! which function of `chrono`, `http` or the standard library it calls.

pub mod admin;
pub mod backoff;
pub mod clock;
pub mod compaction;
pub mod config;
pub mod decimal;
pub mod headers;
pub mod index;
pub mod journal;
pub mod listing;
pub mod logfile;
pub mod order;
pub mod paths;
pub mod playback;
pub mod presign;
pub mod recording_id;
pub mod session;
pub mod sorting;
pub mod text;
pub mod uploader;
