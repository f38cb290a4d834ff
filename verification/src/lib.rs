//! A pull-only container-registry client and build-log stream decoder.
//!
//! The crate centres on two wire protocols: a chunked JSON-array stream of
//! build-log control messages, and container image layers (gzip-compressed
//! tar archives) merged onto a directory tree with whiteout semantics.
//!
//! The stream side: [`json`] decodes one JSON value from bytes, [`builder`]
//! turns arbitrarily cut chunks into the array's elements — provably the
//! same elements whatever the cuts — and [`buildlog`] interprets them as
//! progress text, cursor control and the build verdict.
//!
//! The image side: [`registry`] parses image references, drives the
//! bearer-token flow, reads manifests and enforces the all-or-nothing blob
//! barrier; [`tar`] decodes each layer's archive; [`merge`] classifies
//! whiteout markers and turns the ordered layers into an extraction plan
//! whose effect is exactly the union-filesystem merge.
//!
//! Around them: [`api`], [`application`], [`device`], [`variable`] and
//! [`builder`] build the endpoint URLs the HTTP glue calls; [`config`],
//! [`cli`], [`args`] and [`state`] hold the run's configuration and the
//! locally kept device bindings.

pub mod api;
pub mod application;
pub mod args;
pub mod builder;
pub mod buildlog;
pub mod cli;
pub mod config;
pub mod device;
pub mod json;
pub mod merge;
pub mod registry;
pub mod state;
pub mod tar;
pub mod variable;
