//! The logic of Clippy: a clipboard notebook that keeps several devices in step.

pub mod acceptance_laws;
pub mod activation;
pub mod admission;
pub mod agent;
pub mod agent_laws;
pub mod agreement;
pub mod attachment_laws;
pub mod attachments;
pub mod auth;
pub mod batches;
pub mod bykind;
pub mod capture;
pub mod chunk_laws;
pub mod cloud;
pub mod companion;
pub mod config;
pub mod convergence;
pub mod coordinator;
pub mod counters;
pub mod crypto;
pub mod dpop;
pub mod echo_laws;
pub mod edit_laws;
pub mod encoding;
pub mod engine;
pub mod enrollment;
pub mod entries;
pub mod entry_laws;
pub mod exchange;
pub mod export;
pub mod export_laws;
pub mod files;
pub mod form_laws;
pub mod ids;
pub mod json;
pub mod limits;
pub mod linking;
pub mod log_laws;
pub mod login;
pub mod model;
pub mod note_laws;
pub mod notebook;
pub mod notebook_laws;
pub mod origin;
pub mod pass_laws;
pub mod plain;
pub mod policy_laws;
pub mod projection;
pub mod relay;
pub mod rows_laws;
pub mod scan;
pub mod schedule;
pub mod sessions;
pub mod setup_laws;
pub mod signing;
pub mod snapshot;
pub mod status;
pub mod store;
pub mod telling_laws;
pub mod text;
pub mod textmap;
pub mod transfer;
pub mod travel_laws;
pub mod trust_laws;
pub mod tunnel;
pub mod weburl;

use vstd::prelude::*;

verus! {

} // verus!
