//! Secure fetch-then-act for remote scripts: a signed root policy model, a
//! canonical text codec for it, a threshold trust verifier, and the pipeline
//! state machine that gates every disposition of fetched content on the
//! verifier's verdict.
#![verifier::loop_isolation(false)]

pub mod codec;
pub mod pipeline;
pub mod policy;
pub mod verify;
