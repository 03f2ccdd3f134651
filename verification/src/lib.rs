//! A sandbox for BGP import and export policies: routes are propagated over a virtual
//! topology by a deterministic event engine, and every acceptance, rewrite and refusal
//! leaves evidence.

pub mod api;
pub mod bestpath;
pub mod coherence;
pub mod constraints;
pub mod delivery;
pub mod encode;
pub mod engine;
pub mod evidence;
pub mod export;
pub mod fingerprint;
pub mod fixtures;
pub mod json;
pub mod model;
pub mod ordmap;
pub mod policy;
pub mod queue;
pub mod recurrence;
pub mod rib;
pub mod router;
pub mod scenario;
pub mod signature;
pub mod step;
pub mod store;
pub mod text;
pub mod value;
