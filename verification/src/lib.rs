//! Deterministic core of the AOS kernel.
pub mod air;
pub mod bytes;
pub mod cap_enforcer;
pub mod cap_ledger;
pub mod capability;
pub mod cbor;
pub mod cbor_codec;
pub mod cbor_map;
pub mod cbor_text;
pub mod cell_index;
pub mod codec;
pub mod effects;
pub mod error;
pub mod event;
pub mod governance;
pub mod governance_effects;
pub mod governance_utils;
pub mod hash;
pub mod internal_effects;
pub mod journal;
pub mod literal;
pub mod llm_live;
pub mod manifest;
pub mod manifest_catalog;
pub mod module_runtime;
pub mod names;
pub mod patch_doc;
pub mod plan;
pub mod policy;
pub mod pure;
pub mod query;
pub mod receipts;
pub mod reducer;
pub mod scheduler;
pub mod schema_value;
pub mod secret;
pub mod shadow;
pub mod snapshot;
pub mod sorted;
pub mod store;
pub mod text;
pub mod text_order;
pub mod types;
pub mod value;
pub mod variant;
pub mod workflow;
pub mod workspace;
