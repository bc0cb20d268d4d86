//! # vidmesh
//!
//! The core library of the Vidmesh protocol: signed records (canonical
//! CBOR, Ed25519, BLAKE3), identity rotation chains, content-addressed
//! blobs with chunk-tree range verification, typed record kinds, bundle
//! import/export, and the relay's wire frames, filters and anti-spam
//! checks.

pub mod error;
pub mod text;
pub mod ids;
pub mod order;
pub mod codec;
pub mod cbor_lemmas;
pub mod decode;
pub mod access;
pub mod json;
pub mod debug_form;
pub mod crypto;
pub mod keys;
pub mod record;
pub mod blob;
pub mod frames;
pub mod filter;
pub mod pow;
pub mod config;
pub mod config_json;
pub mod pinning;
pub mod paths;
pub mod relay;
pub mod identity;
pub mod kinds;
pub mod bundle;
pub mod sync;
pub mod bindings;
pub mod storage;
pub mod json_laws;
pub mod frame_laws;
pub mod identity_laws;
pub mod bundle_laws;
pub mod canon_laws;
