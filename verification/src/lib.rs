//! A declarative environment-provisioning engine: named resources with
//! integrity hashes are resolved in dependency order, fetched, verified and
//! materialized into a content-addressed store, and the resolved values feed
//! placeholder templates that yield environment variables and search-path
//! entries.
//!
//! The crate holds the engine's logic: the structured-value model, the
//! placeholder-interpolation engine, the dependency resolver, the acquisition
//! transitions and the bundle assembly. Every transition that touches the
//! network or the filesystem is expressed as a step a caller performs; the
//! decisions between the steps are verified.

pub mod acquire;
pub mod config;
pub mod errors;
pub mod init;
pub mod interpol;
pub mod osinfo;
pub mod resolver;
pub mod resource;
pub mod smap;
pub mod strutil;
pub mod substrate;
pub mod value;
