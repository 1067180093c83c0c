//! Client-side implementation of the exec-based Container Network Interface
//! (CNI) protocol: configuration documents describe ordered chains of network
//! plugins, each plugin is invoked as an external delegate binary with a fixed
//! environment/stdin contract, and each plugin's result is threaded into the
//! next plugin's input.
//!
//! The crate verifies the protocol logic itself: JSON modelling of the
//! configuration documents, construction of the per-delegate environment and
//! stdin bytes, interpretation of delegate output, and the ADD/DEL/CHECK
//! sequencing across a chain.  The operating-system primitives (spawning the
//! delegate process, reading directories, network namespaces) are reached
//! through the [`exec::Exec`] capability, whose production implementation
//! lives outside the verified library.

pub mod errors;
pub mod exec;
pub mod api;
pub mod json;
pub mod namespace;
pub mod parse;
pub mod conf;
pub mod cni;
