//! Clipboard synchronisation core: data model, wire protocol, discovery
//! framing, local encryption, history bookkeeping and the decision logic of
//! the controller and the background runtime.

pub mod text;
pub mod bytes;
pub mod at_rest;
pub mod discovery;
pub mod sorting;
pub mod ids;
pub mod paths;
pub mod config;
pub mod runtime;
pub mod discovery_loop;
pub mod clipboard;
pub mod security;
pub mod error;
pub mod model;
pub mod protocol;
pub mod storage;
pub mod constants;
pub mod controller;
