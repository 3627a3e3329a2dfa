//! A persistent key-value store.
//!
//! The layers, from the inside out: text and numbers, the domain, persistence and the
//! engine, the line protocol, and what client, server and command line decide.

use vstd::prelude::*;

pub mod client;
pub mod domain;
pub mod engine;
pub mod kv_bench;
pub mod kv_client;
pub mod kv_memory_server;
pub mod kv_server;
pub mod lines;
pub mod local;
pub mod metrics;
pub mod number;
pub mod persistence;
pub mod protocol;
pub mod server;
pub mod text;
pub mod text_map;

verus! {

/// A result, both sides taken by their views.
pub open spec fn result_view<T: View, E: View>(result: Result<T, E>) -> Result<T::V, E::V> {
    match result {
        Ok(value) => Ok(value@),
        Err(error) => Err(error@),
    }
}

/// An option, its value taken by its view.
pub open spec fn option_view<T: View>(option: Option<T>) -> Option<T::V> {
    match option {
        Some(value) => Some(value@),
        None => None,
    }
}

} // verus!
