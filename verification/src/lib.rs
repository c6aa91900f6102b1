//! An event-sourced version-control core: a content-addressed graph of
//! state-transforming events, a replay cache memoized by the set of applied
//! events, and automatic discovery of minimal causal dependencies between
//! events.

pub mod addr;
pub mod apply;
pub mod codec;
pub mod dot;
pub mod en;
pub mod engine;
pub mod graph;
pub mod hash;
pub mod ord;
pub mod sear;
pub mod state;
pub mod utils;
pub mod workcache;
