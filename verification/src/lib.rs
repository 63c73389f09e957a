//! A transactional typed key-value map layer over a shared store.
//!
//! Any number of prefix-scoped maps opened on one store accumulate pending
//! mutations inside nested, checkpointable atomic scopes, and commit them in a
//! single physical write batch when the outermost scope finishes.

pub mod codec;
pub mod data_map;
pub mod emitter;
pub mod scope;
pub mod store;

use vstd::prelude::*;

verus! {

/// The errors that the map layer reports to its callers.
#[derive(Clone, Copy, Debug, PartialEq, Eq, Structural)]
pub enum MapError {
    /// A committed raw entry is malformed or does not decode.
    Codec,
    /// A finalize scope was opened while an atomic batch was already active.
    ScopeMisuse,
}

/// The four-byte prefix that scopes one typed map within the shared store:
/// the network id followed by the map id, each as two little-endian bytes.
pub open spec fn context_bytes(network_id: u16, map_id: u16) -> Seq<u8> {
    seq![
        (network_id & 0xff) as u8,
        ((network_id >> 8) & 0xff) as u8,
        (map_id & 0xff) as u8,
        ((map_id >> 8) & 0xff) as u8,
    ]
}

/// Builds the context prefix for a map identified by `(network_id, map_id)`.
pub fn make_context(network_id: u16, map_id: u16) -> (r: Vec<u8>)
    ensures
        r@ == context_bytes(network_id, map_id),
{
    let mut ctx: Vec<u8> = Vec::new();
    ctx.push((network_id & 0xff) as u8);
    ctx.push(((network_id >> 8) & 0xff) as u8);
    ctx.push((map_id & 0xff) as u8);
    ctx.push(((map_id >> 8) & 0xff) as u8);
    proof {
        assert(ctx@ =~= context_bytes(network_id, map_id));
    }
    ctx
}

} // verus!

