//! Keyed 64-bit mixing used for bucket placement and for the pseudo-random
//! streams of the address store and the connection scheduler.

use vstd::prelude::*;
use crate::netaddr::NetAddr;

verus! {

/// Increment of the pseudo-random stream (the 64-bit golden ratio).
pub const STREAM_STEP: u64 = 0x9e37_79b9_7f4a_7c15;

/// The first odd multiplier of the finalizer.
pub const MIX_MUL_A: u64 = 0xbf58_476d_1ce4_e5b9;

/// The second odd multiplier of the finalizer.
pub const MIX_MUL_B: u64 = 0x94d0_49bb_1331_11eb;

/// The 64-bit finalizer: three xor-shifts interleaved with two odd
/// multiplications modulo 2^64.
#[verifier::opaque]
pub open spec fn mix64(x: u64) -> u64 {
    let a: u64 = (x ^ (x >> 30)).wrapping_mul(MIX_MUL_A);
    let b: u64 = (a ^ (a >> 27)).wrapping_mul(MIX_MUL_B);
    b ^ (b >> 31)
}

/// Computes [`mix64`].
pub fn mix(x: u64) -> (r: u64)
    ensures
        r == mix64(x),
{
    proof {
        reveal(mix64);
    }
    let a: u64 = (x ^ (x >> 30)).wrapping_mul(MIX_MUL_A);
    let b: u64 = (a ^ (a >> 27)).wrapping_mul(MIX_MUL_B);
    b ^ (b >> 31)
}

/// The state of a pseudo-random stream after one draw.
pub open spec fn stream_advance(state: u64) -> u64 {
    state.wrapping_add(STREAM_STEP)
}

/// The number that a draw from a stream in `state` yields.
pub open spec fn stream_output(state: u64) -> u64 {
    mix64(stream_advance(state))
}

/// Draws one number from the stream and moves the stream on.
pub fn draw(state: &mut u64) -> (r: u64)
    ensures
        *final(state) == stream_advance(*old(state)),
        r == stream_output(*old(state)),
{
    let next: u64 = state.wrapping_add(STREAM_STEP);
    *state = next;
    mix(next)
}

/// The upper half of a 128-bit word.
pub open spec fn hi64(x: u128) -> u64 {
    (x >> 64) as u64
}

/// The lower half of a 128-bit word.
pub open spec fn lo64(x: u128) -> u64 {
    (x & 0xffff_ffff_ffff_ffff) as u64
}

/// `seed` mixed with the bits and the scope of `addr`.
pub open spec fn hash_addr(seed: u64, addr: NetAddr) -> u64 {
    mix64(mix64(mix64(seed ^ hi64(addr.ip)) ^ lo64(addr.ip)) ^ addr.scope_id.inner as u64)
}

/// The hash of an endpoint under `salt`; `tag` tells the uses apart.
pub open spec fn endpoint_hash(salt: u64, tag: u64, addr: NetAddr, port: u16) -> u64 {
    mix64(hash_addr(mix64(salt ^ tag), addr) ^ port as u64)
}

/// The hash of an endpoint together with the address that reported it.
pub open spec fn pair_hash(salt: u64, tag: u64, addr: NetAddr, port: u16, source: NetAddr) -> u64 {
    hash_addr(endpoint_hash(salt, tag, addr, port), source)
}

/// Computes [`hash_addr`].
pub fn addr_hash(seed: u64, addr: &NetAddr) -> (r: u64)
    ensures
        r == hash_addr(seed, *addr),
{
    let ip: u128 = addr.ip;
    assert(ip >> 64 <= 0xffff_ffff_ffff_ffff) by (bit_vector);
    assert(ip & 0xffff_ffff_ffff_ffff <= 0xffff_ffff_ffff_ffff) by (bit_vector);
    let hi: u64 = (ip >> 64) as u64;
    let lo: u64 = (ip & 0xffff_ffff_ffff_ffff) as u64;
    mix(mix(mix(seed ^ hi) ^ lo) ^ addr.scope_id.inner as u64)
}

/// Computes [`endpoint_hash`].
pub fn hash_endpoint(salt: u64, tag: u64, addr: &NetAddr, port: u16) -> (r: u64)
    ensures
        r == endpoint_hash(salt, tag, *addr, port),
{
    mix(addr_hash(mix(salt ^ tag), addr) ^ port as u64)
}

/// Computes [`pair_hash`].
pub fn hash_pair(salt: u64, tag: u64, addr: &NetAddr, port: u16, source: &NetAddr) -> (r: u64)
    ensures
        r == pair_hash(salt, tag, *addr, port, *source),
{
    addr_hash(hash_endpoint(salt, tag, addr, port), source)
}

} // verus!
