use vstd::prelude::*;

pub mod bencode;
pub mod digest;
pub mod error;
pub mod extension;
pub mod grammar;
pub mod hashes;
pub mod magnet;
pub mod peer;
pub mod random;
pub mod scheduler;
pub mod torrent;
pub mod tracker;

verus! {

} // verus!
