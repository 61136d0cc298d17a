use vstd::prelude::*;

pub mod bencode;
pub mod keys;
pub mod decimal;
pub mod decoder;
pub mod roundtrip;
pub mod convert;
pub mod metainfo;
pub mod bitmap;
pub mod tracker;
pub mod client;
pub mod summary;

verus! {
} // verus!
