//! The client assets: the archive clients download, framed, compressed and hashed.

use std::collections::hash_map::DefaultHasher;
use std::hash::Hasher;

use vstd::prelude::*;
use vstd::std_specs::hash::DefaultHasherAdditionalSpecFns;

use crate::networking::{
    framed, frame_message, length_prefixed, prefix_length, zstd_encode_all, zstd_encoded_all,
    COMPRESSION_LEVEL,
};

verus! {

/// The order in which the kinds of assets are loaded: blocks rely on models and items.
#[derive(Clone, Copy, Debug, PartialEq, Eq, Hash, Structural)]
pub enum AssetSet {
    Models,
    Items,
    Blocks,
}

/// Whether assets of the first kind are loaded after those of the second.
pub open spec fn spec_loads_after(a: AssetSet, b: AssetSet) -> bool {
    a == AssetSet::Blocks && (b == AssetSet::Items || b == AssetSet::Models)
}

impl AssetSet {
    /// Whether these assets are loaded after the other ones: blocks after items and models.
    pub fn loads_after(&self, other: &AssetSet) -> (r: bool)
        ensures
            r == spec_loads_after(*self, *other),
    {
        match (self, other) {
            (AssetSet::Blocks, AssetSet::Items) => true,
            (AssetSet::Blocks, AssetSet::Models) => true,
            _ => false,
        }
    }
}

/// The hash of a byte string by the standard library's default hasher, fed the bytes in one
/// write.
pub open spec fn bytes_hash(data: Seq<u8>) -> u64 {
    DefaultHasher::spec_finish(seq![data])
}

/// Hashes the bytes with a new default hasher.
pub fn hash(data: &[u8]) -> (r: u64)
    ensures
        r == bytes_hash(data@),
{
    let mut hasher = DefaultHasher::new();
    hasher.write(data);
    let r = hasher.finish();
    assert(hasher@ =~= seq![data@]);
    r
}

/// The client assets, compressed and ready to be sent to the clients when they connect.
pub struct Assets {
    /// The hash of the asset archive.
    pub hash: u64,
    /// The asset response: the framed archive, compressed and preceded by its compressed length.
    pub asset_message: Vec<u8>,
}

impl Assets {
    /// The assets of an archive: `archive` is the archive file, `response` the asset response
    /// that carries it, as serialized. The response is framed as a message of the given type,
    /// compressed, and preceded by the compressed length.
    pub fn from_archive(archive: &[u8], message_type: u8, response: &[u8]) -> (r: Assets)
        requires
            response.len() <= u32::MAX,
        ensures
            r.hash == bytes_hash(archive@),
            r.asset_message@ == length_prefixed(
                zstd_encoded_all(framed(message_type, response@), COMPRESSION_LEVEL),
            ),
    {
        let hash = hash(archive);
        let message = frame_message(message_type, response);
        let compressed = zstd_encode_all(message.as_slice(), COMPRESSION_LEVEL).unwrap();
        Assets { hash, asset_message: prefix_length(compressed.as_slice()) }
    }
}


} // verus!
