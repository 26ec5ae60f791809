//! Reader for data blocks.
//!
//! The reader decodes the blocks of a stream on demand, and keeps the
//! payloads of the blocks that were used last.

use super::{
    block_at, decode_payload, known_tag, BlockError, IoKind, BLOCK_HEADER_SIZE,
};
use crate::endian;
use vstd::prelude::*;
use vstd::slice::slice_subrange;

verus! {

/// Size of the LRU cache.
pub const LRU_CACHE_SIZE: usize = 16;

#[verifier::external_type_specification]
#[verifier::external_body]
#[verifier::reject_recursive_types(K)]
#[verifier::reject_recursive_types(V)]
#[verifier::reject_recursive_types(S)]
pub struct ExLruCache<K, V, S>(lru::LruCache<K, V, S>);

#[verifier::external_type_specification]
#[verifier::external_body]
pub struct ExDefaultHasher(lru::DefaultHasher);

/// What a cache holds: each key with its value, the entry used last at
/// the front, the one that leaves next at the back.
pub uninterp spec fn cache_entries(cache: lru::LruCache<u64, Vec<u8>>) -> Seq<(u64, Seq<u8>)>;

/// The number of entries that a cache was made for.
pub uninterp spec fn cache_limit(cache: lru::LruCache<u64, Vec<u8>>) -> nat;

/// Whether `entries` hold `key`.
pub open spec fn holds_key(entries: Seq<(u64, Seq<u8>)>, key: u64) -> bool {
    exists|i: int| 0 <= i < entries.len() && (#[trigger] entries[i]).0 == key
}

/// Where `entries` hold `key`.
pub open spec fn key_index(entries: Seq<(u64, Seq<u8>)>, key: u64) -> int {
    choose|i: int| 0 <= i < entries.len() && (#[trigger] entries[i]).0 == key
}

/// Whether no key stands twice in `entries`.
pub open spec fn distinct_keys(entries: Seq<(u64, Seq<u8>)>) -> bool {
    forall|i: int, j: int|
        0 <= i < j < entries.len() ==> (#[trigger] entries[i]).0 != (#[trigger] entries[j]).0
}

/// A cache for `limit` entries, which holds none yet.
///
/// Trusted: calls `lru::LruCache::new`.
#[verifier::external_body]
pub(crate) fn cache_new(limit: usize) -> (cache: lru::LruCache<u64, Vec<u8>>)
    requires
        limit > 0,
    ensures
        cache_entries(cache) == Seq::<(u64, Seq<u8>)>::empty(),
        cache_limit(cache) == limit,
{
    lru::LruCache::new(std::num::NonZeroUsize::new(limit).unwrap())
}

/// Marks `key` as the one used last, and says whether the cache holds
/// it.
///
/// Trusted: calls `lru::LruCache::promote`, which moves the entry of the
/// key to the head of its list where the key is found, and else leaves
/// the cache as it is.
#[verifier::external_body]
pub(crate) fn cache_promote(cache: &mut lru::LruCache<u64, Vec<u8>>, key: u64) -> (found: bool)
    ensures
        found == holds_key(cache_entries(*old(cache)), key),
        cache_limit(*final(cache)) == cache_limit(*old(cache)),
        found ==> exists|i: int|
            0 <= i < cache_entries(*old(cache)).len() && (#[trigger] cache_entries(
                *old(cache),
            )[i]).0 == key && cache_entries(*final(cache)) == seq![cache_entries(*old(cache))[i]]
                + cache_entries(*old(cache)).remove(i),
        !found ==> cache_entries(*final(cache)) == cache_entries(*old(cache)),
{
    cache.promote(&key)
}

/// The value that the cache holds for `key`.
///
/// Trusted: calls `lru::LruCache::peek`, which looks the key up and
/// leaves the order of the entries as it is.
#[verifier::external_body]
pub(crate) fn cache_peek(cache: &lru::LruCache<u64, Vec<u8>>, key: u64) -> (value: Option<
    &Vec<u8>,
>)
    ensures
        match value {
            Some(bytes) => exists|i: int|
                0 <= i < cache_entries(*cache).len() && #[trigger] cache_entries(*cache)[i] == (
                    key,
                    bytes@,
                ),
            None => !holds_key(cache_entries(*cache), key),
        },
{
    cache.peek(&key)
}

/// Puts `value` into the cache under `key`, as the entry used last.
///
/// Trusted: calls `lru::LruCache::put`. Where the key is found its value
/// is replaced and its entry moves to the head of the list. Where it is
/// not, and the cache holds as many entries as it was made for, the entry
/// at the tail of the list leaves, and the new one is attached at the
/// head.
#[verifier::external_body]
pub(crate) fn cache_put(cache: &mut lru::LruCache<u64, Vec<u8>>, key: u64, value: Vec<u8>)
    ensures
        cache_limit(*final(cache)) == cache_limit(*old(cache)),
        holds_key(cache_entries(*old(cache)), key) ==> exists|i: int|
            0 <= i < cache_entries(*old(cache)).len() && (#[trigger] cache_entries(
                *old(cache),
            )[i]).0 == key && cache_entries(*final(cache)) == seq![(key, value@)] + cache_entries(
                *old(cache),
            ).remove(i),
        !holds_key(cache_entries(*old(cache)), key) ==> cache_entries(*final(cache)) == seq![
            (key, value@),
        ] + (if cache_entries(*old(cache)).len() == cache_limit(*old(cache)) {
            cache_entries(*old(cache)).drop_last()
        } else {
            cache_entries(*old(cache))
        }),
{
    cache.put(key, value);
}

/// The number of entries that the cache holds.
///
/// Trusted: calls `lru::LruCache::len`.
#[verifier::external_body]
pub(crate) fn cache_len(cache: &lru::LruCache<u64, Vec<u8>>) -> (len: usize)
    ensures
        len == cache_entries(*cache).len(),
{
    cache.len()
}

/// A reader as a mathematical value.
pub struct ReaderView {
    /// The bytes of the stream.
    pub stream: Seq<u8>,
    /// The blocks whose payloads are kept, each with its identifier, the
    /// one used last at the front.
    pub cached: Seq<(u64, Seq<u8>)>,
}

impl ReaderView {
    /// Whether no more blocks are kept than the cache has room for, none
    /// twice, and each with the payload that it has in the stream.
    pub open spec fn wf(self) -> bool {
        &&& self.cached.len() <= LRU_CACHE_SIZE
        &&& distinct_keys(self.cached)
        &&& forall|i: int|
            0 <= i < self.cached.len() ==> block_at(
                self.stream,
                (#[trigger] self.cached[i]).0 as int,
            ) == Ok::<Seq<u8>, BlockError>(self.cached[i].1)
    }

    /// The blocks that are kept once the block `block_id`, which holds
    /// `payload`, has been used: it stands at the front; where it was
    /// not kept before and there is no room left, the block at the back
    /// has left.
    pub open spec fn touched(self, block_id: u64, payload: Seq<u8>) -> Seq<(u64, Seq<u8>)> {
        if holds_key(self.cached, block_id) {
            seq![(block_id, payload)] + self.cached.remove(key_index(self.cached, block_id))
        } else if self.cached.len() >= LRU_CACHE_SIZE {
            seq![(block_id, payload)] + self.cached.drop_last()
        } else {
            seq![(block_id, payload)] + self.cached
        }
    }
}

/// Reader of the data blocks of a stream.
pub struct DataBlocksReader {
    stream: Vec<u8>,
    cache: lru::LruCache<u64, Vec<u8>>,
}

impl View for DataBlocksReader {
    type V = ReaderView;

    closed spec fn view(&self) -> ReaderView {
        ReaderView { stream: self.stream@, cached: cache_entries(self.cache) }
    }
}

impl DataBlocksReader {
    /// Whether the cache was made for as many blocks as are to be kept.
    pub closed spec fn holds_limit(&self) -> bool {
        cache_limit(self.cache) == LRU_CACHE_SIZE
    }

    /// Whether the reader keeps what it should: no more blocks than there
    /// is room for, none twice, and each with the payload that it has in
    /// the stream.
    pub open spec fn wf(&self) -> bool {
        &&& self@.wf()
        &&& self.holds_limit()
    }

    /// A reader of the blocks of `stream`, which keeps none yet.
    pub fn new(stream: Vec<u8>) -> (reader: DataBlocksReader)
        ensures
            reader.wf(),
            reader@ == (ReaderView { stream: stream@, cached: Seq::empty() }),
    {
        DataBlocksReader { stream, cache: cache_new(LRU_CACHE_SIZE) }
    }

    /// Return a reference to the input stream.
    pub fn input_stream(&self) -> (stream: &[u8])
        ensures
            stream@ == self@.stream,
    {
        self.stream.as_slice()
    }

    /// The number of blocks whose payloads are kept: never more than the
    /// cache has room for.
    pub fn cached_blocks(&self) -> (count: usize)
        requires
            self.wf(),
        ensures
            count == self@.cached.len(),
            count <= LRU_CACHE_SIZE,
    {
        cache_len(&self.cache)
    }

    /// Return the known length of the stream.
    pub fn input_stream_len(&self) -> (len: u64)
        ensures
            len == self@.stream.len(),
    {
        self.stream.len() as u64
    }

    /// Decodes the block that starts at `block_id`.
    pub fn read_block(&self, block_id: u64) -> (result: Result<Vec<u8>, BlockError>)
        ensures
            match block_at(self@.stream, block_id as int) {
                Ok(payload) => result matches Ok(found) && found@ == payload,
                Err(error) => result matches Err(found) && found == error,
            },
    {
        let stream = self.stream.as_slice();
        if block_id >= stream.len() as u64 {
            return Err(BlockError::Io(IoKind::UnexpectedEof));
        }
        let start = block_id as usize;
        let tag = stream[start];
        if !(tag == super::TAG_UNCOMPRESSED || tag == super::TAG_DEFLATE || tag == super::TAG_LZ4) {
            return Err(BlockError::InvalidBlockType(tag));
        }
        if stream.len() - start < BLOCK_HEADER_SIZE {
            return Err(BlockError::Io(IoKind::UnexpectedEof));
        }
        let len = endian::read_be32(stream, start + 1);
        let left = stream.len() - start - BLOCK_HEADER_SIZE;
        if len as u64 > left as u64 {
            return Err(BlockError::InvalidLength(len as u64));
        }
        let first = start + BLOCK_HEADER_SIZE;
        decode_payload(tag, slice_subrange(stream, first, first + len as usize))
    }

    /// Get a block from its identifier.
    ///
    /// The function is applied only if the block can be fully read, and
    /// the offset is within the block. It gets the decoded payload from
    /// the offset on.
    pub fn with_block<T, F: FnOnce(&[u8]) -> T>(
        &mut self,
        block_id: u64,
        offset: usize,
        f: F,
    ) -> (result: Result<T, BlockError>)
        requires
            old(self).wf(),
            block_at(old(self)@.stream, block_id as int) matches Ok(payload) ==> forall|
                slice: &[u8],
            |
                offset <= payload.len() && slice@ == payload.skip(offset as int) ==> call_requires(
                    f,
                    (slice,),
                ),
        ensures
            final(self).wf(),
            final(self)@.stream == old(self)@.stream,
            match block_at(old(self)@.stream, block_id as int) {
                Err(error) => {
                    &&& result matches Err(found)
                    &&& found == error
                    &&& final(self)@ == old(self)@
                },
                Ok(payload) => {
                    &&& final(self)@.cached == old(self)@.touched(block_id, payload)
                    &&& if offset > payload.len() {
                        result matches Err(found) && found == BlockError::InvalidLength(
                            offset as u64,
                        )
                    } else {
                        result matches Ok(value) && exists|slice: &[u8]|
                            slice@ == payload.skip(offset as int) && call_ensures(
                                f,
                                (slice,),
                                value,
                            )
                    }
                },
            },
    {
        let ghost before = cache_entries(self.cache);
        if !cache_promote(&mut self.cache, block_id) {
            let payload = self.read_block(block_id)?;
            cache_put(&mut self.cache, block_id, payload);
        } else {
            proof {
                let after = cache_entries(self.cache);
                let i = choose|i: int|
                    0 <= i < before.len() && (#[trigger] before[i]).0 == block_id && after
                        == seq![before[i]] + before.remove(i);
                let j = key_index(before, block_id);
                assert(i == j);
                assert(before[i].1 == block_at(self.stream@, block_id as int)->Ok_0);
                assert(after[0] == before[i]);
                assert forall|a: int, b: int| 0 <= a < b < after.len() implies (
                #[trigger] after[a]).0 != (#[trigger] after[b]).0 by {
                    if a == 0 {
                        assert(after[b] == before.remove(i)[b - 1]);
                    } else {
                        assert(after[a] == before.remove(i)[a - 1]);
                        assert(after[b] == before.remove(i)[b - 1]);
                    }
                }
                assert forall|a: int| 0 <= a < after.len() implies block_at(
                    self.stream@,
                    (#[trigger] after[a]).0 as int,
                ) == Ok::<Seq<u8>, BlockError>(after[a].1) by {
                    if a > 0 {
                        assert(after[a] == before.remove(i)[a - 1]);
                    }
                }
            }
        }
        let ghost payload = block_at(self.stream@, block_id as int)->Ok_0;
        proof {
            let after = cache_entries(self.cache);
            assert(after[0] == (block_id, payload));
            assert(after =~= old(self)@.touched(block_id, payload));
            if !holds_key(before, block_id) {
                let kept = if before.len() >= LRU_CACHE_SIZE {
                    before.drop_last()
                } else {
                    before
                };
                assert forall|a: int, b: int| 0 <= a < b < after.len() implies (
                #[trigger] after[a]).0 != (#[trigger] after[b]).0 by {
                    assert(after[b] == kept[b - 1]);
                    assert(kept[b - 1] == before[b - 1]);
                    if a > 0 {
                        assert(after[a] == kept[a - 1]);
                        assert(kept[a - 1] == before[a - 1]);
                    }
                }
                assert forall|a: int| 0 <= a < after.len() implies block_at(
                    self.stream@,
                    (#[trigger] after[a]).0 as int,
                ) == Ok::<Seq<u8>, BlockError>(after[a].1) by {
                    if a > 0 {
                        assert(after[a] == kept[a - 1]);
                        assert(kept[a - 1] == before[a - 1]);
                    }
                }
            }
        }
        match cache_peek(&self.cache, block_id) {
            None => {
                assert(holds_key(cache_entries(self.cache), block_id)) by {
                    assert(cache_entries(self.cache)[0].0 == block_id);
                }
                Err(BlockError::Io(IoKind::Other))
            },
            Some(data) => {
                assert(data@ == payload) by {
                    let after = cache_entries(self.cache);
                    let i = choose|i: int|
                        0 <= i < after.len() && #[trigger] after[i] == (block_id, data@);
                    if i != 0 {
                        assert(after[0].0 != after[i].0);
                    }
                }
                if offset > data.len() {
                    return Err(BlockError::InvalidLength(offset as u64));
                }
                let slice = slice_subrange(data.as_slice(), offset, data.len());
                assert(slice@ =~= payload.skip(offset as int));
                Ok(f(slice))
            },
        }
    }
}

} // verus!
