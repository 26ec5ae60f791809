//! Writer for data blocks.
//!
//! The writer lays fragments out in blocks, one behind the other in a
//! stream. A fragment is addressed by the block that holds it and by its
//! offset in the decoded payload of that block.

use super::{
    block_at, block_bytes, block_len, encode_payload, lemma_block_at_same_prefix,
    lemma_block_round_trip, stored, BlockCompression, BlockError, IoKind,
};
use crate::endian;
use crate::persistence::kvlist::append;
use vstd::prelude::*;

verus! {

/// Size of the decoded payload that a block is not meant to exceed.
pub const MAX_DATA_BLOCK_SIZE: u64 = 32 * 1024;

/// The block that takes the fragments, as a mathematical value.
pub struct ActiveBlock {
    /// Position of the tag of the block in the stream.
    pub block_id: int,
    /// What has been written to the block.
    pub payload: Seq<u8>,
}

/// A writer as a mathematical value.
pub struct WriterView {
    /// What has been written to the stream. While a block is active this
    /// ends with its header, the length in it still zero.
    pub stream: Seq<u8>,
    /// How the payloads are compressed.
    pub compression: BlockCompression,
    /// The active block, if there is one.
    pub active: Option<ActiveBlock>,
}

impl WriterView {
    /// Whether the stream ends with the header of the active block, if
    /// there is one.
    pub open spec fn wf(self) -> bool {
        &&& self.compression.valid()
        &&& self.active matches Some(block) ==> {
            &&& 0 <= block.block_id
            &&& block.block_id + 5 == self.stream.len()
            &&& self.stream[block.block_id] == self.compression.spec_tag()
            &&& self.stream.subrange(block.block_id + 1, block.block_id + 5) == endian::be32(0)
        }
    }

    /// The stream once the active block is closed: the payload is stored
    /// behind the header, and its length stands in the header.
    pub open spec fn closed(self) -> Result<Seq<u8>, BlockError> {
        match self.active {
            None => Ok(self.stream),
            Some(block) => match stored(self.compression, block.payload) {
                None => Err(BlockError::Io(IoKind::Other)),
                Some(bytes) => if bytes.len() > u32::MAX {
                    Err(BlockError::BlockTooLarge)
                } else {
                    Ok(
                        self.stream.subrange(0, block.block_id) + block_bytes(
                            self.compression.spec_tag(),
                            bytes,
                        ),
                    )
                },
            },
        }
    }

    /// Whether a fragment with `size_hint` starts a block of its own: it
    /// does where no block is active, where the hint is the largest
    /// there is, and where the active block holds something and would
    /// with the fragment exceed the size that blocks are meant to have.
    pub open spec fn starts_block(self, size_hint: u64) -> bool {
        match self.active {
            None => true,
            Some(block) => size_hint == u64::MAX || (block.payload.len() > 0 && block.payload.len()
                + size_hint > MAX_DATA_BLOCK_SIZE),
        }
    }

    /// The writer once a fragment with `size_hint` is open.
    pub open spec fn with_fragment(self, size_hint: u64) -> Result<WriterView, BlockError> {
        if !self.starts_block(size_hint) {
            Ok(self)
        } else {
            match self.closed() {
                Err(error) => Err(error),
                Ok(stream) => Ok(
                    WriterView {
                        stream: stream + seq![self.compression.spec_tag()] + endian::be32(0),
                        compression: self.compression,
                        active: Some(
                            ActiveBlock { block_id: stream.len() as int, payload: Seq::empty() },
                        ),
                    },
                ),
            }
        }
    }

    /// The writer once `bytes` are written to its active block.
    pub open spec fn with_bytes(self, bytes: Seq<u8>) -> WriterView {
        match self.active {
            None => self,
            Some(block) => WriterView {
                active: Some(
                    ActiveBlock { block_id: block.block_id, payload: block.payload + bytes },
                ),
                ..self
            },
        }
    }

    /// Whether the active block, if there is one, stands closed in
    /// `stream` and is read from there with the payload that it has.
    pub open spec fn holds_active_block(self, stream: Seq<u8>) -> bool {
        self.active matches Some(block) ==> {
            &&& block_at(stream, block.block_id) == Ok::<Seq<u8>, BlockError>(block.payload)
            &&& block.block_id + block_len(stream, block.block_id) == stream.len()
        }
    }

    /// Where the closed blocks end.
    pub open spec fn blocks_end(self) -> int {
        match self.active {
            None => self.stream.len() as int,
            Some(block) => block.block_id,
        }
    }

    /// Whether `bytes` stand at `offset` in the payload of the block
    /// `block_id`, be it the active block or one that is closed.
    pub open spec fn holds_fragment(self, block_id: int, offset: int, bytes: Seq<u8>) -> bool {
        ||| {
            &&& self.active matches Some(block)
            &&& block.block_id == block_id
            &&& 0 <= offset
            &&& offset + bytes.len() <= block.payload.len()
            &&& block.payload.subrange(offset, offset + bytes.len()) == bytes
        }
        ||| closed_fragment(self.stream, self.blocks_end(), block_id, offset, bytes)
    }

    /// Whether the writer has kept what the stream held when it had
    /// `base`, and has added its blocks behind that.
    pub open spec fn extends(self, base: Seq<u8>) -> bool {
        &&& base.len() <= self.blocks_end() <= self.stream.len()
        &&& self.stream.subrange(0, base.len() as int) == base
    }

    /// The writer once the active block is closed.
    pub open spec fn after_close(self, stream: Seq<u8>) -> WriterView {
        WriterView { stream, compression: self.compression, active: None }
    }

    /// Where the next bytes written to the active block will stand.
    pub open spec fn location(self) -> FragmentLocation {
        match self.active {
            None => FragmentLocation { block_id: 0, offset: 0 },
            Some(block) => FragmentLocation {
                block_id: block.block_id as u64,
                offset: block.payload.len() as u64,
            },
        }
    }
}

/// Whether `bytes` stand at `offset` in the payload of the block that
/// starts at `block_id` in `stream` and ends before `end`.
pub open spec fn closed_fragment(
    stream: Seq<u8>,
    end: int,
    block_id: int,
    offset: int,
    bytes: Seq<u8>,
) -> bool {
    &&& block_at(stream, block_id) matches Ok(payload)
    &&& 0 <= offset
    &&& offset + bytes.len() <= payload.len()
    &&& payload.subrange(offset, offset + bytes.len()) == bytes
    &&& 0 <= block_id
    &&& block_id + block_len(stream, block_id) <= end <= stream.len()
}

/// A fragment of a closed block stays where it is when the stream
/// changes behind the closed blocks.
pub proof fn lemma_closed_fragment_kept(
    first: Seq<u8>,
    end: int,
    second: Seq<u8>,
    later_end: int,
    block_id: int,
    offset: int,
    bytes: Seq<u8>,
)
    requires
        closed_fragment(first, end, block_id, offset, bytes),
        end <= later_end <= second.len(),
        first.subrange(0, end) == second.subrange(0, end),
    ensures
        closed_fragment(second, later_end, block_id, offset, bytes),
{
    let len = block_id + block_len(first, block_id);
    assert(first.subrange(0, len) =~= first.subrange(0, end).subrange(0, len));
    assert(second.subrange(0, len) =~= second.subrange(0, end).subrange(0, len));
    lemma_block_at_same_prefix(first, second, block_id);
    assert(first.subrange(block_id + 1, block_id + 5) =~= first.subrange(0, end).subrange(
        block_id + 1,
        block_id + 5,
    ));
    assert(second.subrange(block_id + 1, block_id + 5) =~= second.subrange(0, end).subrange(
        block_id + 1,
        block_id + 5,
    ));
}

/// What a writer holds, it still holds once more bytes are written.
pub proof fn lemma_write_keeps(
    writer: WriterView,
    more: Seq<u8>,
    block_id: int,
    offset: int,
    bytes: Seq<u8>,
)
    requires
        writer.holds_fragment(block_id, offset, bytes),
    ensures
        writer.with_bytes(more).holds_fragment(block_id, offset, bytes),
{
    if writer.active is Some {
        let block = writer.active->Some_0;
        if block.block_id == block_id && 0 <= offset && offset + bytes.len()
            <= block.payload.len() {
            assert((block.payload + more).subrange(offset, offset + bytes.len())
                =~= block.payload.subrange(offset, offset + bytes.len()));
        }
    }
}

/// What is written to a writer stands where the writer was.
pub proof fn lemma_write_holds(writer: WriterView, bytes: Seq<u8>)
    requires
        writer.active is Some,
    ensures
        writer.with_bytes(bytes).holds_fragment(
            writer.active->Some_0.block_id,
            writer.active->Some_0.payload.len() as int,
            bytes,
        ),
{
    let block = writer.active->Some_0;
    let start = block.payload.len() as int;
    assert((block.payload + bytes).subrange(start, start + bytes.len()) =~= bytes);
}

/// What a writer holds, it still holds once its active block is closed.
pub proof fn lemma_close_keeps(writer: WriterView, block_id: int, offset: int, bytes: Seq<u8>)
    requires
        writer.wf(),
        writer.holds_fragment(block_id, offset, bytes),
        writer.closed() is Ok,
        writer.holds_active_block(writer.closed()->Ok_0),
    ensures
        writer.after_close(writer.closed()->Ok_0).holds_fragment(block_id, offset, bytes),
{
    let stream = writer.closed()->Ok_0;
    if writer.active is Some {
        let block = writer.active->Some_0;
        if closed_fragment(writer.stream, writer.blocks_end(), block_id, offset, bytes) {
            assert(writer.stream.subrange(0, block.block_id) =~= stream.subrange(
                0,
                block.block_id,
            ));
            lemma_closed_fragment_kept(
                writer.stream,
                block.block_id,
                stream,
                stream.len() as int,
                block_id,
                offset,
                bytes,
            );
        }
    }
}

/// What a writer holds, it still holds once a fragment is open.
pub proof fn lemma_fragment_keeps(
    writer: WriterView,
    size_hint: u64,
    block_id: int,
    offset: int,
    bytes: Seq<u8>,
)
    requires
        writer.wf(),
        writer.holds_fragment(block_id, offset, bytes),
        writer.with_fragment(size_hint) is Ok,
        writer.starts_block(size_hint) ==> writer.holds_active_block(writer.closed()->Ok_0),
    ensures
        writer.with_fragment(size_hint)->Ok_0.holds_fragment(block_id, offset, bytes),
{
    if writer.starts_block(size_hint) {
        let stream = writer.closed()->Ok_0;
        let later = writer.with_fragment(size_hint)->Ok_0;
        lemma_close_keeps(writer, block_id, offset, bytes);
        assert(stream.subrange(0, stream.len() as int) =~= later.stream.subrange(
            0,
            stream.len() as int,
        ));
        lemma_closed_fragment_kept(
            stream,
            stream.len() as int,
            later.stream,
            stream.len() as int,
            block_id,
            offset,
            bytes,
        );
    }
}

/// A writer keeps what the stream held before it, whatever it does.
pub proof fn lemma_extends_kept(writer: WriterView, base: Seq<u8>, size_hint: u64, more: Seq<u8>)
    requires
        writer.wf(),
        writer.extends(base),
    ensures
        writer.with_bytes(more).extends(base),
        writer.closed() matches Ok(stream) ==> writer.after_close(stream).extends(base),
        writer.with_fragment(size_hint) matches Ok(later) ==> later.extends(base),
{
    if writer.closed() is Ok {
        let stream = writer.closed()->Ok_0;
        assert(stream.subrange(0, base.len() as int) =~= base);
        if writer.with_fragment(size_hint) is Ok {
            let later = writer.with_fragment(size_hint)->Ok_0;
            assert(later.stream.subrange(0, base.len() as int) =~= base);
        }
    }
}

/// Track the active block.
enum BlockState {
    Wait,
    Active { block_id: usize, payload: Vec<u8> },
}

/// Data blocks generator.
pub struct DataBlocksWriter {
    stream: Vec<u8>,
    compression: BlockCompression,
    state: BlockState,
}

impl View for DataBlocksWriter {
    type V = WriterView;

    closed spec fn view(&self) -> WriterView {
        WriterView {
            stream: self.stream@,
            compression: self.compression,
            active: match self.state {
                BlockState::Wait => None,
                BlockState::Active { block_id, payload } => Some(
                    ActiveBlock { block_id: block_id as int, payload: payload@ },
                ),
            },
        }
    }
}

/// Location to get a fragment.
#[derive(Debug, Clone, Copy, PartialEq, Eq, Structural)]
pub struct FragmentLocation {
    pub block_id: u64,
    pub offset: u64,
}

/// A fragment inside a data block. It is created with
/// [`DataBlocksWriter::fragment`], and is used to add data to the data
/// block.
pub struct Fragment<'a> {
    pub writer: &'a mut DataBlocksWriter,
    pub block_id: u64,
    pub offset: u64,
}

impl DataBlocksWriter {
    /// Whether the stream ends with the header of the active block, if
    /// there is one.
    pub open spec fn wf(&self) -> bool {
        self@.wf()
    }

    /// A writer that adds blocks behind what `stream` holds.
    pub fn new(stream: Vec<u8>, compression: BlockCompression) -> (writer: DataBlocksWriter)
        requires
            compression.valid(),
        ensures
            writer.wf(),
            writer@ == (WriterView { stream: stream@, compression, active: None }),
    {
        DataBlocksWriter { stream, compression, state: BlockState::Wait }
    }

    /// Closes the active block, if there is one: stores its payload and
    /// records the length of what was stored in its header.
    pub fn close_current(&mut self) -> (result: Result<(), BlockError>)
        requires
            old(self).wf(),
        ensures
            final(self).wf(),
            match old(self)@.closed() {
                Ok(stream) => result is Ok && final(self)@ == (WriterView {
                    stream,
                    compression: old(self)@.compression,
                    active: None,
                }),
                Err(error) => result == Err::<(), BlockError>(error) && *final(self) == *old(
                    self,
                ),
            },
            result is Ok ==> old(self)@.holds_active_block(final(self)@.stream),
    {
        let (block_id, encoding) = match &self.state {
            BlockState::Wait => {
                return Ok(());
            },
            BlockState::Active { block_id, payload } => {
                (*block_id, encode_payload(self.compression, payload.as_slice()))
            },
        };
        let encoded = match encoding {
            Ok(encoded) => encoded,
            Err(error) => {
                return Err(error);
            },
        };
        if encoded.len() > u32::MAX as usize {
            return Err(BlockError::BlockTooLarge);
        }
        let ghost header = self.stream@;
        assert(block_id + 5 == self.stream.len());
        append(&mut self.stream, encoded.as_slice());
        let ghost unpatched = self.stream@;
        let len = encoded.len() as u32;
        let at: usize = block_id + 1;
        self.stream[at] = (len / 0x100_0000) as u8;
        self.stream[at + 1] = (len / 0x1_0000 % 0x100) as u8;
        self.stream[at + 2] = (len / 0x100 % 0x100) as u8;
        self.stream[at + 3] = (len % 0x100) as u8;
        self.state = BlockState::Wait;
        assert(self.stream@ =~= header.subrange(0, block_id as int) + block_bytes(
            self.compression.spec_tag(),
            encoded@,
        ));
        proof {
            let before = header.subrange(0, block_id as int);
            let tag = self.compression.spec_tag();
            lemma_block_round_trip(
                before,
                tag,
                encoded@,
                Seq::empty(),
                old(self)@.active->Some_0.payload,
            );
            assert(before + block_bytes(tag, encoded@) + Seq::<u8>::empty() =~= self.stream@);
        }
        Ok(())
    }

    /// Creates a new fragment inside a data block.
    ///
    /// `size_hint` is used to determine if a new block should be created
    /// to store the data.
    pub fn fragment(&mut self, size_hint: u64) -> (result: Result<Fragment<'_>, BlockError>)
        requires
            old(self).wf(),
        ensures
            match old(self)@.with_fragment(size_hint) {
                Ok(view) => {
                    &&& result matches Ok(fragment)
                    &&& fragment.wf()
                    &&& fragment.writer@ == view
                    &&& fragment.located() == view.location()
                    &&& *final(self) == *final(fragment.writer)
                },
                Err(error) => {
                    &&& result matches Err(found)
                    &&& found == error
                    &&& *final(self) == *old(self)
                },
            },
            old(self)@.starts_block(size_hint) ==> (old(self)@.closed() matches Ok(stream)
                ==> old(self)@.holds_active_block(stream)),
    {
        let starts_block = match &self.state {
            BlockState::Wait => true,
            BlockState::Active { payload, .. } => {
                let current_offset = payload.len() as u64;
                size_hint == u64::MAX || (current_offset > 0 && (current_offset
                    > MAX_DATA_BLOCK_SIZE || size_hint > MAX_DATA_BLOCK_SIZE - current_offset))
            },
        };
        if starts_block {
            self.close_current()?;
            let block_id = self.stream.len();
            self.stream.push(self.compression.tag());
            self.stream.push(0);
            self.stream.push(0);
            self.stream.push(0);
            self.stream.push(0);
            self.state = BlockState::Active { block_id, payload: Vec::new() };
            assert(self.stream@ =~= old(self)@.closed()->Ok_0 + seq![
                self.compression.spec_tag(),
            ] + endian::be32(0));
            assert(self.stream@.subrange(block_id + 1, block_id + 5) =~= endian::be32(0));
        }
        let (block_id, offset) = match &self.state {
            BlockState::Active { block_id, payload } => (*block_id as u64, payload.len() as u64),
            BlockState::Wait => (0, 0),
        };
        Ok(Fragment { writer: self, block_id, offset })
    }

    /// Gives back the stream as it is, the active block not closed.
    pub fn into_stream(self) -> (stream: Vec<u8>)
        ensures
            stream@ == self@.stream,
    {
        self.stream
    }

    /// Closes any active block, and gives back the stream.
    pub fn finish(self) -> (result: Result<Vec<u8>, BlockError>)
        requires
            self.wf(),
        ensures
            match self@.closed() {
                Ok(stream) => result matches Ok(found) && found@ == stream
                    && self@.holds_active_block(stream),
                Err(error) => result matches Err(found) && found == error,
            },
    {
        let mut writer = self;
        writer.close_current()?;
        Ok(writer.stream)
    }
}

impl<'a> Fragment<'a> {
    /// Whether the fragment is where the writer takes its bytes.
    pub open spec fn wf(&self) -> bool {
        &&& self.writer.wf()
        &&& self.writer@.active is Some
        &&& self.block_id == self.writer@.active->Some_0.block_id
        &&& self.offset <= self.writer@.active->Some_0.payload.len()
    }

    /// Where the fragment starts.
    pub open spec fn located(&self) -> FragmentLocation {
        FragmentLocation { block_id: self.block_id, offset: self.offset }
    }

    /// Adds `buf` to the fragment.
    pub fn write_all(&mut self, buf: &[u8])
        requires
            old(self).wf(),
        ensures
            final(self).wf(),
            final(self).writer@ == old(self).writer@.with_bytes(buf@),
            final(self).block_id == old(self).block_id,
            final(self).offset == old(self).offset,
            *final(final(self).writer) == *final(old(self).writer),
    {
        match &mut self.writer.state {
            BlockState::Active { payload, .. } => {
                append(payload, buf);
            },
            BlockState::Wait => {},
        }
    }

    /// Finishes this fragment and returns its location.
    pub fn location(self) -> (location: FragmentLocation)
        ensures
            location == self.located(),
            *final(self.writer) == *old(self.writer),
    {
        FragmentLocation { block_id: self.block_id, offset: self.offset }
    }
}

} // verus!
