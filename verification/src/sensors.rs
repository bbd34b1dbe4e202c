//! Bookkeeping for a sensor sample ring buffer kept in a shared file: the
//! metadata record that tracks the read head, the write head and the fill
//! level, with a fixed binary layout so that cooperating processes can
//! exchange it.

use vstd::prelude::*;
use vstd::bytes::{lemma_auto_spec_u64_to_from_le_bytes, spec_u64_from_le_bytes,
    spec_u64_to_le_bytes, u64_from_le_bytes, u64_to_le_bytes};
use crate::binpack::BinPack;

verus! {

/// Why a sensor buffer operation failed.
#[derive(Clone, Copy, Debug, PartialEq, Eq, Structural)]
pub enum SensorDataError {
    BufferFullError,
    BufferEmptyError,
    MetadataReadError,
    DataReadError,
}

/// The metadata record at the front of the sample file: a ring of
/// `buffer_size` sample slots holding `current_size` unread samples, read at
/// `read_head` and written at `write_head`.
#[derive(Clone, Copy, Debug, PartialEq, Eq, Structural)]
pub struct SensorFileMetadata {
    pub read_head: u64,
    pub write_head: u64,
    pub buffer_size: u64,
    pub current_size: u64,
}

/// The command-line options of the sensor programs.
pub struct Args {
    pub file: String,
    pub sensors: u32,
    pub samples: u64,
    pub verbose: bool,
    pub nowait: bool,
}

impl SensorFileMetadata {
    /// The heads stay inside the ring and the fill level fits.
    pub open spec fn wf(self) -> bool {
        &&& self.current_size <= self.buffer_size
        &&& (if self.buffer_size == 0 {
            self.read_head == 0 && self.write_head == 0
        } else {
            self.read_head < self.buffer_size && self.write_head < self.buffer_size
        })
    }

    /// An empty ring of `size` slots.
    pub fn from_size(size: u64) -> (r: SensorFileMetadata)
        ensures
            r.wf(),
            r.read_head == 0,
            r.write_head == 0,
            r.buffer_size == size,
            r.current_size == 0,
    {
        SensorFileMetadata { read_head: 0, write_head: 0, buffer_size: size, current_size: 0 }
    }

    /// Claim the next write slot: the write head advances cyclically and the
    /// fill level grows, unless the ring is full, which leaves everything
    /// unchanged and reports `BufferFullError`.
    pub fn advance_write_head(&mut self) -> (r: Result<(), SensorDataError>)
        requires
            old(self).wf(),
        ensures
            final(self).wf(),
            old(self).current_size == old(self).buffer_size ==> r == Err::<(), SensorDataError>(
                SensorDataError::BufferFullError,
            ) && *final(self) == *old(self),
            old(self).current_size < old(self).buffer_size ==> r == Ok::<(), SensorDataError>(())
                && final(self).write_head == (old(self).write_head as int + 1) % (old(self).buffer_size as int)
                && final(self).current_size == old(self).current_size + 1 && final(self).read_head
                == old(self).read_head && final(self).buffer_size == old(self).buffer_size,
    {
        if self.current_size == self.buffer_size {
            Err(SensorDataError::BufferFullError)
        } else {
            self.write_head = (self.write_head + 1) % self.buffer_size;
            self.current_size = self.current_size + 1;
            Ok(())
        }
    }

    /// Release the next read slot: the read head advances cyclically and the
    /// fill level shrinks, unless the ring is empty, which leaves everything
    /// unchanged and reports `BufferEmptyError`.
    pub fn advance_read_head(&mut self) -> (r: Result<(), SensorDataError>)
        requires
            old(self).wf(),
        ensures
            final(self).wf(),
            old(self).current_size == 0 ==> r == Err::<(), SensorDataError>(
                SensorDataError::BufferEmptyError,
            ) && *final(self) == *old(self),
            old(self).current_size > 0 ==> r == Ok::<(), SensorDataError>(()) && final(self).read_head == (old(self).read_head as int + 1) % (old(self).buffer_size as int) && final(self).current_size == old(self).current_size - 1 && final(self).write_head == old(self).write_head && final(self).buffer_size == old(self).buffer_size,
    {
        if self.current_size == 0 {
            Err(SensorDataError::BufferEmptyError)
        } else {
            self.read_head = (self.read_head + 1) % self.buffer_size;
            self.current_size = self.current_size - 1;
            Ok(())
        }
    }

    /// Whether no unread sample is stored.
    pub fn is_empty(&self) -> (r: bool)
        ensures
            r == (self.current_size == 0),
    {
        self.current_size == 0
    }
}

impl Default for SensorFileMetadata {
    /// An empty ring of twenty slots.
    fn default() -> (r: SensorFileMetadata)
        ensures
            r.wf(),
            r.read_head == 0,
            r.write_head == 0,
            r.buffer_size == 20,
            r.current_size == 0,
    {
        SensorFileMetadata { read_head: 0, write_head: 0, buffer_size: 20, current_size: 0 }
    }
}

impl BinPack for SensorFileMetadata {
    /// Four little-endian 64-bit words: read head, write head, ring size,
    /// fill level.
    open spec fn packed(&self) -> Seq<u8> {
        spec_u64_to_le_bytes(self.read_head) + spec_u64_to_le_bytes(self.write_head)
            + spec_u64_to_le_bytes(self.buffer_size) + spec_u64_to_le_bytes(self.current_size)
    }

    /// The record read from the first 32 bytes, or `None` when fewer are
    /// given.
    open spec fn unpack(data: Seq<u8>) -> Option<SensorFileMetadata> {
        if data.len() < 32 {
            None
        } else {
            Some(
                SensorFileMetadata {
                    read_head: spec_u64_from_le_bytes(data.subrange(0, 8)),
                    write_head: spec_u64_from_le_bytes(data.subrange(8, 16)),
                    buffer_size: spec_u64_from_le_bytes(data.subrange(16, 24)),
                    current_size: spec_u64_from_le_bytes(data.subrange(24, 32)),
                },
            )
        }
    }

    fn to_bytes(&self) -> (r: Vec<u8>)
        ensures
            r@ == self.packed(),
    {
        let mut r = u64_to_le_bytes(self.read_head);
        let mut b = u64_to_le_bytes(self.write_head);
        r.append(&mut b);
        let mut c = u64_to_le_bytes(self.buffer_size);
        r.append(&mut c);
        let mut d = u64_to_le_bytes(self.current_size);
        r.append(&mut d);
        r
    }

    fn from_bytes(data: &[u8]) -> (r: Option<SensorFileMetadata>)
        ensures
            r == Self::unpack(data@),
    {
        if data.len() < 32 {
            return None;
        }
        let read_head = u64_from_le_bytes(slice_part(data, 0, 8));
        let write_head = u64_from_le_bytes(slice_part(data, 8, 16));
        let buffer_size = u64_from_le_bytes(slice_part(data, 16, 24));
        let current_size = u64_from_le_bytes(slice_part(data, 24, 32));
        Some(SensorFileMetadata { read_head, write_head, buffer_size, current_size })
    }
}

/// The bytes of `data` from `from` (inclusive) to `to` (exclusive).
fn slice_part(data: &[u8], from: usize, to: usize) -> (r: &[u8])
    requires
        from <= to <= data@.len(),
    ensures
        r@ == data@.subrange(from as int, to as int),
{
    &data[from..to]
}

/// Decoding an encoded metadata record yields the record back: the binary
/// layout loses nothing.
pub proof fn lemma_metadata_roundtrip(m: SensorFileMetadata)
    ensures
        SensorFileMetadata::unpack(m.packed()) == Some(m),
{
    lemma_auto_spec_u64_to_from_le_bytes();
    assert(m.packed().len() == 32);
    assert(m.packed().subrange(0, 8) =~= spec_u64_to_le_bytes(m.read_head));
    assert(m.packed().subrange(8, 16) =~= spec_u64_to_le_bytes(m.write_head));
    assert(m.packed().subrange(16, 24) =~= spec_u64_to_le_bytes(m.buffer_size));
    assert(m.packed().subrange(24, 32) =~= spec_u64_to_le_bytes(m.current_size));
}

} // verus!
