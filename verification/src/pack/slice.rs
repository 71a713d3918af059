use crate::error::IoErrorKind;
use crate::error::PackError;
use crate::pack::backpack::BackPack;
use crate::pack::buffer::InMemoryBuf;
use crate::pack::buffer::read_buf;
use crate::pack::buffer::read_len;
use crate::pack::buffer::resized;
use crate::pack::buffer::seek_result;
use crate::pack::buffer::SeekFrom;
use crate::pack::buffer::write_fits;
use crate::pack::buffer::written;
use vstd::prelude::*;

verus! {

/// A cursor into one buffer of a backpack. Offset and length name the
/// buffer; they are its identity, not its current size. The handle holds no
/// bytes: every access names the backpack that owns the buffer.
#[derive(Clone, Copy, Debug, PartialEq, Eq)]
pub struct PackSlice {
    pub start: u64,
    pub end: u64,
    pub pos: u64,
}

impl PackSlice {
    /// A handle on the buffer stored under `start` and `end`, with the cursor
    /// at the start.
    pub fn new(start: u64, end: u64) -> (s: PackSlice)
        ensures
            s.start == start,
            s.end == end,
            s.pos == 0,
    {
        PackSlice { start, end, pos: 0 }
    }

    /// The current cursor position.
    pub fn position(&self) -> (p: u64)
        ensures
            p == self.pos,
    {
        self.pos
    }

    /// The key under which the backpack holds the buffer.
    pub open spec fn spec_identifier(&self) -> (u64, u64) {
        (self.start, self.end)
    }

    /// The key under which the backpack holds the buffer.
    pub fn identifier(&self) -> (k: (u64, u64))
        ensures
            k == self.spec_identifier(),
    {
        (self.start, self.end)
    }

    /// The bytes of the buffer that the handle names, as `pack` holds them.
    pub open spec fn bytes_in(&self, pack: &BackPack) -> Seq<u8>
        recommends
            pack.buffers().contains_key(self.spec_identifier()),
    {
        pack.buffers()[self.spec_identifier()]
    }

    /// True when `pack` holds the buffer that the handle names.
    pub open spec fn valid_in(&self, pack: &BackPack) -> bool {
        pack.buffers().contains_key(self.spec_identifier())
    }

    /// The same handle with the cursor at `pos`.
    pub open spec fn at(&self, pos: u64) -> PackSlice {
        PackSlice { start: self.start, end: self.end, pos }
    }

    /// True when the bytes `after` can take the place of the buffer in
    /// `pack` without the byte count exceeding the largest size.
    pub open spec fn room_for(&self, pack: &BackPack, after: Seq<u8>) -> bool {
        pack.memory() - self.bytes_in(pack).len() + after.len() <= usize::MAX
    }

    /// A copy of the bytes of the buffer, taken under its read lock. A handle
    /// whose buffer `pack` does not hold is an invalid entry.
    pub fn get_bytes(&self, pack: &BackPack) -> (r: Result<Vec<u8>, PackError>)
        ensures
            self.valid_in(pack) ==> (r matches Ok(v) && v@ == self.bytes_in(pack)),
            !self.valid_in(pack) ==> (r matches Err(e) && e == PackError::InvalidEntry),
    {
        match pack.retrieve_slice(self) {
            Some(v) => Ok(v),
            None => Err(PackError::InvalidEntry),
        }
    }

    /// Cuts or zero-extends the buffer to exactly `size` bytes, under its
    /// write lock; the cursor stays. Nothing changes when `pack` does not
    /// hold the buffer (an invalid entry), when no byte vector has that size
    /// (invalid input), or when the byte count of `pack` would exceed the
    /// largest size (out of memory).
    pub fn resize(&mut self, pack: &mut BackPack, size: u64) -> (r: Result<(), PackError>)
        requires
            old(pack).wf(),
        ensures
            *final(self) == *old(self),
            final(pack).wf(),
            final(pack).same_catalog(old(pack)),
            old(self).valid_in(old(pack)) ==> final(pack).memory() + old(self).bytes_in(
                old(pack),
            ).len() == old(pack).memory() + old(self).bytes_in(final(pack)).len(),
            !old(self).valid_in(old(pack)) ==> (r matches Err(e) && e == PackError::InvalidEntry
                && *final(pack) == *old(pack)),
            old(self).valid_in(old(pack)) ==> {
                let after = resized(old(self).bytes_in(old(pack)), size as nat);
                if size > usize::MAX {
                    r matches Err(e) && e == PackError::Io(IoErrorKind::InvalidInput) && *final(pack)
                        == *old(pack)
                } else if !old(self).room_for(old(pack), after) {
                    r matches Err(e) && e == PackError::Io(IoErrorKind::OutOfMemory) && *final(pack)
                        == *old(pack)
                } else {
                    r is Ok && final(pack).buffers() == old(pack).buffers().insert(
                        old(self).spec_identifier(),
                        after,
                    )
                }
            },
    {
        let bytes = match pack.retrieve_slice(self) {
            Some(v) => v,
            None => {
                return Err(PackError::InvalidEntry);
            },
        };
        let mut view = InMemoryBuf { data: bytes, pos: self.pos };
        match view.set_len(size) {
            Ok(_) => {},
            Err(e) => {
                return Err(PackError::Io(IoErrorKind::InvalidInput));
            },
        }
        pack.store_slice(self, view.data)
    }

    /// Reads up to `buf.len()` bytes of the buffer at the cursor into the
    /// front of `buf`, under the buffer's read lock, and advances the cursor
    /// by the number of bytes read. A handle whose buffer `pack` does not
    /// hold is an invalid entry, and nothing changes.
    pub fn read(&mut self, pack: &BackPack, buf: &mut [u8]) -> (r: Result<usize, PackError>)
        ensures
            !old(self).valid_in(pack) ==> (r matches Err(e) && e == PackError::InvalidEntry
                && *final(self) == *old(self) && final(buf)@ == old(buf)@),
            old(self).valid_in(pack) ==> {
                let bytes = old(self).bytes_in(pack);
                let n = read_len(bytes, old(self).pos, old(buf)@.len());
                &&& r == Ok::<usize, PackError>(n as usize)
                &&& old(self).pos + n <= u64::MAX
                &&& *final(self) == old(self).at((old(self).pos + n) as u64)
                &&& final(buf)@ == read_buf(bytes, old(self).pos, old(buf)@)
            },
    {
        let bytes = match pack.retrieve_slice(self) {
            Some(v) => v,
            None => {
                return Err(PackError::InvalidEntry);
            },
        };
        let mut view = InMemoryBuf { data: bytes, pos: self.pos };
        let n = view.read(buf);
        self.pos = view.pos;
        Ok(n)
    }

    /// Writes all of `buf` into the buffer at the cursor, under the buffer's
    /// write lock, and advances the cursor past it; a gap between the end of
    /// the buffer and the cursor is filled with zeros. Nothing changes when
    /// `pack` does not hold the buffer (an invalid entry), when the write
    /// would end beyond the largest length of a byte vector (invalid input),
    /// or when the byte count of `pack` would exceed the largest size (out of
    /// memory).
    pub fn write(&mut self, pack: &mut BackPack, buf: &[u8]) -> (r: Result<usize, PackError>)
        requires
            old(pack).wf(),
        ensures
            final(pack).wf(),
            final(pack).same_catalog(old(pack)),
            old(self).valid_in(old(pack)) ==> final(pack).memory() + old(self).bytes_in(
                old(pack),
            ).len() == old(pack).memory() + old(self).bytes_in(final(pack)).len(),
            !old(self).valid_in(old(pack)) ==> (r matches Err(e) && e == PackError::InvalidEntry
                && *final(pack) == *old(pack) && *final(self) == *old(self)),
            old(self).valid_in(old(pack)) ==> {
                let after = written(old(self).bytes_in(old(pack)), old(self).pos as nat, buf@);
                if !write_fits(old(self).pos, buf@.len()) {
                    r matches Err(e) && e == PackError::Io(IoErrorKind::InvalidInput) && *final(pack)
                        == *old(pack) && *final(self) == *old(self)
                } else if !old(self).room_for(old(pack), after) {
                    r matches Err(e) && e == PackError::Io(IoErrorKind::OutOfMemory) && *final(pack)
                        == *old(pack) && *final(self) == *old(self)
                } else {
                    r == Ok::<usize, PackError>(buf@.len() as usize) && final(pack).buffers() == old(
                        pack,
                    ).buffers().insert(old(self).spec_identifier(), after) && *final(self) == old(
                        self,
                    ).at((old(self).pos + buf@.len()) as u64)
                }
            },
    {
        let bytes = match pack.retrieve_slice(self) {
            Some(v) => v,
            None => {
                return Err(PackError::InvalidEntry);
            },
        };
        let mut view = InMemoryBuf { data: bytes, pos: self.pos };
        let n = match view.write(buf) {
            Ok(n) => n,
            Err(e) => {
                return Err(PackError::Io(IoErrorKind::InvalidInput));
            },
        };
        let pos = view.pos;
        match pack.store_slice(self, view.data) {
            Ok(_) => {},
            Err(e) => {
                return Err(PackError::Io(IoErrorKind::OutOfMemory));
            },
        }
        self.pos = pos;
        Ok(n)
    }

    /// Nothing is buffered outside the backpack, so there is nothing to do.
    pub fn flush(&mut self) -> (r: Result<(), PackError>)
        ensures
            r is Ok,
            *final(self) == *old(self),
    {
        Ok(())
    }

    /// Moves the cursor, counting from the start, from the current length of
    /// the buffer, or from the cursor. A target below zero is clamped to
    /// zero; a target beyond the largest position is invalid input; a handle
    /// whose buffer `pack` does not hold is an invalid entry. After an error
    /// the cursor is where it was.
    pub fn seek(&mut self, pack: &BackPack, from: SeekFrom) -> (r: Result<u64, PackError>)
        ensures
            !old(self).valid_in(pack) ==> (r matches Err(e) && e == PackError::InvalidEntry
                && *final(self) == *old(self)),
            old(self).valid_in(pack) ==> {
                let target = seek_result(old(self).bytes_in(pack).len(), old(self).pos, from);
                if target > u64::MAX {
                    r matches Err(e) && e == PackError::Io(IoErrorKind::InvalidInput) && *final(self)
                        == *old(self)
                } else {
                    r == Ok::<u64, PackError>(target as u64) && *final(self) == old(self).at(
                        target as u64,
                    )
                }
            },
    {
        let bytes = match pack.retrieve_slice(self) {
            Some(v) => v,
            None => {
                return Err(PackError::InvalidEntry);
            },
        };
        let mut view = InMemoryBuf { data: bytes, pos: self.pos };
        match view.seek(from) {
            Ok(p) => {
                self.pos = p;
                Ok(p)
            },
            Err(e) => Err(PackError::Io(IoErrorKind::InvalidInput)),
        }
    }
}

} // verus!
