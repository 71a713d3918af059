use crate::error::IoErrorKind;
use crate::error::PackError;
use crate::pack::backpack::BackPack;
use crate::pack::buffer::InMemoryBuf;
use crate::pack::buffer::read_outcome;
use crate::pack::buffer::remaining;
use crate::pack::buffer::resized;
use crate::pack::buffer::seek_outcome;
use crate::pack::buffer::SeekFrom;
use crate::pack::buffer::set_len_outcome;
use crate::pack::buffer::write_outcome;
use crate::pack::buffer::written;
use crate::pack::in_memory::InMemoryFile;
use vstd::prelude::*;
use vstd::slice::slice_to_vec;

verus! {

/// What the library knows of a file of the host: its length in bytes.
#[derive(Clone, Copy, Debug, PartialEq, Eq, Structural)]
pub struct Metadata {
    pub len: u64,
}

/// A raw stream: a file in memory, or a file of the host. Of a file of the
/// host the library holds the bytes as the host read them, and the cursor;
/// the host writes them back.
#[derive(Debug)]
pub enum RawFile {
    InMemory(InMemoryFile),
    Disk { name: Option<String>, file: InMemoryBuf },
}

impl RawFile {
    /// True for a handle on a buffer of a backpack.
    pub open spec fn is_packed(&self) -> bool {
        self matches RawFile::InMemory(f) && f.is_packed()
    }

    /// True for a handle on a buffer of a backpack.
    pub fn is_handle(&self) -> (b: bool)
        ensures
            b == self.is_packed(),
    {
        match self {
            RawFile::InMemory(f) => f.is_handle(),
            RawFile::Disk { .. } => false,
        }
    }

    /// The name of the stream, as mathematics.
    pub open spec fn spec_name(&self) -> Option<Seq<char>> {
        match self {
            RawFile::InMemory(f) => f.spec_name(),
            RawFile::Disk { name: Some(n), .. } => Some(n@),
            RawFile::Disk { name: None, .. } => None,
        }
    }

    /// The cursor of a stream that owns its bytes.
    pub open spec fn cursor(&self) -> InMemoryBuf
        recommends
            !self.is_packed(),
    {
        match self {
            RawFile::InMemory(f) => f.cursor(),
            RawFile::Disk { file, .. } => *file,
        }
    }

    /// The stream with another cursor in the place of its own.
    pub open spec fn with_cursor(&self, c: InMemoryBuf) -> RawFile {
        match self {
            RawFile::InMemory(f) => RawFile::InMemory(f.with_cursor(c)),
            RawFile::Disk { name, .. } => RawFile::Disk { name: *name, file: c },
        }
    }

    /// An empty stream in memory called `name`.
    pub fn in_memory(name: &str) -> (f: RawFile)
        ensures
            f matches RawFile::InMemory(InMemoryFile::Named { name: n, data }) && n@ == name@
                && data.data@.len() == 0 && data.pos == 0,
    {
        RawFile::InMemory(InMemoryFile::new(name))
    }

    /// A stream over the bytes of a file of the host, the cursor at the start.
    pub fn disk(name: Option<String>, bytes: Vec<u8>) -> (f: RawFile)
        ensures
            f matches RawFile::Disk { name: n, file } && n == name && file.data@ == bytes@
                && file.pos == 0,
    {
        RawFile::Disk { name, file: InMemoryBuf::new(bytes) }
    }

    /// The same stream under another name.
    pub fn with_name(self, name: &str) -> (f: RawFile)
        ensures
            f.spec_name() == Some(name@),
            f.is_packed() == self.is_packed(),
            !self.is_packed() ==> f.cursor() == self.cursor(),
            match self {
                RawFile::InMemory(InMemoryFile::Packed { data, .. }) => f matches RawFile::InMemory(
                    InMemoryFile::Packed { data: d, .. },
                ) && d == data,
                RawFile::InMemory(_) => f matches RawFile::InMemory(
                    InMemoryFile::Named { .. },
                ),
                RawFile::Disk { .. } => f is Disk,
            },
    {
        match self {
            RawFile::InMemory(f) => RawFile::InMemory(f.with_name(name)),
            RawFile::Disk { file, .. } => RawFile::Disk { name: Some(name.to_owned()), file },
        }
    }

    /// The name of the stream, if it has one.
    pub fn name(&self) -> (n: Option<&String>)
        ensures
            n is Some <==> self.spec_name() is Some,
            n matches Some(s) ==> Some(s@) == self.spec_name(),
    {
        match self {
            RawFile::InMemory(f) => f.name(),
            RawFile::Disk { name, .. } => name.as_ref(),
        }
    }

    /// The cursor of a stream that owns its bytes, to read and write through;
    /// none for a handle.
    pub fn cursor_mut(&mut self) -> (c: Option<&mut InMemoryBuf>)
        ensures
            old(self).is_packed() ==> c is None && *final(self) == *old(self),
            !old(self).is_packed() ==> (c matches Some(r) && *r == old(self).cursor()
                && *final(self) == old(self).with_cursor(*final(r))),
    {
        match self {
            RawFile::InMemory(f) => f.cursor_mut(),
            RawFile::Disk { file, .. } => Some(file),
        }
    }

    /// True when the two are one stream but for cursor and bytes.
    pub open spec fn is_like(&self, other: &RawFile) -> bool {
        match (*self, *other) {
            (RawFile::InMemory(a), RawFile::InMemory(b)) => a.is_like(&b),
            (RawFile::Disk { name: a, .. }, RawFile::Disk { name: b, .. }) => a == b,
            _ => false,
        }
    }

    /// The bytes that the stream presents, or the error that every access to
    /// them meets.
    pub open spec fn stream(&self, pack: Option<BackPack>) -> Result<Seq<u8>, PackError> {
        match self {
            RawFile::InMemory(f) => f.stream(pack),
            RawFile::Disk { file, .. } => Ok(file.data@),
        }
    }

    /// True when the owner of the bytes has room for `after` in their place.
    pub open spec fn room(&self, pack: Option<BackPack>, after: Seq<u8>) -> bool {
        match self {
            RawFile::InMemory(f) => f.room(pack, after),
            RawFile::Disk { .. } => true,
        }
    }

    /// What an operation on the stream may do to the backpack it was given:
    /// nothing, but for a handle the bytes of its own buffer.
    pub open spec fn pack_kept(&self, before: Option<BackPack>, after: Option<BackPack>) -> bool {
        match self {
            RawFile::InMemory(f) => f.pack_kept(before, after),
            RawFile::Disk { .. } => before == after,
        }
    }

    /// The position of the stream's cursor.
    pub open spec fn spec_current_offset(&self) -> u64 {
        match self {
            RawFile::InMemory(f) => f.spec_current_offset(),
            RawFile::Disk { file, .. } => file.pos,
        }
    }

    /// The file in memory behind the stream; a file of the host comes back
    /// as it is.
    pub fn into_memory(self) -> (r: Result<InMemoryFile, RawFile>)
        ensures
            match self {
                RawFile::InMemory(f) => r == Ok::<InMemoryFile, RawFile>(f),
                RawFile::Disk { .. } => r == Err::<InMemoryFile, RawFile>(self),
            },
    {
        match self {
            RawFile::InMemory(f) => Ok(f),
            RawFile::Disk { name, file } => Err(RawFile::Disk { name, file }),
        }
    }

    /// Turns the stream into a file in memory. A file of the host is drained
    /// from its cursor to its end into a file that keeps the name, if there
    /// is one, with the cursor at the start.
    pub fn convert_into_memory(self) -> (r: Result<InMemoryFile, PackError>)
        ensures
            match self {
                RawFile::InMemory(f) => r == Ok::<InMemoryFile, PackError>(f),
                RawFile::Disk { name: Some(n), file } => r matches Ok(
                    InMemoryFile::Named { name, data },
                ) && name == n && data.data@ == remaining(file.data@, file.pos) && data.pos == 0,
                RawFile::Disk { name: None, file } => r matches Ok(InMemoryFile::Unnamed { data })
                    && data.data@ == remaining(file.data@, file.pos) && data.pos == 0,
            },
    {
        match self {
            RawFile::InMemory(f) => Ok(f),
            RawFile::Disk { name, file } => {
                let mut file = file;
                let data = file.read_to_end();
                match name {
                    Some(n) => Ok(InMemoryFile::Named { name: n, data: InMemoryBuf::new(data) }),
                    None => Ok(InMemoryFile::from_bytes(data)),
                }
            },
        }
    }

    /// The position of the stream's cursor.
    pub fn current_offset(&mut self) -> (r: Result<u64, PackError>)
        ensures
            r == Ok::<u64, PackError>(old(self).spec_current_offset()),
            *final(self) == *old(self),
    {
        match self {
            RawFile::InMemory(f) => Ok(f.current_offset()),
            RawFile::Disk { file, .. } => Ok(file.position()),
        }
    }

    /// Nothing of a stream in memory is kept outside it, and a file of the
    /// host is written back by the host: there is nothing to do.
    pub fn sync_all(&self) -> (r: Result<(), PackError>)
        ensures
            r is Ok,
    {
        Ok(())
    }

    /// As `sync_all`.
    pub fn sync_data(&self) -> (r: Result<(), PackError>)
        ensures
            r is Ok,
    {
        Ok(())
    }

    /// What is known of the file: of a file of the host its length; of a
    /// file in memory nothing, which is reported as unsupported.
    pub fn metadata(&self) -> (r: Result<Metadata, PackError>)
        ensures
            match self {
                RawFile::InMemory(_) => r matches Err(e) && e == PackError::Io(
                    IoErrorKind::Unsupported,
                ),
                RawFile::Disk { file, .. } => r == Ok::<Metadata, PackError>(
                    Metadata { len: file.data@.len() as u64 },
                ),
            },
    {
        match self {
            RawFile::InMemory(_) => Err(PackError::Io(IoErrorKind::Unsupported)),
            RawFile::Disk { file, .. } => Ok(Metadata { len: file.data.len() as u64 }),
        }
    }

    /// A second stream on the same file, with a cursor of its own that
    /// starts where this one stands. Of files in memory only a handle can be
    /// duplicated.
    pub fn try_clone(&self) -> (r: Result<RawFile, PackError>)
        requires
            self is InMemory ==> self.is_packed(),
        ensures
            r matches Ok(f) && f.is_like(self) && f.spec_current_offset()
                == self.spec_current_offset() && f.stream(None) == self.stream(None) && (
            self.is_packed() ==> f == *self),
    {
        match self {
            RawFile::InMemory(f) => match f.try_clone() {
                Ok(g) => Ok(RawFile::InMemory(g)),
                Err(e) => Err(e),
            },
            RawFile::Disk { name, file } => Ok(
                RawFile::Disk {
                    name: match name {
                        Some(n) => Some(n.clone()),
                        None => None,
                    },
                    file: InMemoryBuf { data: slice_to_vec(file.data.as_slice()), pos: file.pos },
                },
            ),
        }
    }

    /// Cuts or zero-extends the bytes of the stream to exactly `size` bytes;
    /// the cursor stays.
    pub fn set_len(&mut self, pack: Option<&mut BackPack>, size: u64) -> (r: Result<(), PackError>)
        requires
            match pack {
                Some(p) => p.wf(),
                None => true,
            },
        ensures
            final(self).is_like(old(self)),
            final(self).spec_current_offset() == old(self).spec_current_offset(),
            match pack {
                None => set_len_outcome(
                    old(self).stream(None),
                    final(self).stream(None),
                    size,
                    true,
                    r,
                ),
                Some(p) => old(self).pack_kept(Some(*p), Some(*final(p))) && set_len_outcome(
                    old(self).stream(Some(*p)),
                    final(self).stream(Some(*final(p))),
                    size,
                    old(self).room(
                        Some(*p),
                        resized(old(self).stream(Some(*p))->Ok_0, size as nat),
                    ),
                    r,
                ),
            },
    {
        match self {
            RawFile::InMemory(f) => f.set_len(pack, size),
            RawFile::Disk { file, .. } => file.set_len(size),
        }
    }

    /// Reads up to `buf.len()` bytes at the cursor into the front of `buf`
    /// and advances the cursor by the number of bytes read.
    pub fn read(&mut self, pack: Option<&BackPack>, buf: &mut [u8]) -> (r: Result<usize, PackError>)
        ensures
            final(self).is_like(old(self)),
            read_outcome(
                old(self).stream(
                    match pack {
                        Some(p) => Some(*p),
                        None => None,
                    },
                ),
                old(self).spec_current_offset(),
                final(self).stream(
                    match pack {
                        Some(p) => Some(*p),
                        None => None,
                    },
                ),
                final(self).spec_current_offset(),
                old(buf)@,
                final(buf)@,
                r,
            ),
    {
        match self {
            RawFile::InMemory(f) => f.read(pack, buf),
            RawFile::Disk { file, .. } => Ok(file.read(buf)),
        }
    }

    /// Writes all of `buf` at the cursor and advances the cursor past it.
    pub fn write(&mut self, pack: Option<&mut BackPack>, buf: &[u8]) -> (r: Result<usize, PackError>)
        requires
            match pack {
                Some(p) => p.wf(),
                None => true,
            },
        ensures
            final(self).is_like(old(self)),
            match pack {
                None => write_outcome(
                    old(self).stream(None),
                    old(self).spec_current_offset(),
                    final(self).stream(None),
                    final(self).spec_current_offset(),
                    buf@,
                    true,
                    r,
                ),
                Some(p) => old(self).pack_kept(Some(*p), Some(*final(p))) && write_outcome(
                    old(self).stream(Some(*p)),
                    old(self).spec_current_offset(),
                    final(self).stream(Some(*final(p))),
                    final(self).spec_current_offset(),
                    buf@,
                    old(self).room(
                        Some(*p),
                        written(
                            old(self).stream(Some(*p))->Ok_0,
                            old(self).spec_current_offset() as nat,
                            buf@,
                        ),
                    ),
                    r,
                ),
            },
    {
        match self {
            RawFile::InMemory(f) => f.write(pack, buf),
            RawFile::Disk { file, .. } => file.write(buf),
        }
    }

    /// Nothing is buffered, so there is nothing to do.
    pub fn flush(&mut self) -> (r: Result<(), PackError>)
        ensures
            r is Ok,
            *final(self) == *old(self),
    {
        Ok(())
    }

    /// Moves the cursor, counting from the start, from the end of the bytes,
    /// or from the cursor.
    pub fn seek(&mut self, pack: Option<&BackPack>, from: SeekFrom) -> (r: Result<u64, PackError>)
        ensures
            final(self).is_like(old(self)),
            seek_outcome(
                old(self).stream(
                    match pack {
                        Some(p) => Some(*p),
                        None => None,
                    },
                ),
                old(self).spec_current_offset(),
                final(self).stream(
                    match pack {
                        Some(p) => Some(*p),
                        None => None,
                    },
                ),
                final(self).spec_current_offset(),
                from,
                r,
            ),
    {
        match self {
            RawFile::InMemory(f) => f.seek(pack, from),
            RawFile::Disk { file, .. } => file.seek(from),
        }
    }
}

impl From<InMemoryFile> for RawFile {
    /// The file in memory as a raw stream.
    fn from(f: InMemoryFile) -> (r: RawFile) {
        RawFile::InMemory(f)
    }
}

impl vstd::std_specs::convert::FromSpecImpl<InMemoryFile> for RawFile {
    open spec fn obeys_from_spec() -> bool {
        true
    }

    open spec fn from_spec(f: InMemoryFile) -> RawFile {
        RawFile::InMemory(f)
    }
}

impl From<Vec<u8>> for RawFile {
    /// A stream in memory, without a name, that holds the bytes.
    fn from(data: Vec<u8>) -> (r: RawFile) {
        RawFile::InMemory(InMemoryFile::Unnamed { data: InMemoryBuf { data, pos: 0 } })
    }
}

impl vstd::std_specs::convert::FromSpecImpl<Vec<u8>> for RawFile {
    open spec fn obeys_from_spec() -> bool {
        true
    }

    open spec fn from_spec(data: Vec<u8>) -> RawFile {
        RawFile::InMemory(InMemoryFile::Unnamed { data: InMemoryBuf { data, pos: 0 } })
    }
}

} // verus!
