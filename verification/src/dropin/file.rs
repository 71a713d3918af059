use crate::dropin::config::Config;
use crate::dropin::config::OpenPolicy;
use crate::error::PackError;
use crate::pack::backpack::BackPack;
use crate::pack::buffer::read_outcome;
use crate::pack::buffer::resized;
use crate::pack::buffer::seek_outcome;
use crate::pack::buffer::SeekFrom;
use crate::pack::buffer::set_len_outcome;
use crate::pack::buffer::write_outcome;
use crate::pack::buffer::written;
use crate::pack::file::Metadata;
use crate::pack::file::RawFile;
use crate::pack::in_memory::InMemoryFile;
use crate::pack::names::Entry;
use crate::pack::slice::PackSlice;
use crate::pack::toc::MAX_NAME_LEN;
use crate::pack::toc::name_bytes;
use vstd::prelude::*;

verus! {

/// A file as code written against the file system of the host expects it,
/// which lives where the configuration of the thread says.
#[derive(Debug)]
pub struct File {
    inner: RawFile,
}

/// What creating or opening a file came to.
#[derive(Debug)]
pub enum Opened {
    /// The file is there.
    Ready(File),
    /// The file is on the file system of the host: the host creates or opens
    /// it and wraps it with `File::from_raw`.
    OnDisk,
}

impl File {
    /// The raw stream behind the file.
    pub closed spec fn raw(&self) -> RawFile {
        self.inner
    }

    /// True for a handle on a buffer of a backpack.
    pub fn is_handle(&self) -> (b: bool)
        ensures
            b == self.raw().is_packed(),
    {
        self.inner.is_handle()
    }

    /// True for a file of the host.
    pub fn is_on_disk(&self) -> (b: bool)
        ensures
            b == (self.raw() is Disk),
    {
        match &self.inner {
            RawFile::Disk { .. } => true,
            RawFile::InMemory(_) => false,
        }
    }

    /// Wraps a raw stream.
    pub fn from_raw(inner: RawFile) -> (f: File)
        ensures
            f.raw() == inner,
    {
        File { inner }
    }

    /// Unwraps the raw stream.
    pub fn into_raw(self) -> (r: RawFile)
        ensures
            r == self.raw(),
    {
        self.inner
    }

    /// Creates the file called `path` where the configuration says. On disk
    /// that is left to the host. In memory it is a new empty file bound to
    /// the name. In the thread's backpack it is an empty file added under
    /// the name, with a buffer of its own; without a backpack at hand that
    /// fails as closed.
    pub fn create(config: &Config, pack: Option<&mut BackPack>, path: &str) -> (r: Result<
        Opened,
        PackError,
    >)
        requires
            match pack {
                Some(p) => p.wf(),
                None => true,
            },
        ensures
            match pack {
                Some(p) => final(p).wf() && (config.open_policy != OpenPolicy::ThreadLocalBackpack
                    ==> *final(p) == *p),
                None => true,
            },
            match config.open_policy {
                OpenPolicy::OnDisk => r matches Ok(Opened::OnDisk),
                OpenPolicy::InMemory => r matches Ok(Opened::Ready(f)) && f.raw() matches RawFile::InMemory(
                    InMemoryFile::Named { name, data },
                ) && name@ == path@ && data.data@.len() == 0 && data.pos == 0,
                OpenPolicy::ThreadLocalBackpack => match pack {
                    None => r matches Err(e) && e == PackError::Closed,
                    Some(p) => if name_bytes(path@).len() > MAX_NAME_LEN {
                        r matches Err(e) && e == PackError::Io(
                            crate::error::IoErrorKind::InvalidInput,
                        ) && *final(p) == *p
                    } else if !p.room_to_add(0) {
                        r matches Err(e) && e == PackError::Io(
                            crate::error::IoErrorKind::OutOfMemory,
                        ) && *final(p) == *p
                    } else {
                        let entry = Entry { name: path@, offset: p.next_key() as u64, length: 0 };
                        &&& r matches Ok(Opened::Ready(f))
                        &&& f.raw() matches RawFile::InMemory(InMemoryFile::Packed { name, data })
                        &&& name@ == path@
                        &&& data == PackSlice { start: entry.offset, end: 0, pos: 0 }
                        &&& final(p).added(p, entry, Seq::<u8>::empty())
                    },
                },
            },
    {
        match config.open_policy {
            OpenPolicy::OnDisk => Ok(Opened::OnDisk),
            OpenPolicy::InMemory => Ok(
                Opened::Ready(File { inner: RawFile::InMemory(InMemoryFile::new(path)) }),
            ),
            OpenPolicy::ThreadLocalBackpack => match pack {
                Some(p) => match p.add_empty_file(path) {
                    Ok(f) => Ok(Opened::Ready(File { inner: RawFile::InMemory(f) })),
                    Err(e) => Err(e),
                },
                None => Err(PackError::Closed),
            },
        }
    }

    /// Opens the file called `path` where the configuration says. On disk
    /// that is left to the host. In memory it is a new empty file bound to
    /// the name, whatever was written under the name before. In the thread's
    /// backpack it is a handle on the file of that name, or not found;
    /// without a backpack at hand that fails as closed.
    pub fn open(config: &Config, pack: Option<&BackPack>, path: &str) -> (r: Result<
        Opened,
        PackError,
    >)
        ensures
            match config.open_policy {
                OpenPolicy::OnDisk => r matches Ok(Opened::OnDisk),
                OpenPolicy::InMemory => r matches Ok(Opened::Ready(f)) && f.raw() matches RawFile::InMemory(
                    InMemoryFile::Named { name, data },
                ) && name@ == path@ && data.data@.len() == 0 && data.pos == 0,
                OpenPolicy::ThreadLocalBackpack => match pack {
                    None => r matches Err(e) && e == PackError::Closed,
                    Some(p) => if p.visible(path@) {
                        &&& r matches Ok(Opened::Ready(f))
                        &&& f.raw() matches RawFile::InMemory(InMemoryFile::Packed { name, data })
                        &&& name@ == path@
                        &&& data == PackSlice {
                            start: p.key(path@).0,
                            end: p.key(path@).1,
                            pos: 0,
                        }
                    } else {
                        r matches Err(PackError::FileNotFound(n)) && n@ == path@
                    },
                },
            },
    {
        match config.open_policy {
            OpenPolicy::OnDisk => Ok(Opened::OnDisk),
            OpenPolicy::InMemory => Ok(
                Opened::Ready(File { inner: RawFile::InMemory(InMemoryFile::new(path)) }),
            ),
            OpenPolicy::ThreadLocalBackpack => match pack {
                Some(p) => match p.get_file(path) {
                    Ok(f) => Ok(Opened::Ready(File { inner: RawFile::InMemory(f) })),
                    Err(e) => Err(e),
                },
                None => Err(PackError::Closed),
            },
        }
    }

    /// As `RawFile::sync_all`.
    pub fn sync_all(&self) -> (r: Result<(), PackError>)
        ensures
            r is Ok,
    {
        self.inner.sync_all()
    }

    /// As `RawFile::sync_data`.
    pub fn sync_data(&self) -> (r: Result<(), PackError>)
        ensures
            r is Ok,
    {
        self.inner.sync_data()
    }

    /// Cuts or zero-extends the bytes of the file to exactly `size` bytes;
    /// the cursor stays.
    pub fn set_len(&mut self, pack: Option<&mut BackPack>, size: u64) -> (r: Result<(), PackError>)
        requires
            match pack {
                Some(p) => p.wf(),
                None => true,
            },
        ensures
            final(self).raw().is_like(&old(self).raw()),
            final(self).raw().spec_current_offset() == old(self).raw().spec_current_offset(),
            match pack {
                None => set_len_outcome(
                    old(self).raw().stream(None),
                    final(self).raw().stream(None),
                    size,
                    true,
                    r,
                ),
                Some(p) => old(self).raw().pack_kept(Some(*p), Some(*final(p)))
                    && set_len_outcome(
                    old(self).raw().stream(Some(*p)),
                    final(self).raw().stream(Some(*final(p))),
                    size,
                    old(self).raw().room(
                        Some(*p),
                        resized(old(self).raw().stream(Some(*p))->Ok_0, size as nat),
                    ),
                    r,
                ),
            },
    {
        self.inner.set_len(pack, size)
    }

    /// What is known of the file.
    pub fn metadata(&self) -> (r: Result<Metadata, PackError>)
        ensures
            match self.raw() {
                RawFile::InMemory(_) => r matches Err(e) && e == PackError::Io(
                    crate::error::IoErrorKind::Unsupported,
                ),
                RawFile::Disk { file, .. } => r == Ok::<Metadata, PackError>(
                    Metadata { len: file.data@.len() as u64 },
                ),
            },
    {
        self.inner.metadata()
    }

    /// A second file on the same bytes, with a cursor of its own that starts
    /// where this one stands. Of files in memory only a handle can be
    /// duplicated.
    pub fn try_clone(&self) -> (r: Result<File, PackError>)
        requires
            self.raw() is InMemory ==> self.raw().is_packed(),
        ensures
            r matches Ok(f) && f.raw().is_like(&self.raw()) && f.raw().spec_current_offset()
                == self.raw().spec_current_offset() && f.raw().stream(None) == self.raw().stream(
                None,
            ) && (self.raw().is_packed() ==> f.raw() == self.raw()),
    {
        match self.inner.try_clone() {
            Ok(raw) => Ok(File { inner: raw }),
            Err(e) => Err(e),
        }
    }

    /// Reads up to `buf.len()` bytes at the cursor into the front of `buf`
    /// and advances the cursor by the number of bytes read.
    pub fn read(&mut self, pack: Option<&BackPack>, buf: &mut [u8]) -> (r: Result<usize, PackError>)
        ensures
            final(self).raw().is_like(&old(self).raw()),
            read_outcome(
                old(self).raw().stream(
                    match pack {
                        Some(p) => Some(*p),
                        None => None,
                    },
                ),
                old(self).raw().spec_current_offset(),
                final(self).raw().stream(
                    match pack {
                        Some(p) => Some(*p),
                        None => None,
                    },
                ),
                final(self).raw().spec_current_offset(),
                old(buf)@,
                final(buf)@,
                r,
            ),
    {
        self.inner.read(pack, buf)
    }

    /// Writes all of `buf` at the cursor and advances the cursor past it.
    pub fn write(&mut self, pack: Option<&mut BackPack>, buf: &[u8]) -> (r: Result<usize, PackError>)
        requires
            match pack {
                Some(p) => p.wf(),
                None => true,
            },
        ensures
            final(self).raw().is_like(&old(self).raw()),
            match pack {
                None => write_outcome(
                    old(self).raw().stream(None),
                    old(self).raw().spec_current_offset(),
                    final(self).raw().stream(None),
                    final(self).raw().spec_current_offset(),
                    buf@,
                    true,
                    r,
                ),
                Some(p) => old(self).raw().pack_kept(Some(*p), Some(*final(p))) && write_outcome(
                    old(self).raw().stream(Some(*p)),
                    old(self).raw().spec_current_offset(),
                    final(self).raw().stream(Some(*final(p))),
                    final(self).raw().spec_current_offset(),
                    buf@,
                    old(self).raw().room(
                        Some(*p),
                        written(
                            old(self).raw().stream(Some(*p))->Ok_0,
                            old(self).raw().spec_current_offset() as nat,
                            buf@,
                        ),
                    ),
                    r,
                ),
            },
    {
        self.inner.write(pack, buf)
    }

    /// Nothing is buffered, so there is nothing to do.
    pub fn flush(&mut self) -> (r: Result<(), PackError>)
        ensures
            r is Ok,
            *final(self) == *old(self),
    {
        self.inner.flush()
    }

    /// Moves the cursor, counting from the start, from the end of the bytes,
    /// or from the cursor.
    pub fn seek(&mut self, pack: Option<&BackPack>, from: SeekFrom) -> (r: Result<u64, PackError>)
        ensures
            final(self).raw().is_like(&old(self).raw()),
            seek_outcome(
                old(self).raw().stream(
                    match pack {
                        Some(p) => Some(*p),
                        None => None,
                    },
                ),
                old(self).raw().spec_current_offset(),
                final(self).raw().stream(
                    match pack {
                        Some(p) => Some(*p),
                        None => None,
                    },
                ),
                final(self).raw().spec_current_offset(),
                from,
                r,
            ),
    {
        self.inner.seek(pack, from)
    }
}

} // verus!
