use crate::error::IoErrorKind;
use crate::error::PackError;
use crate::pack::backpack::BackPack;
use crate::pack::buffer::InMemoryBuf;
use crate::pack::buffer::read_outcome;
use crate::pack::buffer::resized;
use crate::pack::buffer::seek_outcome;
use crate::pack::buffer::SeekFrom;
use crate::pack::buffer::set_len_outcome;
use crate::pack::buffer::write_outcome;
use crate::pack::buffer::written;
use crate::pack::slice::PackSlice;
use crate::pack::store::SliceKey;
use vstd::prelude::*;
use vstd::slice::slice_to_vec;

verus! {

/// A file that lives in memory: a cursor over its own bytes, with or without
/// a name, or a named handle on a buffer that a backpack owns.
#[derive(Debug)]
#[allow(inconsistent_fields)]
pub enum InMemoryFile {
    Named { name: String, data: InMemoryBuf },
    Packed { name: String, data: PackSlice },
    Unnamed { data: InMemoryBuf },
}

impl InMemoryFile {
    /// True for a handle on a buffer of a backpack.
    pub open spec fn is_packed(&self) -> bool {
        self is Packed
    }

    /// True for a handle on a buffer of a backpack.
    pub fn is_handle(&self) -> (b: bool)
        ensures
            b == self.is_packed(),
    {
        match self {
            InMemoryFile::Packed { .. } => true,
            _ => false,
        }
    }

    /// The name of the file, as mathematics.
    pub open spec fn spec_name(&self) -> Option<Seq<char>> {
        match self {
            InMemoryFile::Named { name, .. } => Some(name@),
            InMemoryFile::Packed { name, .. } => Some(name@),
            InMemoryFile::Unnamed { .. } => None,
        }
    }

    /// The cursor of a file that owns its bytes.
    pub open spec fn cursor(&self) -> InMemoryBuf
        recommends
            !self.is_packed(),
    {
        match self {
            InMemoryFile::Named { data, .. } => *data,
            InMemoryFile::Unnamed { data } => *data,
            InMemoryFile::Packed { .. } => arbitrary(),
        }
    }

    /// The file with another cursor in the place of its own.
    pub open spec fn with_cursor(&self, c: InMemoryBuf) -> InMemoryFile {
        match self {
            InMemoryFile::Named { name, .. } => InMemoryFile::Named { name: *name, data: c },
            InMemoryFile::Unnamed { .. } => InMemoryFile::Unnamed { data: c },
            InMemoryFile::Packed { .. } => *self,
        }
    }

    /// An empty file called `name`.
    pub fn new(name: &str) -> (f: InMemoryFile)
        ensures
            f matches InMemoryFile::Named { name: n, data } && n@ == name@ && data.data@.len() == 0
                && data.pos == 0,
    {
        InMemoryFile::Named { name: name.to_owned(), data: InMemoryBuf::new(Vec::new()) }
    }

    /// An empty file without a name.
    pub fn unnamed() -> (f: InMemoryFile)
        ensures
            f matches InMemoryFile::Unnamed { data } && data.data@.len() == 0 && data.pos == 0,
    {
        InMemoryFile::Unnamed { data: InMemoryBuf::new(Vec::new()) }
    }

    /// A file without a name that holds `bytes`, the cursor at the start.
    pub fn from_bytes(bytes: Vec<u8>) -> (f: InMemoryFile)
        ensures
            f matches InMemoryFile::Unnamed { data } && data.data@ == bytes@ && data.pos == 0,
    {
        InMemoryFile::Unnamed { data: InMemoryBuf::new(bytes) }
    }

    /// A file without a name that holds the text as UTF-8, the cursor at the
    /// start.
    pub fn from_text(text: &str) -> (f: InMemoryFile)
        ensures
            f matches InMemoryFile::Unnamed { data } && data.data@ == vstd::utf8::encode_utf8(text@)
                && data.pos == 0,
    {
        InMemoryFile::Unnamed { data: InMemoryBuf::new(slice_to_vec(text.as_bytes())) }
    }

    /// The name: that of a named file or of a handle, none of an unnamed file.
    pub fn name(&self) -> (n: Option<&String>)
        ensures
            n is Some <==> self.spec_name() is Some,
            n matches Some(s) ==> Some(s@) == self.spec_name(),
    {
        match self {
            InMemoryFile::Named { name, .. } => Some(name),
            InMemoryFile::Packed { name, .. } => Some(name),
            InMemoryFile::Unnamed { .. } => None,
        }
    }

    /// The position of the file's cursor.
    pub open spec fn spec_current_offset(&self) -> u64 {
        match self {
            InMemoryFile::Named { data, .. } => data.pos,
            InMemoryFile::Unnamed { data } => data.pos,
            InMemoryFile::Packed { data, .. } => data.pos,
        }
    }

    /// The position of the file's cursor.
    pub fn current_offset(&self) -> (p: u64)
        ensures
            p == self.spec_current_offset(),
    {
        match self {
            InMemoryFile::Named { data, .. } => data.position(),
            InMemoryFile::Unnamed { data } => data.position(),
            InMemoryFile::Packed { data, .. } => data.position(),
        }
    }

    /// The same file under another name; a file without a name becomes a
    /// named one.
    pub fn with_name(self, s: &str) -> (f: InMemoryFile)
        ensures
            f.spec_name() == Some(s@),
            match self {
                InMemoryFile::Named { data, .. } => f matches InMemoryFile::Named { data: d, .. }
                    && d == data,
                InMemoryFile::Packed { data, .. } => f matches InMemoryFile::Packed { data: d, .. }
                    && d == data,
                InMemoryFile::Unnamed { data } => f matches InMemoryFile::Named { data: d, .. }
                    && d == data,
            },
    {
        match self {
            InMemoryFile::Named { data, .. } => InMemoryFile::Named { name: s.to_owned(), data },
            InMemoryFile::Packed { data, .. } => InMemoryFile::Packed { name: s.to_owned(), data },
            InMemoryFile::Unnamed { data } => InMemoryFile::Named { name: s.to_owned(), data },
        }
    }

    /// The cursor of a file that owns its bytes, to read and write through;
    /// none for a handle.
    pub fn cursor_mut(&mut self) -> (c: Option<&mut InMemoryBuf>)
        ensures
            old(self).is_packed() ==> c is None && *final(self) == *old(self),
            !old(self).is_packed() ==> (c matches Some(r) && *r == old(self).cursor()
                && *final(self) == old(self).with_cursor(*final(r))),
    {
        match self {
            InMemoryFile::Named { data, .. } => Some(data),
            InMemoryFile::Unnamed { data } => Some(data),
            InMemoryFile::Packed { .. } => None,
        }
    }

    /// True when the two are one file but for cursor and bytes: the same
    /// kind, the same name, and for handles the same buffer.
    pub open spec fn is_like(&self, other: &InMemoryFile) -> bool {
        match (*self, *other) {
            (InMemoryFile::Named { name: a, .. }, InMemoryFile::Named { name: b, .. }) => a == b,
            (InMemoryFile::Unnamed { .. }, InMemoryFile::Unnamed { .. }) => true,
            (
                InMemoryFile::Packed { name: a, data: s },
                InMemoryFile::Packed { name: b, data: t },
            ) => a == b && s.spec_identifier() == t.spec_identifier(),
            _ => false,
        }
    }

    /// The bytes that the file presents, or the error that every access to
    /// them meets: a handle needs the backpack that owns its buffer, and is
    /// closed without one and an invalid entry in one that lacks the buffer.
    pub open spec fn stream(&self, pack: Option<BackPack>) -> Result<Seq<u8>, PackError> {
        match self {
            InMemoryFile::Named { data, .. } => Ok(data.data@),
            InMemoryFile::Unnamed { data } => Ok(data.data@),
            InMemoryFile::Packed { data, .. } => match pack {
                None => Err(PackError::Closed),
                Some(p) => if data.valid_in(&p) {
                    Ok(data.bytes_in(&p))
                } else {
                    Err(PackError::InvalidEntry)
                },
            },
        }
    }

    /// True when the owner of the bytes has room for `after` in their place:
    /// always for a file that owns its bytes, and for a handle when the byte
    /// count of the backpack stays within the largest size.
    pub open spec fn room(&self, pack: Option<BackPack>, after: Seq<u8>) -> bool {
        match self {
            InMemoryFile::Packed { data, .. } => pack matches Some(p) && data.room_for(&p, after),
            _ => true,
        }
    }

    /// What an operation on the file may do to the backpack it was given:
    /// nothing, but for a handle the bytes of its own buffer, and the byte
    /// count by as much as their number changes.
    pub open spec fn pack_kept(&self, before: Option<BackPack>, after: Option<BackPack>) -> bool {
        match (before, after) {
            (None, None) => true,
            (Some(p), Some(q)) => match self {
                InMemoryFile::Packed { data, .. } => {
                    &&& q.same_catalog(&p)
                    &&& p.wf() ==> q.wf()
                    &&& forall|k: SliceKey|
                        #![trigger q.buffers().contains_key(k)]
                        #![trigger q.buffers()[k]]
                        q.buffers().contains_key(k) == p.buffers().contains_key(k) && (k
                            != data.spec_identifier() ==> q.buffers()[k] == p.buffers()[k])
                    &&& data.valid_in(&p) ==> q.memory() + data.bytes_in(&p).len() == p.memory()
                        + data.bytes_in(&q).len()
                    &&& !data.valid_in(&p) ==> q == p
                },
                _ => q == p,
            },
            _ => false,
        }
    }

    /// Cuts or zero-extends the bytes of the file to exactly `size` bytes;
    /// the cursor stays.
    pub fn set_len(&mut self, pack: Option<&mut BackPack>, size: u64) -> (r: Result<(), PackError>)
        requires
            match pack {
                Some(p) => p.wf(),
                None => true,
            },
        ensures
            final(self).is_like(old(self)),
            final(self).spec_current_offset() == old(self).spec_current_offset(),
            match pack {
                None => set_len_outcome(
                    old(self).stream(None),
                    final(self).stream(None),
                    size,
                    true,
                    r,
                ),
                Some(p) => old(self).pack_kept(Some(*p), Some(*final(p))) && set_len_outcome(
                    old(self).stream(Some(*p)),
                    final(self).stream(Some(*final(p))),
                    size,
                    old(self).room(
                        Some(*p),
                        resized(old(self).stream(Some(*p))->Ok_0, size as nat),
                    ),
                    r,
                ),
            },
    {
        match self {
            InMemoryFile::Named { data, .. } => data.set_len(size),
            InMemoryFile::Unnamed { data } => data.set_len(size),
            InMemoryFile::Packed { data, .. } => match pack {
                Some(p) => {
                    let ghost before = *p;
                    let r = data.resize(p, size);
                    proof {
                        lemma_others_kept(before, *p, data.spec_identifier(), r is Ok);
                    }
                    r
                },
                None => Err(PackError::Closed),
            },
        }
    }

    /// A copy of the bytes of the file.
    pub fn get_bytes(&self, pack: Option<&BackPack>) -> (r: Result<Vec<u8>, PackError>)
        ensures
            match self.stream(
                match pack {
                    Some(p) => Some(*p),
                    None => None,
                },
            ) {
                Ok(bytes) => r matches Ok(v) && v@ == bytes,
                Err(e) => r matches Err(x) && x == e,
            },
    {
        match self {
            InMemoryFile::Named { data, .. } => Ok(slice_to_vec(data.data.as_slice())),
            InMemoryFile::Unnamed { data } => Ok(slice_to_vec(data.data.as_slice())),
            InMemoryFile::Packed { data, .. } => match pack {
                Some(p) => data.get_bytes(p),
                None => Err(PackError::Closed),
            },
        }
    }

    /// A second handle on the same buffer, with a cursor of its own that
    /// starts where this one stands. Only a handle can be duplicated.
    pub fn try_clone(&self) -> (r: Result<InMemoryFile, PackError>)
        requires
            self.is_packed(),
        ensures
            r matches Ok(f) && f == *self,
    {
        match self {
            InMemoryFile::Packed { data, name } => Ok(
                InMemoryFile::Packed { name: name.clone(), data: *data },
            ),
            InMemoryFile::Named { name, data } => Err(PackError::Io(IoErrorKind::Unsupported)),
            InMemoryFile::Unnamed { data } => Err(PackError::Io(IoErrorKind::Unsupported)),
        }
    }

    /// Reads up to `buf.len()` bytes at the cursor into the front of `buf`
    /// and advances the cursor by the number of bytes read.
    pub fn read(&mut self, pack: Option<&BackPack>, buf: &mut [u8]) -> (r: Result<usize, PackError>)
        ensures
            final(self).is_like(old(self)),
            read_outcome(
                old(self).stream(
                    match pack {
                        Some(p) => Some(*p),
                        None => None,
                    },
                ),
                old(self).spec_current_offset(),
                final(self).stream(
                    match pack {
                        Some(p) => Some(*p),
                        None => None,
                    },
                ),
                final(self).spec_current_offset(),
                old(buf)@,
                final(buf)@,
                r,
            ),
    {
        match self {
            InMemoryFile::Named { data, .. } => Ok(data.read(buf)),
            InMemoryFile::Unnamed { data } => Ok(data.read(buf)),
            InMemoryFile::Packed { data, .. } => match pack {
                Some(p) => data.read(p, buf),
                None => Err(PackError::Closed),
            },
        }
    }

    /// Writes all of `buf` at the cursor and advances the cursor past it. A
    /// handle writes through into the buffer of the backpack.
    pub fn write(&mut self, pack: Option<&mut BackPack>, buf: &[u8]) -> (r: Result<usize, PackError>)
        requires
            match pack {
                Some(p) => p.wf(),
                None => true,
            },
        ensures
            final(self).is_like(old(self)),
            match pack {
                None => write_outcome(
                    old(self).stream(None),
                    old(self).spec_current_offset(),
                    final(self).stream(None),
                    final(self).spec_current_offset(),
                    buf@,
                    true,
                    r,
                ),
                Some(p) => old(self).pack_kept(Some(*p), Some(*final(p))) && write_outcome(
                    old(self).stream(Some(*p)),
                    old(self).spec_current_offset(),
                    final(self).stream(Some(*final(p))),
                    final(self).spec_current_offset(),
                    buf@,
                    old(self).room(
                        Some(*p),
                        written(
                            old(self).stream(Some(*p))->Ok_0,
                            old(self).spec_current_offset() as nat,
                            buf@,
                        ),
                    ),
                    r,
                ),
            },
    {
        match self {
            InMemoryFile::Named { data, .. } => data.write(buf),
            InMemoryFile::Unnamed { data } => data.write(buf),
            InMemoryFile::Packed { data, .. } => match pack {
                Some(p) => {
                    let ghost before = *p;
                    let r = data.write(p, buf);
                    proof {
                        lemma_others_kept(before, *p, data.spec_identifier(), r is Ok);
                    }
                    r
                },
                None => Err(PackError::Closed),
            },
        }
    }

    /// Nothing is buffered, so there is nothing to do.
    pub fn flush(&mut self) -> (r: Result<(), PackError>)
        ensures
            r is Ok,
            *final(self) == *old(self),
    {
        Ok(())
    }

    /// Moves the cursor, counting from the start, from the end of the bytes,
    /// or from the cursor.
    pub fn seek(&mut self, pack: Option<&BackPack>, from: SeekFrom) -> (r: Result<u64, PackError>)
        ensures
            final(self).is_like(old(self)),
            seek_outcome(
                old(self).stream(
                    match pack {
                        Some(p) => Some(*p),
                        None => None,
                    },
                ),
                old(self).spec_current_offset(),
                final(self).stream(
                    match pack {
                        Some(p) => Some(*p),
                        None => None,
                    },
                ),
                final(self).spec_current_offset(),
                from,
                r,
            ),
    {
        match self {
            InMemoryFile::Named { data, .. } => data.seek(from),
            InMemoryFile::Unnamed { data } => data.seek(from),
            InMemoryFile::Packed { data, .. } => match pack {
                Some(p) => data.seek(p, from),
                None => Err(PackError::Closed),
            },
        }
    }
}

/// Where a backpack changed at most the bytes under one key that it held,
/// it holds the same keys, and every other buffer is as it was.
pub proof fn lemma_others_kept(p: BackPack, q: BackPack, key: SliceKey, changed: bool)
    requires
        changed ==> exists|bytes: Seq<u8>| q.buffers() == p.buffers().insert(key, bytes),
        changed ==> p.buffers().contains_key(key),
        !changed ==> q.buffers() == p.buffers(),
    ensures
        forall|k: SliceKey|
            #![trigger q.buffers().contains_key(k)]
            #![trigger q.buffers()[k]]
            q.buffers().contains_key(k) == p.buffers().contains_key(k) && (k != key
                ==> q.buffers()[k] == p.buffers()[k]),
{
}

impl From<Vec<u8>> for InMemoryFile {
    /// A file without a name that holds the bytes, the cursor at the start.
    fn from(data: Vec<u8>) -> (f: InMemoryFile) {
        InMemoryFile::Unnamed { data: InMemoryBuf { data, pos: 0 } }
    }
}

impl vstd::std_specs::convert::FromSpecImpl<Vec<u8>> for InMemoryFile {
    open spec fn obeys_from_spec() -> bool {
        true
    }

    open spec fn from_spec(data: Vec<u8>) -> InMemoryFile {
        InMemoryFile::Unnamed { data: InMemoryBuf { data, pos: 0 } }
    }
}

} // verus!
