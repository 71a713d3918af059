use crate::error::IoErrorKind;
use crate::error::PackError;
use crate::pack::buffer::InMemoryBuf;
use crate::pack::buffer::remaining;
use crate::pack::buffer::written;
use crate::pack::file::RawFile;
use crate::pack::image::archive_fits;
use crate::pack::image::archive_image;
use crate::pack::image::key_of;
use crate::pack::image::lemma_has_name;
use crate::pack::image::lemma_relocated;
use crate::pack::image::lemma_relocated_in_order;
use crate::pack::image::lemma_survivors;
use crate::pack::image::lemma_survivors_all;
use crate::pack::image::payload;
use crate::pack::image::relocated;
use crate::pack::image::survivors;
use crate::pack::image::write_archive;
use crate::pack::in_memory::InMemoryFile;
use crate::pack::laws::lemma_round_trip;
use crate::pack::laws::starts_with;
use crate::pack::layout::convert_offset;
use crate::pack::layout::sort_offsets;
use crate::pack::names::distinct_names;
use crate::pack::names::Entry;
use crate::pack::names::has_name;
use crate::pack::names::lemma_position;
use crate::pack::names::lemma_position_unique;
use crate::pack::names::lemma_put;
use crate::pack::names::lookup;
use crate::pack::names::NameMap;
use crate::pack::names::position;
use crate::pack::names::put;
use crate::pack::reader::Archive;
use crate::pack::reader::install;
use crate::pack::reader::lemma_parse_headers_fit;
use crate::pack::reader::parse_headers;
use crate::pack::reader::read_archive;
use crate::pack::slice::PackSlice;
use crate::pack::store::BufferMap;
use crate::pack::store::Buffers;
use crate::pack::store::buffers_fetch;
use crate::pack::store::buffers_insert;
use crate::pack::store::buffers_new;
use crate::pack::store::buffers_of;
use crate::pack::store::buffers_store;
use crate::pack::store::RemovalMap;
use crate::pack::store::removals_contains;
use crate::pack::store::removals_insert;
use crate::pack::store::removals_new;
use crate::pack::store::removed_of;
use crate::pack::store::SliceKey;
use crate::pack::toc::entries_fit;
use crate::pack::toc::entry_fits;
use crate::pack::toc::MAX_NAME_LEN;
use crate::pack::toc::name_bytes;
use vstd::prelude::*;

verus! {

/// How far the key counter moves when `len` bytes are added: by their
/// number, and by one for none, so that no two files get one key.
pub open spec fn key_step(len: nat) -> nat {
    if len == 0 {
        1
    } else {
        len
    }
}

/// The lengths of the buffers under `keys`, added up.
pub open spec fn sum_lengths(keys: Seq<SliceKey>, bufs: Buffers) -> nat
    decreases keys.len(),
{
    if keys.len() == 0 {
        0
    } else {
        sum_lengths(keys.drop_last(), bufs) + bufs[keys.last()].len()
    }
}

/// A buffer under a key that is not among `keys` does not count.
pub proof fn lemma_sum_other_key(keys: Seq<SliceKey>, bufs: Buffers, k: SliceKey, v: Seq<u8>)
    requires
        !keys.contains(k),
    ensures
        sum_lengths(keys, bufs.insert(k, v)) == sum_lengths(keys, bufs),
    decreases keys.len(),
{
    if keys.len() > 0 {
        let head = keys.drop_last();
        assert(keys.last() == keys[keys.len() - 1]);
        assert(keys.last() != k);
        assert forall|i: int| 0 <= i < head.len() implies head[i] != k by {
            assert(head[i] == keys[i]);
        }
        lemma_sum_other_key(head, bufs, k, v);
    }
}

/// A new buffer adds its length to the sum.
pub proof fn lemma_sum_new_key(keys: Seq<SliceKey>, bufs: Buffers, k: SliceKey, v: Seq<u8>)
    requires
        !keys.contains(k),
    ensures
        sum_lengths(keys.push(k), bufs.insert(k, v)) == sum_lengths(keys, bufs) + v.len(),
{
    assert(keys.push(k).drop_last() =~= keys);
    lemma_sum_other_key(keys, bufs, k, v);
}

/// Other bytes under a key that is counted once change the sum by the
/// difference of the lengths.
pub proof fn lemma_sum_replaced(keys: Seq<SliceKey>, bufs: Buffers, k: SliceKey, v: Seq<u8>)
    requires
        keys.no_duplicates(),
        keys.contains(k),
    ensures
        sum_lengths(keys, bufs.insert(k, v)) + bufs[k].len() == sum_lengths(keys, bufs) + v.len(),
        bufs[k].len() <= sum_lengths(keys, bufs),
    decreases keys.len(),
{
    let head = keys.drop_last();
    assert(keys.len() > 0);
    assert(head.no_duplicates()) by {
        assert forall|i: int, j: int| 0 <= i < head.len() && 0 <= j < head.len() && i != j implies head[i]
            != head[j] by {
            assert(head[i] == keys[i] && head[j] == keys[j]);
        }
    }
    if keys.last() == k {
        assert(!head.contains(k)) by {
            if head.contains(k) {
                let i = choose|i: int| 0 <= i < head.len() && head[i] == k;
                assert(keys[i] == keys[keys.len() - 1]);
            }
        }
        lemma_sum_other_key(head, bufs, k, v);
    } else {
        let i = choose|i: int| 0 <= i < keys.len() && keys[i] == k;
        assert(head[i] == k);
        lemma_sum_replaced(head, bufs, k, v);
    }
}

/// A backpack: many files in one. It holds the names with the key of each
/// file's buffer, the buffers, the names scheduled for removal, the number of
/// bytes in all buffers, the counter from which added files get their keys,
/// and the stream that backs it until it is closed.
pub struct BackPack {
    file: Option<RawFile>,
    offsets: NameMap,
    removals: RemovalMap,
    data: BufferMap,
    keys: Ghost<Seq<SliceKey>>,
    total_size: u64,
    next_key: u64,
    closed: bool,
}

impl BackPack {
    /// The names with the key of each, in the order of the name map.
    pub closed spec fn names(&self) -> Seq<Entry> {
        self.offsets@
    }

    /// The names scheduled for removal.
    pub closed spec fn removed(&self) -> Set<Seq<char>> {
        removed_of(self.removals)
    }

    /// The bytes of every buffer, by key.
    pub closed spec fn buffers(&self) -> Buffers {
        buffers_of(self.data)
    }

    /// The keys of the buffers, each once, in the order in which the buffers
    /// came.
    pub closed spec fn buffer_keys(&self) -> Seq<SliceKey> {
        self.keys@
    }

    /// The byte count that the backpack keeps.
    pub closed spec fn memory(&self) -> nat {
        self.total_size as nat
    }

    /// The key counter: the offset in the key of the file that is added next.
    /// It never goes back, whatever happens to the buffers.
    pub closed spec fn next_key(&self) -> nat {
        self.next_key as nat
    }

    /// The backing stream, absent once the backpack is closed.
    pub closed spec fn backing(&self) -> Option<RawFile> {
        self.file
    }

    /// True once the backpack has been closed.
    pub closed spec fn is_closed(&self) -> bool {
        self.closed
    }

    /// The invariant of a backpack. Names are distinct and short enough for
    /// a table of contents; every name's key has a buffer; the byte count is
    /// the sum of the lengths of all buffers; the key counter lies beyond the
    /// offset of every key in use; the backing stream is present exactly
    /// while the backpack is not closed, and owns its bytes.
    pub open spec fn wf(&self) -> bool {
        &&& distinct_names(self.names())
        &&& entries_fit(self.names())
        &&& forall|i: int|
            0 <= i < self.names().len() ==> self.buffers().contains_key(
                key_of(#[trigger] self.names()[i]),
            )
        &&& self.buffer_keys().no_duplicates()
        &&& forall|k: SliceKey| self.buffers().contains_key(k) <==> self.buffer_keys().contains(k)
        &&& self.memory() == sum_lengths(self.buffer_keys(), self.buffers())
        &&& self.memory() <= usize::MAX
        &&& forall|k: SliceKey| #[trigger] self.buffers().contains_key(k) ==> k.0 < self.next_key()
        &&& self.is_closed() <==> self.backing() is None
        &&& self.backing() matches Some(f) ==> !f.is_packed()
    }

    /// True when a lookup of `name` succeeds: the name is in the name map and
    /// not scheduled for removal.
    pub open spec fn visible(&self, name: Seq<char>) -> bool {
        has_name(self.names(), name) && !self.removed().contains(name)
    }

    /// The key recorded for `name`.
    pub open spec fn key(&self, name: Seq<char>) -> SliceKey
        recommends
            has_name(self.names(), name),
    {
        key_of(self.names()[position(self.names(), name)])
    }

    /// The bytes of the file called `name`.
    pub open spec fn content(&self, name: Seq<char>) -> Seq<u8>
        recommends
            has_name(self.names(), name),
    {
        self.buffers()[self.key(name)]
    }

    /// The files that a lookup finds, each name with the bytes of its file.
    pub open spec fn files(&self) -> Map<Seq<char>, Seq<u8>> {
        Map::new(|name: Seq<char>| self.visible(name), |name: Seq<char>| self.content(name))
    }

    /// True when the two backpacks agree in everything but the bytes in
    /// their buffers and their byte count.
    pub open spec fn same_catalog(&self, other: &BackPack) -> bool {
        &&& self.names() == other.names()
        &&& self.removed() == other.removed()
        &&& self.buffer_keys() == other.buffer_keys()
        &&& self.next_key() == other.next_key()
        &&& self.backing() == other.backing()
        &&& self.is_closed() == other.is_closed()
    }

    /// Every name in the name map has a buffer under its key.
    pub proof fn lemma_names_have_buffers(&self, name: Seq<char>)
        requires
            self.wf(),
            has_name(self.names(), name),
        ensures
            self.buffers().contains_key(self.key(name)),
    {
        lemma_position(self.names(), name);
    }

    /// Opens a backpack from a stream that holds one.
    pub fn open(backing: RawFile) -> (r: Result<BackPack, PackError>)
        requires
            !backing.is_packed() ==> backing.cursor().pos == 0,
        ensures
            backing.is_packed() ==> (r matches Err(e) && e == PackError::Io(IoErrorKind::Unsupported)),
            !backing.is_packed() ==> match read_archive(backing.cursor().data@) {
                Err(e) => r matches Err(x) && x == e,
                Ok(a) => {
                    &&& r matches Ok(p)
                    &&& p.opened_from(backing, a)
                },
            },
    {
        Self::open_complete(backing)
    }

    /// True for the backpack that opening `file` gives when `a` is what the
    /// file holds: names, buffers and byte count are those of `a`, nothing
    /// is scheduled for removal, and `file` backs the backpack, its bytes
    /// as they were.
    pub open spec fn opened_from(&self, file: RawFile, a: Archive) -> bool {
        &&& self.wf()
        &&& self.names() == a.names
        &&& self.buffers() == a.buffers
        &&& self.buffer_keys() == a.keys
        &&& self.memory() == a.total
        &&& self.next_key() == a.next
        &&& self.removed() == Set::<Seq<char>>::empty()
        &&& !self.is_closed()
        &&& self.backing() matches Some(f)
        &&& f == file.with_cursor(f.cursor())
        &&& f.cursor().data@ == file.cursor().data@
    }

    /// Opens a backpack by reading all of it: the file header, the table of
    /// contents along its chain of blocks, and the bytes of every entry,
    /// found in the payload through the offsets of the blocks in ascending
    /// order. The stream must stand at its start. Reading is strict: what
    /// does not parse is an error, and no backpack comes out. A handle on a
    /// buffer of another backpack cannot back one.
    pub fn open_complete(file: RawFile) -> (r: Result<BackPack, PackError>)
        requires
            !file.is_packed() ==> file.cursor().pos == 0,
        ensures
            file.is_packed() ==> (r matches Err(e) && e == PackError::Io(IoErrorKind::Unsupported)),
            !file.is_packed() ==> match read_archive(file.cursor().data@) {
                Err(e) => r matches Err(x) && x == e,
                Ok(a) => {
                    &&& r matches Ok(p)
                    &&& p.opened_from(file, a)
                },
            },
    {
        let mut file = file;
        let ghost b = file.cursor().data@;
        let ghost before = file;
        let (offsets, data, keys, total, next) = match file.cursor_mut() {
            Some(c) => {
                let (offsets, chain) = match parse_headers(c) {
                    Ok(p) => p,
                    Err(e) => {
                        return Err(e);
                    },
                };
                proof {
                    lemma_parse_headers_fit(b);
                }
                let toc_blocks = sort_offsets(chain);
                let (data, keys, total, next) = match install_buffers(c, &offsets, &toc_blocks) {
                    Ok(t) => t,
                    Err(e) => {
                        return Err(e);
                    },
                };
                (offsets, data, keys, total, next)
            },
            None => {
                return Err(PackError::Io(IoErrorKind::Unsupported));
            },
        };
        let p = BackPack {
            file: Some(file),
            offsets,
            removals: removals_new(),
            data,
            keys,
            total_size: total,
            next_key: next,
            closed: false,
        };
        proof {
            assert(file.is_packed() == before.is_packed());
        }
        Ok(p)
    }

    /// Creates an empty backpack over `backing`, which is cut to nothing and
    /// rewound first. Nothing is written before the first flush. A handle on
    /// a buffer of another backpack cannot back one.
    pub fn create(backing: RawFile) -> (r: Result<BackPack, PackError>)
        ensures
            backing.is_packed() ==> (r matches Err(e) && e == PackError::Io(IoErrorKind::Unsupported)),
            !backing.is_packed() ==> {
                &&& r matches Ok(p)
                &&& p.wf()
                &&& p.names().len() == 0
                &&& p.removed() == Set::<Seq<char>>::empty()
                &&& p.buffers() == Buffers::empty()
                &&& p.memory() == 0
                &&& p.next_key() == 0
                &&& !p.is_closed()
                &&& p.backing() matches Some(f)
                &&& f == backing.with_cursor(f.cursor())
                &&& f.cursor().data@.len() == 0
                &&& f.cursor().pos == 0
            },
    {
        let mut file = backing;
        match file.cursor_mut() {
            Some(c) => {
                c.data.truncate(0);
                c.set_position(0);
            },
            None => {
                return Err(PackError::Io(IoErrorKind::Unsupported));
            },
        }
        let p = BackPack {
            file: Some(file),
            offsets: NameMap::new(),
            removals: removals_new(),
            data: buffers_new(),
            keys: Ghost(Seq::empty()),
            total_size: 0,
            next_key: 0,
            closed: false,
        };
        proof {
            assert(file.is_packed() == backing.is_packed());
        }
        Ok(p)
    }

    /// The number of bytes in all buffers of the backpack.
    pub fn memory_bytes(&self) -> (n: usize)
        requires
            self.wf(),
        ensures
            n == self.memory(),
            n == sum_lengths(self.buffer_keys(), self.buffers()),
    {
        self.total_size as usize
    }

    /// True when the backpack holds a buffer under the key of the handle.
    pub fn holds(&self, s: &PackSlice) -> (b: bool)
        ensures
            b == self.buffers().contains_key(s.spec_identifier()),
    {
        buffers_fetch(&self.data, s.identifier()).is_some()
    }

    /// A copy of the bytes in the buffer that the handle names, taken under
    /// the buffer's read lock; none when the backpack holds no such buffer.
    pub fn retrieve_slice(&self, s: &PackSlice) -> (r: Option<Vec<u8>>)
        ensures
            r is Some <==> self.buffers().contains_key(s.spec_identifier()),
            r matches Some(v) ==> v@ == self.buffers()[s.spec_identifier()],
    {
        buffers_fetch(&self.data, s.identifier())
    }

    /// Puts `bytes` in the place of the bytes in the buffer that the handle
    /// names, under the buffer's write lock, and keeps the byte count right.
    /// Without such a buffer the entry is invalid; bytes that would take the
    /// count beyond the largest size are refused. Either way nothing changes.
    pub fn store_slice(&mut self, s: &PackSlice, bytes: Vec<u8>) -> (r: Result<(), PackError>)
        requires
            old(self).wf(),
        ensures
            final(self).wf(),
            final(self).same_catalog(old(self)),
            !old(self).buffers().contains_key(s.spec_identifier()) ==> (r matches Err(e) && e
                == PackError::InvalidEntry && *final(self) == *old(self)),
            old(self).buffers().contains_key(s.spec_identifier()) && old(self).memory() - old(
                self,
            ).buffers()[s.spec_identifier()].len() + bytes@.len() > usize::MAX ==> (r matches Err(e)
                && e == PackError::Io(IoErrorKind::OutOfMemory) && *final(self) == *old(self)),
            old(self).buffers().contains_key(s.spec_identifier()) && old(self).memory() - old(
                self,
            ).buffers()[s.spec_identifier()].len() + bytes@.len() <= usize::MAX ==> (r is Ok
                && final(self).buffers() == old(self).buffers().insert(s.spec_identifier(), bytes@)
                && final(self).memory() == old(self).memory() - old(
                self,
            ).buffers()[s.spec_identifier()].len() + bytes@.len()),
    {
        let key = s.identifier();
        let before: usize = match buffers_fetch(&self.data, key) {
            Some(v) => v.len(),
            None => {
                return Err(PackError::InvalidEntry);
            },
        };
        proof {
            lemma_sum_replaced(self.keys@, self.buffers(), key, bytes@);
        }
        let rest: usize = self.total_size as usize - before;
        if bytes.len() > usize::MAX - rest {
            return Err(PackError::Io(IoErrorKind::OutOfMemory));
        }
        let total: usize = rest + bytes.len();
        buffers_store(&mut self.data, key, bytes);
        self.total_size = total as u64;
        proof {
            assert forall|k: SliceKey| self.buffers().contains_key(k) <==> self.buffer_keys().contains(
                k,
            ) by {
                assert(old(self).buffers().contains_key(k) <==> old(self).buffer_keys().contains(k));
            }
        }
        Ok(())
    }

    /// The bytes that adding `f` would store: everything from the cursor of
    /// `f` to its end. A handle is read in this backpack; none when this
    /// backpack holds no buffer under the handle's key.
    pub open spec fn incoming(&self, f: RawFile) -> Option<Seq<u8>> {
        match f {
            RawFile::InMemory(InMemoryFile::Packed { data, .. }) => if self.buffers().contains_key(
                data.spec_identifier(),
            ) {
                Some(remaining(self.buffers()[data.spec_identifier()], data.pos))
            } else {
                None
            },
            _ => Some(remaining(f.cursor().data@, f.cursor().pos)),
        }
    }

    /// True when `len` more bytes can be added: the byte count stays within
    /// the largest size, and the key counter within the largest offset.
    pub open spec fn room_to_add(&self, len: nat) -> bool {
        self.memory() + len <= usize::MAX && self.next_key() + key_step(len) <= u64::MAX
    }

    /// What adding `f` leads to: the entry that is recorded, or the error. A
    /// handle without a buffer is an invalid entry; a stream without a name
    /// has no name; a name too long for a table of contents is invalid input;
    /// bytes for which there is no room are out of memory. The entry carries
    /// the name, the key counter as offset, and the number of bytes as length.
    pub open spec fn add_outcome(&self, f: RawFile) -> Result<Entry, PackError> {
        match self.incoming(f) {
            None => Err(PackError::InvalidEntry),
            Some(bytes) => match f.spec_name() {
                None => Err(PackError::NoName),
                Some(name) => if name_bytes(name).len() > MAX_NAME_LEN {
                    Err(PackError::Io(IoErrorKind::InvalidInput))
                } else if !self.room_to_add(bytes.len()) {
                    Err(PackError::Io(IoErrorKind::OutOfMemory))
                } else {
                    Ok(Entry { name, offset: self.next_key() as u64, length: bytes.len() as u64 })
                },
            },
        }
    }

    /// True for the backpack that `pre` becomes when `entry` is recorded for
    /// `bytes`: the key of the entry was free and now has a buffer of its own
    /// that holds the bytes; every other buffer is as it was; the name has the
    /// entry, in the place of an earlier entry of that name; the byte count
    /// has grown by the number of bytes, and the key counter has moved on.
    pub open spec fn added(&self, pre: &BackPack, entry: Entry, bytes: Seq<u8>) -> bool {
        &&& self.names() == put(pre.names(), entry)
        &&& !pre.buffers().contains_key(key_of(entry))
        &&& self.buffers() == pre.buffers().insert(key_of(entry), bytes)
        &&& self.buffer_keys() == pre.buffer_keys().push(key_of(entry))
        &&& self.memory() == pre.memory() + bytes.len()
        &&& self.next_key() == pre.next_key() + key_step(bytes.len())
        &&& self.removed() == pre.removed()
        &&& self.backing() == pre.backing()
        &&& self.is_closed() == pre.is_closed()
        &&& has_name(self.names(), entry.name)
        &&& self.key(entry.name) == key_of(entry)
        &&& self.content(entry.name) == bytes
    }

    /// Adds a file: reads `f` to its end, stores the bytes in a new buffer
    /// under a key of its own, made of the key counter and their number, and
    /// records the name of `f` with that key, in the place of an earlier entry
    /// of the same name. A name that is scheduled for removal stays hidden,
    /// and the new entry leaves with it at the next flush. Returns a handle on
    /// the buffer. After an error nothing has changed.
    pub fn add_file(&mut self, f: RawFile) -> (r: Result<InMemoryFile, PackError>)
        requires
            old(self).wf(),
        ensures
            final(self).wf(),
            match old(self).add_outcome(f) {
                Err(e) => r matches Err(x) && x == e && *final(self) == *old(self),
                Ok(entry) => {
                    &&& r matches Ok(InMemoryFile::Packed { name, data })
                    &&& name@ == entry.name
                    &&& data == PackSlice { start: entry.offset, end: entry.length, pos: 0 }
                    &&& final(self).added(old(self), entry, old(self).incoming(f)->0)
                    &&& final(self).files() == if old(self).removed().contains(entry.name) {
                        old(self).files()
                    } else {
                        old(self).files().insert(entry.name, old(self).incoming(f)->0)
                    }
                },
            },
    {
        let mut f = f;
        let bytes: Vec<u8> = match &mut f {
            RawFile::InMemory(InMemoryFile::Packed { data, .. }) => {
                match buffers_fetch(&self.data, data.identifier()) {
                    Some(v) => {
                        let mut view = InMemoryBuf { data: v, pos: data.pos };
                        view.read_to_end()
                    },
                    None => {
                        return Err(PackError::InvalidEntry);
                    },
                }
            },
            RawFile::InMemory(InMemoryFile::Named { data, .. }) => data.read_to_end(),
            RawFile::InMemory(InMemoryFile::Unnamed { data }) => data.read_to_end(),
            RawFile::Disk { file, .. } => file.read_to_end(),
        };
        let name: String = match f.name() {
            Some(n) => n.clone(),
            None => {
                return Err(PackError::NoName);
            },
        };
        if name.as_str().as_bytes().len() > MAX_NAME_LEN {
            return Err(PackError::Io(IoErrorKind::InvalidInput));
        }
        let length: usize = bytes.len();
        let step: u64 = if length == 0 {
            1
        } else {
            length as u64
        };
        if length > usize::MAX - self.total_size as usize || step > u64::MAX - self.next_key {
            return Err(PackError::Io(IoErrorKind::OutOfMemory));
        }
        let key: (u64, u64) = (self.next_key, length as u64);
        let ghost entry = Entry { name: name@, offset: key.0, length: key.1 };
        let ghost stored = bytes@;
        proof {
            lemma_put(self.names(), entry);
            lemma_position(self.names(), entry.name);
            assert(!self.buffers().contains_key(key));
            lemma_sum_new_key(self.keys@, self.buffers(), key, bytes@);
        }
        let handle_name: String = name.clone();
        self.offsets.insert(name, key.0, key.1);
        buffers_insert(&mut self.data, key, bytes);
        self.total_size = self.total_size + length as u64;
        self.next_key = self.next_key + step;
        proof {
            self.keys@ = self.keys@.push(key);
            let names = self.names();
            let old_names = old(self).names();
            assert forall|i: int| 0 <= i < names.len() implies entry_fits(
                #[trigger] names[i],
            ) && self.buffers().contains_key(key_of(names[i])) by {
                if i < old_names.len() && names[i] == old_names[i] {
                    assert(entry_fits(old_names[i]));
                    assert(old(self).buffers().contains_key(key_of(old_names[i])));
                } else {
                    assert(names[i] == entry);
                }
            }
            assert forall|k: SliceKey| self.buffers().contains_key(k) <==> self.buffer_keys().contains(
                k,
            ) by {
                assert(old(self).buffers().contains_key(k) <==> old(self).buffer_keys().contains(k));
                if k == key {
                    assert(self.buffer_keys()[old(self).buffer_keys().len() as int] == key);
                } else if old(self).buffer_keys().contains(k) {
                    let i = choose|i: int|
                        0 <= i < old(self).buffer_keys().len() && old(self).buffer_keys()[i] == k;
                    assert(self.buffer_keys()[i] == k);
                }
            }
            assert(self.buffer_keys().no_duplicates()) by {
                assert(!old(self).buffer_keys().contains(key));
            }
            assert forall|k: SliceKey| #[trigger]
                self.buffers().contains_key(k) implies k.0 < self.next_key() by {
                if k != key {
                    assert(old(self).buffers().contains_key(k));
                }
            }
            assert(self.key(entry.name) == key);
            assert(self.added(old(self), entry, stored));
            crate::pack::sequence::lemma_added_files(*old(self), *self, entry, stored);
        }
        Ok(InMemoryFile::Packed { name: handle_name, data: PackSlice::new(key.0, key.1) })
    }

    /// Adds an empty file called `name`, with a buffer of its own.
    pub fn add_empty_file(&mut self, name: &str) -> (r: Result<InMemoryFile, PackError>)
        requires
            old(self).wf(),
        ensures
            final(self).wf(),
            if name_bytes(name@).len() > MAX_NAME_LEN {
                r matches Err(e) && e == PackError::Io(IoErrorKind::InvalidInput) && *final(self)
                    == *old(self)
            } else if !old(self).room_to_add(0) {
                r matches Err(e) && e == PackError::Io(IoErrorKind::OutOfMemory) && *final(self)
                    == *old(self)
            } else {
                let entry = Entry { name: name@, offset: old(self).next_key() as u64, length: 0 };
                &&& r matches Ok(InMemoryFile::Packed { name: n, data })
                &&& n@ == name@
                &&& data == PackSlice { start: entry.offset, end: 0, pos: 0 }
                &&& final(self).added(old(self), entry, Seq::<u8>::empty())
            },
    {
        let f = RawFile::InMemory(InMemoryFile::new(name));
        proof {
            assert(self.incoming(f) == Some(remaining(f.cursor().data@, f.cursor().pos)));
            assert(remaining(f.cursor().data@, f.cursor().pos) =~= Seq::<u8>::empty());
        }
        self.add_file(f)
    }

    /// Adds the file `f` under the name `name`, whatever its own name.
    pub fn add_file_named(&mut self, f: RawFile, name: &str) -> (r: Result<InMemoryFile, PackError>)
        requires
            old(self).wf(),
        ensures
            final(self).wf(),
            old(self).incoming(f) is None ==> (r matches Err(e) && e == PackError::InvalidEntry
                && *final(self) == *old(self)),
            old(self).incoming(f) matches Some(bytes) ==> {
                let entry = Entry {
                    name: name@,
                    offset: old(self).next_key() as u64,
                    length: bytes.len() as u64,
                };
                if name_bytes(name@).len() > MAX_NAME_LEN {
                    r matches Err(e) && e == PackError::Io(IoErrorKind::InvalidInput) && *final(self)
                        == *old(self)
                } else if !old(self).room_to_add(bytes.len()) {
                    r matches Err(e) && e == PackError::Io(IoErrorKind::OutOfMemory) && *final(self)
                        == *old(self)
                } else {
                    &&& r matches Ok(InMemoryFile::Packed { name: n, data })
                    &&& n@ == name@
                    &&& data == PackSlice { start: entry.offset, end: entry.length, pos: 0 }
                    &&& final(self).added(old(self), entry, bytes)
                }
            },
    {
        let named = f.with_name(name);
        proof {
            assert(self.incoming(named) == self.incoming(f));
        }
        self.add_file(named)
    }

    /// Looks a file up. A name that is in the name map and not scheduled for
    /// removal gives a handle on its buffer, the cursor at the start; any
    /// other name is not found.
    pub fn get_file(&self, name: &str) -> (r: Result<InMemoryFile, PackError>)
        ensures
            self.visible(name@) ==> (r matches Ok(InMemoryFile::Packed { name: n, data }) && n@
                == name@ && data == PackSlice {
                start: self.key(name@).0,
                end: self.key(name@).1,
                pos: 0,
            }),
            !self.visible(name@) ==> (r matches Err(PackError::FileNotFound(p)) && p@ == name@),
    {
        if removals_contains(&self.removals, name) {
            return Err(PackError::FileNotFound(name.to_owned()));
        }
        match self.offsets.get(name) {
            Some((offset, length)) => Ok(
                InMemoryFile::Packed { name: name.to_owned(), data: PackSlice::new(offset, length) },
            ),
            None => Err(PackError::FileNotFound(name.to_owned())),
        }
    }

    /// Schedules a file for removal and hands out its bytes as a file without
    /// a name. The name is no longer found from now on; the entry and its
    /// buffer leave the backpack at the next flush. A name that a lookup does
    /// not find is not found here either, and nothing changes.
    pub fn remove_file(&mut self, name: &str) -> (r: Result<InMemoryFile, PackError>)
        requires
            old(self).wf(),
        ensures
            final(self).wf(),
            final(self).names() == old(self).names(),
            final(self).buffers() == old(self).buffers(),
            final(self).buffer_keys() == old(self).buffer_keys(),
            final(self).memory() == old(self).memory(),
            final(self).next_key() == old(self).next_key(),
            final(self).backing() == old(self).backing(),
            final(self).is_closed() == old(self).is_closed(),
            old(self).visible(name@) ==> (r matches Ok(InMemoryFile::Unnamed { data }) && data.data@
                == old(self).content(name@) && data.pos == 0 && final(self).removed() == old(
                self,
            ).removed().insert(name@) && final(self).files() == old(self).files().remove(name@)),
            !old(self).visible(name@) ==> (r matches Err(PackError::FileNotFound(p)) && p@ == name@
                && final(self).removed() == old(self).removed() && final(self).files() == old(
                self,
            ).files()),
    {
        if removals_contains(&self.removals, name) {
            return Err(PackError::FileNotFound(name.to_owned()));
        }
        let key = match self.offsets.get(name) {
            Some(k) => k,
            None => {
                return Err(PackError::FileNotFound(name.to_owned()));
            },
        };
        proof {
            self.lemma_names_have_buffers(name@);
        }
        let bytes = match buffers_fetch(&self.data, key) {
            Some(v) => v,
            None => {
                return Err(PackError::FileNotFound(name.to_owned()));
            },
        };
        removals_insert(&mut self.removals, name.to_owned());
        proof {
            crate::pack::sequence::lemma_removed_files(*old(self), *self, name@);
        }
        Ok(InMemoryFile::from_bytes(bytes))
    }

    /// The file that a flush writes: file header, table of contents and
    /// payload for the files that are not scheduled for removal.
    pub open spec fn flush_image(&self) -> Seq<u8> {
        archive_image(survivors(self.names(), self.removed()), self.buffers())
    }

    /// True when the file that a flush writes can be written.
    pub open spec fn flush_fits(&self) -> bool {
        archive_fits(survivors(self.names(), self.removed()), self.buffers())
    }

    /// Writes the backpack to its backing stream, from the start: the file
    /// header, the table of contents, and the payload, which is made of the
    /// bytes that the buffers hold now, for every file that is not scheduled
    /// for removal, in the order of the name map. The files scheduled for
    /// removal then leave the name map, and nothing is scheduled any more.
    /// The keys of the other files stay as they are.
    ///
    /// A closed backpack cannot be flushed. A file that is too large to be
    /// written is refused as invalid input; the backing stream is then left
    /// in no particular state, while names, removals and buffers are as
    /// before.
    pub fn flush(&mut self) -> (r: Result<(), PackError>)
        requires
            old(self).wf(),
        ensures
            final(self).wf(),
            final(self).buffers() == old(self).buffers(),
            final(self).buffer_keys() == old(self).buffer_keys(),
            final(self).memory() == old(self).memory(),
            final(self).next_key() == old(self).next_key(),
            final(self).is_closed() == old(self).is_closed(),
            old(self).is_closed() ==> (r matches Err(e) && e == PackError::Closed && *final(self)
                == *old(self)),
            !old(self).is_closed() && !old(self).flush_fits() ==> (r matches Err(e) && e
                == PackError::Io(IoErrorKind::InvalidInput) && final(self).names() == old(
                self,
            ).names() && final(self).removed() == old(self).removed()),
            !old(self).is_closed() && old(self).flush_fits() ==> {
                &&& r is Ok
                &&& final(self).names() == survivors(old(self).names(), old(self).removed())
                &&& final(self).removed() == Set::<Seq<char>>::empty()
                &&& final(self).files() == old(self).files()
                &&& final(self).flush_image() == old(self).flush_image()
                &&& final(self).flush_fits()
                &&& final(self).backing() matches Some(f)
                &&& f == old(self).backing()->0.with_cursor(f.cursor())
                &&& f.cursor().data@ == written(
                    old(self).backing()->0.cursor().data@,
                    0,
                    old(self).flush_image(),
                )
                &&& f.cursor().pos == old(self).flush_image().len()
                &&& starts_with(f.cursor().data@, final(self).flush_image())
            },
    {
        if self.file.is_none() {
            return Err(PackError::Closed);
        }
        let (new_offsets, kept, new_data) = match self.gather() {
            Ok(t) => t,
            Err(e) => {
                return Err(e);
            },
        };
        let ghost names = self.names();
        let ghost bufs = self.buffers();
        let size: usize = new_data.len();
        proof {
            lemma_relocated_in_order(kept@, bufs);
        }
        match &mut self.file {
            Some(file) => {
                match file.cursor_mut() {
                    Some(c) => {
                        match write_archive(c, &new_offsets, &new_data) {
                            Ok(_) => {},
                            Err(_) => {
                                return Err(PackError::Io(IoErrorKind::InvalidInput));
                            },
                        }
                    },
                    None => {
                        return Err(PackError::Closed);
                    },
                }
            },
            None => {
                return Err(PackError::Closed);
            },
        }
        self.offsets = kept;
        self.removals = removals_new();
        proof {
            crate::pack::laws::lemma_written_starts(
                old(self).backing()->0.cursor().data@,
                old(self).flush_image(),
            );
            lemma_survivors(names, old(self).removed());
            lemma_survivors_all(self.names());
            crate::pack::sequence::lemma_flushed_files(*old(self), *self);
            assert forall|i: int| 0 <= i < self.names().len() implies self.buffers().contains_key(
                key_of(#[trigger] self.names()[i]),
            ) by {
                let k = choose|k: int| 0 <= k < names.len() && names[k] == self.names()[i];
                assert(bufs.contains_key(key_of(names[k])));
            }
        }
        Ok(())
    }

    /// Collects what a flush writes: the table of contents for the files
    /// that are not scheduled for removal, their entries as the name map has
    /// them, and the payload.
    fn gather(&self) -> (r: Result<(NameMap, NameMap, Vec<u8>), PackError>)
        requires
            self.wf(),
        ensures
            r matches Ok(t) && t.0.wf() && t.1.wf() && t.1@ == survivors(
                self.names(),
                self.removed(),
            ) && t.0@ == relocated(t.1@, self.buffers()) && t.2@ == payload(t.1@, self.buffers())
                && entries_fit(t.0@),
    {
        let ghost names = self.names();
        let ghost removed = self.removed();
        let ghost bufs = self.buffers();
        let n: usize = self.offsets.len();
        let mut new_data: Vec<u8> = Vec::new();
        let mut new_offsets = NameMap::new();
        let mut kept = NameMap::new();
        let mut i: usize = 0;
        proof {
            assert(names.take(0) =~= Seq::<Entry>::empty());
        }
        while i < n
            invariant
                i <= n,
                n == names.len(),
                names == self.names(),
                removed == self.removed(),
                bufs == self.buffers(),
                self.wf(),
                kept.wf(),
                new_offsets.wf(),
                kept@ == survivors(names.take(i as int), removed),
                new_offsets@ == relocated(kept@, bufs),
                new_data@ == payload(kept@, bufs),
            decreases n - i,
        {
            let e = self.offsets.entry(i);
            let ghost done = names.take(i as int);
            let ghost next = names.take(i + 1);
            proof {
                assert(next.drop_last() =~= done);
                assert(next.last() == names[i as int]);
                assert(e@ == names[i as int]);
            }
            if !removals_contains(&self.removals, e.name.as_str()) {
                let contents = match buffers_fetch(&self.data, (e.offset, e.length)) {
                    Some(v) => v,
                    None => {
                        proof {
                            assert(bufs.contains_key(key_of(names[i as int])));
                        }
                        return Err(PackError::InvalidEntry);
                    },
                };
                proof {
                    self.lemma_fresh_name(i as int, kept@, new_offsets@);
                    assert(kept@.push(e@).drop_last() =~= kept@);
                }
                new_offsets.push(e.name.clone(), new_data.len() as u64, contents.len() as u64);
                kept.push(e.name.clone(), e.offset, e.length);
                new_data.extend_from_slice(contents.as_slice());
            }
            i = i + 1;
        }
        proof {
            assert(names.take(n as int) =~= names);
            lemma_survivors(names, removed);
            lemma_relocated(kept@, bufs);
        }
        Ok((new_offsets, kept, new_data))
    }

    /// The name at index `i` of the name map is not among the survivors of
    /// the entries before it, nor in their table of contents.
    proof fn lemma_fresh_name(&self, i: int, kept: Seq<Entry>, table: Seq<Entry>)
        requires
            distinct_names(self.names()),
            0 <= i < self.names().len(),
            kept == survivors(self.names().take(i), self.removed()),
            table == relocated(kept, self.buffers()),
        ensures
            !has_name(kept, self.names()[i].name),
            !has_name(table, self.names()[i].name),
    {
        let names = self.names();
        let done = names.take(i);
        let name = names[i].name;
        lemma_survivors(done, self.removed());
        lemma_relocated(kept, self.buffers());
        lemma_has_name(kept, name);
        lemma_has_name(table, name);
        if has_name(kept, name) {
            let j = choose|j: int| 0 <= j < kept.len() && (#[trigger] kept[j]).name == name;
            let k = choose|k: int| 0 <= k < done.len() && done[k] == kept[j];
            assert(names[k] == done[k]);
            assert(names[k].name != names[i].name);
        }
        if has_name(table, name) {
            let j = choose|j: int| 0 <= j < table.len() && (#[trigger] table[j]).name == name;
            assert(kept[j].name == name);
        }
    }

    /// The number of bytes in the files that a lookup finds, added up.
    pub open spec fn files_size(&self) -> nat {
        payload(survivors(self.names(), self.removed()), self.buffers()).len()
    }

    /// The round trip. A stream that starts with what a flush of this
    /// backpack writes opens to a backpack with exactly the files that a
    /// lookup finds here, each with the bytes that it has here; its byte
    /// count is the number of those bytes, added up over the files.
    pub proof fn lemma_flush_reopen(&self, b: Seq<u8>)
        requires
            self.wf(),
            self.flush_fits(),
            starts_with(b, self.flush_image()),
        ensures
            read_archive(b) matches Ok(a) && (forall|name: Seq<char>|
                has_name(a.names, name) <==> self.visible(name)) && (forall|name: Seq<char>|
                #[trigger] self.visible(name) ==> a.buffers.contains_key(
                    key_of(a.names[position(a.names, name)]),
                ) && a.buffers[key_of(a.names[position(a.names, name)])] == self.content(name))
                && a.total == self.files_size(),
    {
        let names = self.names();
        let removed = self.removed();
        let bufs = self.buffers();
        let es = survivors(names, removed);
        lemma_survivors(names, removed);
        assert forall|i: int| 0 <= i < es.len() implies bufs.contains_key(key_of(#[trigger] es[i])) by {
            let k = choose|k: int| 0 <= k < names.len() && names[k] == es[i];
            assert(bufs.contains_key(key_of(names[k])));
        }
        lemma_round_trip(es, bufs, b);
        let a = read_archive(b)->Ok_0;
        assert forall|name: Seq<char>| has_name(a.names, name) <==> self.visible(name) by {
            lemma_has_name(a.names, name);
            lemma_has_name(names, name);
            if has_name(a.names, name) {
                let j = choose|j: int| 0 <= j < a.names.len() && (#[trigger] a.names[j]).name == name;
                assert(es[j].name == name);
                let k = choose|k: int| 0 <= k < names.len() && names[k] == es[j];
                assert(names[k].name == name);
            }
            if self.visible(name) {
                let k = choose|k: int| 0 <= k < names.len() && (#[trigger] names[k]).name == name;
                let j = choose|j: int| 0 <= j < es.len() && es[j] == names[k];
                assert(a.names[j].name == name);
            }
        }
        assert(distinct_names(a.names)) by {
            assert forall|i: int, j: int| 0 <= i < j < a.names.len() implies (
            #[trigger] a.names[i]).name != (#[trigger] a.names[j]).name by {
                assert(es[i].name != es[j].name);
            }
        }
        assert forall|name: Seq<char>| #[trigger] self.visible(name) implies a.buffers.contains_key(
            key_of(a.names[position(a.names, name)]),
        ) && a.buffers[key_of(a.names[position(a.names, name)])] == self.content(name) by {
            lemma_position(a.names, name);
            lemma_position(names, name);
            let j = position(a.names, name);
            let p = position(names, name);
            assert(a.names[j].name == name);
            assert(es[j].name == name);
            let k = choose|k: int| 0 <= k < names.len() && names[k] == es[j];
            lemma_position_unique(names, k);
            assert(k == p);
        }
    }

    /// A flush right after a flush writes the bytes that the stream already
    /// holds: for a backpack whose stream starts with what its flush writes,
    /// writing that again from the start changes nothing.
    pub proof fn lemma_flush_again(&self)
        requires
            self.wf(),
            self.backing() matches Some(f) && starts_with(f.cursor().data@, self.flush_image()),
        ensures
            written(self.backing()->0.cursor().data@, 0, self.flush_image())
                == self.backing()->0.cursor().data@,
    {
        let b = self.backing()->0.cursor().data@;
        let image = self.flush_image();
        assert(written(b, 0, image) =~= b) by {
            assert forall|i: int| 0 <= i < image.len() implies b[i] == image[i] by {
                assert(b.subrange(0, image.len() as int)[i] == b[i]);
            }
        }
    }

    /// Closes the backpack: flushes it, then takes the backing stream out,
    /// rewound to its start.
    pub fn close(self) -> (r: Result<RawFile, PackError>)
        requires
            self.wf(),
        ensures
            self.is_closed() ==> (r matches Err(e) && e == PackError::Closed),
            !self.is_closed() && !self.flush_fits() ==> (r matches Err(e) && e == PackError::Io(
                IoErrorKind::InvalidInput,
            )),
            !self.is_closed() && self.flush_fits() ==> {
                &&& r matches Ok(f)
                &&& f == self.backing()->0.with_cursor(f.cursor())
                &&& f.cursor().data@ == written(
                    self.backing()->0.cursor().data@,
                    0,
                    self.flush_image(),
                )
                &&& f.cursor().pos == 0
            },
    {
        let mut pack = self;
        match pack.flush() {
            Ok(_) => {},
            Err(e) => {
                return Err(e);
            },
        }
        pack.close_internal()
    }

    /// Takes the backing stream out, rewound to its start, and marks the
    /// backpack closed.
    fn close_internal(self) -> (r: Result<RawFile, PackError>)
        requires
            self.wf(),
        ensures
            self.is_closed() ==> (r matches Err(e) && e == PackError::Closed),
            !self.is_closed() ==> (r matches Ok(f) && self.backing() matches Some(b) && f
                == b.with_cursor(InMemoryBuf { data: b.cursor().data, pos: 0 })),
    {
        let mut pack = self;
        pack.closed = true;
        let mut file = match pack.file.take() {
            Some(f) => f,
            None => {
                return Err(PackError::Closed);
            },
        };
        match file.cursor_mut() {
            Some(c) => {
                c.set_position(0);
            },
            None => {},
        }
        Ok(file)
    }

    /// Closes the backpack without a flush: what changed since the last
    /// flush is lost. Returns the backing stream, rewound to its start.
    pub fn close_drop_unwritten_changes(self) -> (r: Result<RawFile, PackError>)
        requires
            self.wf(),
        ensures
            self.is_closed() ==> (r matches Err(e) && e == PackError::Closed),
            !self.is_closed() ==> (r matches Ok(f) && self.backing() matches Some(b) && f
                == b.with_cursor(InMemoryBuf { data: b.cursor().data, pos: 0 })),
    {
        self.close_internal()
    }
}

/// Reads the bytes of every entry of `offsets` from the stream into a buffer
/// map, each buffer under the key made of the entry's offset and length.
fn install_buffers(c: &mut InMemoryBuf, offsets: &NameMap, blocks: &Vec<u64>) -> (r: Result<
    (BufferMap, Ghost<Seq<SliceKey>>, u64, u64),
    PackError,
>)
    ensures
        final(c).data == old(c).data,
        match install(
            old(c).data@,
            blocks@,
            offsets@,
            0,
            Buffers::empty(),
            Seq::<SliceKey>::empty(),
            0,
            0,
        ) {
            Err(e) => r matches Err(x) && x == e,
            Ok((bufs, keys, total, next)) => {
                &&& r matches Ok(t)
                &&& buffers_of(t.0) == bufs
                &&& t.1@ == keys
                &&& t.2 == total
                &&& t.3 == next
                &&& forall|k: SliceKey| #[trigger] bufs.contains_key(k) ==> k.0 < next
                &&& total <= usize::MAX
                &&& total == sum_lengths(keys, bufs)
                &&& keys.no_duplicates()
                &&& forall|k: SliceKey| bufs.contains_key(k) <==> keys.contains(k)
                &&& forall|i: int|
                    0 <= i < offsets@.len() ==> bufs.contains_key(key_of(#[trigger] offsets@[i]))
            },
        },
{
    let ghost b = c.data@;
    let ghost names = offsets@;
    let mut data = buffers_new();
    let mut keys: Ghost<Seq<SliceKey>> = Ghost(Seq::empty());
    let mut total: usize = 0;
    let mut next: u64 = 0;
    let n: usize = offsets.len();
    let mut i: usize = 0;
    while i < n
        invariant
            i <= n,
            n == names.len(),
            names == offsets@,
            c.data@ == b,
            c.data == old(c).data,
            install(b, blocks@, names, 0, Buffers::empty(), Seq::<SliceKey>::empty(), 0, 0)
                == install(
                b,
                blocks@,
                names,
                i as int,
                buffers_of(data),
                keys@,
                total as nat,
                next as nat,
            ),
            forall|k: SliceKey| #[trigger] buffers_of(data).contains_key(k) ==> k.0 < next,
            total == sum_lengths(keys@, buffers_of(data)),
            keys@.no_duplicates(),
            forall|k: SliceKey| buffers_of(data).contains_key(k) <==> keys@.contains(k),
            forall|j: int| 0 <= j < i ==> buffers_of(data).contains_key(key_of(#[trigger] names[j])),
        decreases n - i,
    {
        let e = offsets.entry(i);
        let ghost bufs = buffers_of(data);
        let at: u64 = match convert_offset(blocks, e.offset) {
            Some(x) => x,
            None => {
                return Err(PackError::Io(IoErrorKind::UnexpectedEof));
            },
        };
        c.set_position(at);
        let whole: usize = c.data.len();
        if e.length > whole as u64 {
            return Err(PackError::Io(IoErrorKind::UnexpectedEof));
        }
        let buf: Vec<u8> = match c.read_exact(e.length as usize) {
            Ok(v) => v,
            Err(_) => {
                return Err(PackError::Io(IoErrorKind::UnexpectedEof));
            },
        };
        let key: (u64, u64) = (e.offset, e.length);
        if buffers_fetch(&data, key).is_none() {
            if buf.len() > usize::MAX - total {
                return Err(PackError::Io(IoErrorKind::OutOfMemory));
            }
            proof {
                lemma_sum_new_key(keys@, bufs, key, buf@);
                crate::pack::layout::lemma_shifted_grows(
                    blocks@,
                    e.offset + crate::pack::PACK_HEADER_SIZE,
                    0,
                );
            }
            let step: u64 = if e.length == 0 {
                1
            } else {
                e.length
            };
            if e.offset + step > next {
                next = e.offset + step;
            }
            total = total + buf.len();
            buffers_insert(&mut data, key, buf);
            proof {
                let old_keys = keys@;
                keys@ = keys@.push(key);
                assert forall|k: SliceKey| buffers_of(data).contains_key(k) <==> keys@.contains(
                    k,
                ) by {
                    assert(bufs.contains_key(k) <==> old_keys.contains(k));
                    if k == key {
                        assert(keys@[old_keys.len() as int] == key);
                    } else if old_keys.contains(k) {
                        let j = choose|j: int| 0 <= j < old_keys.len() && old_keys[j] == k;
                        assert(keys@[j] == k);
                    }
                }
                assert(!old_keys.contains(key));
            }
        }
        i = i + 1;
    }
    Ok((data, keys, total as u64, next))
}

} // verus!
