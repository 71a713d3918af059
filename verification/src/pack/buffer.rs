use crate::error::IoErrorKind;
use crate::error::PackError;
use vstd::prelude::*;

verus! {

/// Where a seek starts counting from.
#[derive(Clone, Copy, Debug, PartialEq, Eq)]
pub enum SeekFrom {
    /// An absolute position.
    Start(u64),
    /// A signed distance from the end of the bytes.
    End(i64),
    /// A signed distance from the current position.
    Current(i64),
}

/// `n` zero bytes.
pub open spec fn zeros(n: nat) -> Seq<u8> {
    Seq::new(n, |i: int| 0u8)
}

/// How many bytes a read of up to `want` bytes at `pos` delivers.
pub open spec fn read_len(bytes: Seq<u8>, pos: u64, want: nat) -> nat {
    if pos >= bytes.len() {
        0
    } else if want <= bytes.len() - pos {
        want
    } else {
        (bytes.len() - pos) as nat
    }
}

/// What a read leaves in the caller's buffer: the bytes read at the front,
/// the rest of the buffer as it was.
pub open spec fn read_buf(bytes: Seq<u8>, pos: u64, buf: Seq<u8>) -> Seq<u8> {
    remaining(bytes, pos).take(read_len(bytes, pos, buf.len()) as int) + buf.skip(
        read_len(bytes, pos, buf.len()) as int,
    )
}

/// True when a write of `len` bytes at `pos` ends within the largest length
/// of a byte vector.
pub open spec fn write_fits(pos: u64, len: nat) -> bool {
    pos + len <= usize::MAX
}

/// The bytes after `buf` has been written at `pos`: a gap between the old end
/// and `pos` is filled with zeros, bytes under `buf` are replaced, the rest stays.
pub open spec fn written(bytes: Seq<u8>, pos: nat, buf: Seq<u8>) -> Seq<u8> {
    let padded = if pos > bytes.len() {
        bytes + zeros((pos - bytes.len()) as nat)
    } else {
        bytes
    };
    let tail = if pos + buf.len() < padded.len() {
        padded.subrange((pos + buf.len()) as int, padded.len() as int)
    } else {
        Seq::<u8>::empty()
    };
    padded.subrange(0, pos as int) + buf + tail
}

/// The bytes cut or zero-extended to exactly `n` bytes.
pub open spec fn resized(bytes: Seq<u8>, n: nat) -> Seq<u8> {
    if n <= bytes.len() {
        bytes.take(n as int)
    } else {
        bytes + zeros((n - bytes.len()) as nat)
    }
}

/// The position a seek asks for, before clamping, in signed arithmetic.
pub open spec fn seek_target(len: nat, pos: u64, from: SeekFrom) -> int {
    match from {
        SeekFrom::Start(n) => n as int,
        SeekFrom::End(d) => len + d,
        SeekFrom::Current(d) => pos + d,
    }
}

/// The position a seek ends at: a target below zero is clamped to zero.
pub open spec fn seek_result(len: nat, pos: u64, from: SeekFrom) -> int {
    let t = seek_target(len, pos, from);
    if t < 0 {
        0
    } else {
        t
    }
}

/// The bytes from `pos` to the end, empty when `pos` is at or past the end.
pub open spec fn remaining(bytes: Seq<u8>, pos: u64) -> Seq<u8> {
    if pos >= bytes.len() {
        Seq::<u8>::empty()
    } else {
        bytes.skip(pos as int)
    }
}

/// A growable byte vector with a cursor.
#[derive(Clone, Debug, PartialEq, Eq)]
pub struct InMemoryBuf {
    pub data: Vec<u8>,
    pub pos: u64,
}

impl InMemoryBuf {
    /// A buffer over `data` with the cursor at the start.
    pub fn new(data: Vec<u8>) -> (b: InMemoryBuf)
        ensures
            b.data@ == data@,
            b.pos == 0,
    {
        InMemoryBuf { data, pos: 0 }
    }

    /// The current cursor position.
    pub fn position(&self) -> (p: u64)
        ensures
            p == self.pos,
    {
        self.pos
    }

    /// Moves the cursor to `pos`, which may lie past the end.
    pub fn set_position(&mut self, pos: u64)
        ensures
            final(self).pos == pos,
            final(self).data == old(self).data,
    {
        self.pos = pos;
    }

    /// Reads up to `buf.len()` bytes at the cursor into the front of `buf` and
    /// advances the cursor by the number of bytes read. At or past the end
    /// nothing is read.
    pub fn read(&mut self, buf: &mut [u8]) -> (n: usize)
        ensures
            n == read_len(old(self).data@, old(self).pos, old(buf)@.len()),
            final(self).data == old(self).data,
            final(self).pos == old(self).pos + n,
            final(buf)@.len() == old(buf)@.len(),
            final(buf)@ == read_buf(old(self).data@, old(self).pos, old(buf)@),
    {
        let len: usize = self.data.len();
        let want: usize = buf.len();
        if self.pos >= len as u64 {
            assert(buf@ =~= read_buf(self.data@, self.pos, buf@));
            return 0;
        }
        let start: usize = self.pos as usize;
        let n: usize = if want <= len - start {
            want
        } else {
            len - start
        };
        let mut i: usize = 0;
        while i < n
            invariant
                i <= n,
                n <= want,
                start + n <= len,
                len == self.data@.len(),
                want == buf@.len(),
                buf@.len() == old(buf)@.len(),
                self.data == old(self).data,
                forall|j: int| 0 <= j < i ==> buf@[j] == self.data@[start + j],
                forall|j: int| i <= j < want ==> buf@[j] == old(buf)@[j],
            decreases n - i,
        {
            buf[i] = self.data[start + i];
            i = i + 1;
        }
        self.pos = self.pos + n as u64;
        assert(buf@ =~= read_buf(self.data@, old(self).pos, old(buf)@));
        n
    }

    /// Reads exactly `n` bytes at the cursor, or fails with an unexpected end
    /// when fewer remain; after a failure the cursor stands at the end.
    pub fn read_exact(&mut self, n: usize) -> (r: Result<Vec<u8>, PackError>)
        ensures
            final(self).data == old(self).data,
            n <= remaining(old(self).data@, old(self).pos).len() ==> (r matches Ok(v) && v@
                == remaining(old(self).data@, old(self).pos).take(n as int) && final(self).pos
                == old(self).pos + n),
            n > remaining(old(self).data@, old(self).pos).len() ==> (r == Err::<
                Vec<u8>,
                PackError,
            >(PackError::Io(IoErrorKind::UnexpectedEof)) && final(self).pos == if old(self).pos
                >= old(self).data@.len() {
                old(self).pos
            } else {
                old(self).data@.len() as u64
            }),
    {
        let len: usize = self.data.len();
        if n == 0 {
            let v: Vec<u8> = Vec::new();
            assert(v@ =~= remaining(self.data@, self.pos).take(0));
            return Ok(v);
        }
        if self.pos >= len as u64 {
            return Err(PackError::Io(IoErrorKind::UnexpectedEof));
        }
        let start: usize = self.pos as usize;
        if n > len - start {
            self.pos = len as u64;
            return Err(PackError::Io(IoErrorKind::UnexpectedEof));
        }
        let mut out: Vec<u8> = Vec::new();
        let mut i: usize = 0;
        while i < n
            invariant
                i <= n,
                start + n <= len,
                len == self.data@.len(),
                self.data == old(self).data,
                out@ == self.data@.subrange(start as int, start + i),
            decreases n - i,
        {
            out.push(self.data[start + i]);
            assert(out@ =~= self.data@.subrange(start as int, start + i + 1));
            i = i + 1;
        }
        self.pos = self.pos + n as u64;
        assert(out@ =~= remaining(self.data@, old(self).pos).take(n as int));
        Ok(out)
    }

    /// Reads everything from the cursor to the end and leaves the cursor after
    /// the last byte read.
    pub fn read_to_end(&mut self) -> (v: Vec<u8>)
        ensures
            v@ == remaining(old(self).data@, old(self).pos),
            final(self).data == old(self).data,
            final(self).pos == old(self).pos + v@.len(),
    {
        let len: usize = self.data.len();
        if self.pos >= len as u64 {
            return Vec::new();
        }
        let n: usize = len - self.pos as usize;
        match self.read_exact(n) {
            Ok(v) => {
                assert(v@ =~= remaining(old(self).data@, old(self).pos));
                v
            },
            Err(_) => Vec::new(),
        }
    }

    /// Writes all of `buf` at the cursor and advances the cursor past it. The
    /// write fails, changing nothing, when it would end beyond the largest
    /// length a byte vector can have.
    pub fn write(&mut self, buf: &[u8]) -> (r: Result<usize, PackError>)
        ensures
            old(self).pos + buf@.len() <= usize::MAX ==> (r == Ok::<usize, PackError>(buf@.len() as usize)
                && final(self).data@ == written(
                old(self).data@,
                old(self).pos as nat,
                buf@,
            ) && final(self).pos == old(self).pos + buf@.len()),
            old(self).pos + buf@.len() > usize::MAX ==> (r == Err::<usize, PackError>(
                PackError::Io(IoErrorKind::InvalidInput),
            ) && *final(self) == *old(self)),
    {
        let n: usize = buf.len();
        if self.pos > usize::MAX as u64 || n > usize::MAX - self.pos as usize {
            return Err(PackError::Io(IoErrorKind::InvalidInput));
        }
        let start: usize = self.pos as usize;
        let ghost before = self.data@;
        while self.data.len() < start
            invariant
                self.data@.len() <= start || before.len() > start,
                self.data@ == if before.len() >= start {
                    before
                } else {
                    before + zeros((self.data@.len() - before.len()) as nat)
                },
                before.len() <= self.data@.len(),
                self.pos == old(self).pos,
            decreases start - self.data@.len(),
        {
            self.data.push(0);
            assert(self.data@ =~= before + zeros((self.data@.len() - before.len()) as nat));
        }
        let ghost padded = self.data@;
        let mut i: usize = 0;
        while i < n
            invariant
                i <= n,
                n == buf@.len(),
                start + n <= usize::MAX,
                start <= padded.len(),
                self.pos == old(self).pos,
                self.data@.len() == if start + i > padded.len() {
                    start + i
                } else {
                    padded.len() as int
                },
                forall|j: int| 0 <= j < start ==> self.data@[j] == padded[j],
                forall|j: int| start <= j < start + i ==> self.data@[j] == buf@[j - start],
                forall|j: int| start + i <= j < padded.len() ==> self.data@[j] == padded[j],
            decreases n - i,
        {
            if start + i < self.data.len() {
                self.data.set(start + i, buf[i]);
            } else {
                self.data.push(buf[i]);
            }
            i = i + 1;
        }
        self.pos = self.pos + n as u64;
        assert(self.data@ =~= written(before, start as nat, buf@));
        Ok(n)
    }

    /// Moves the cursor. A target below zero is clamped to zero; a target
    /// beyond the largest position is refused and the cursor stays.
    pub fn seek(&mut self, from: SeekFrom) -> (r: Result<u64, PackError>)
        ensures
            final(self).data == old(self).data,
            seek_result(old(self).data@.len(), old(self).pos, from) <= u64::MAX ==> (r == Ok::<
                u64,
                PackError,
            >(seek_result(old(self).data@.len(), old(self).pos, from) as u64) && final(self).pos
                == seek_result(old(self).data@.len(), old(self).pos, from)),
            seek_result(old(self).data@.len(), old(self).pos, from) > u64::MAX ==> (r == Err::<
                u64,
                PackError,
            >(PackError::Io(IoErrorKind::InvalidInput)) && final(self).pos == old(self).pos),
    {
        let len: u64 = self.data.len() as u64;
        let target: Option<u64> = match from {
            SeekFrom::Start(n) => Some(n),
            SeekFrom::End(d) => offset_by(len, d),
            SeekFrom::Current(d) => offset_by(self.pos, d),
        };
        match target {
            Some(t) => {
                self.pos = t;
                Ok(t)
            },
            None => Err(PackError::Io(IoErrorKind::InvalidInput)),
        }
    }

    /// Cuts or zero-extends the bytes to exactly `size` bytes; the cursor
    /// stays. A size that no byte vector can have is refused.
    pub fn set_len(&mut self, size: u64) -> (r: Result<(), PackError>)
        ensures
            final(self).pos == old(self).pos,
            size <= usize::MAX ==> (r == Ok::<(), PackError>(()) && final(self).data@ == resized(
                old(self).data@,
                size as nat,
            )),
            size > usize::MAX ==> (r == Err::<(), PackError>(
                PackError::Io(IoErrorKind::InvalidInput),
            ) && final(self).data == old(self).data),
    {
        if size > usize::MAX as u64 {
            return Err(PackError::Io(IoErrorKind::InvalidInput));
        }
        let n: usize = size as usize;
        let ghost before = self.data@;
        if n <= self.data.len() {
            self.data.truncate(n);
            assert(self.data@ =~= resized(before, size as nat));
        } else {
            while self.data.len() < n
                invariant
                    before.len() <= self.data@.len() <= n,
                    self.data@ == before + zeros((self.data@.len() - before.len()) as nat),
                    self.pos == old(self).pos,
                decreases n - self.data@.len(),
            {
                self.data.push(0);
                assert(self.data@ =~= before + zeros((self.data@.len() - before.len()) as nat));
            }
            assert(before + zeros(0) =~= before);
        }
        Ok(())
    }
}

/// `base + d` in signed arithmetic: clamped to zero from below, and `None`
/// when it exceeds the largest position.
pub fn offset_by(base: u64, d: i64) -> (r: Option<u64>)
    ensures
        base + d < 0 ==> r == Some(0u64),
        0 <= base + d <= u64::MAX ==> r == Some((base + d) as u64),
        base + d > u64::MAX ==> r is None,
{
    if d >= 0 {
        let up: u64 = d as u64;
        if up > u64::MAX - base {
            None
        } else {
            Some(base + up)
        }
    } else {
        let down: u64 = if d == i64::MIN {
            9223372036854775808u64
        } else {
            (-d) as u64
        };
        if down > base {
            Some(0)
        } else {
            Some(base - down)
        }
    }
}

/// What a read does to a stream of which `s` is the bytes, or the error
/// that every access to it meets, and `pos` the cursor: the error leaves
/// everything as it was; otherwise the bytes at the cursor go to the front of
/// the caller's buffer and the cursor moves behind them.
pub open spec fn read_outcome(
    s: Result<Seq<u8>, PackError>,
    pos: u64,
    s2: Result<Seq<u8>, PackError>,
    pos2: u64,
    buf: Seq<u8>,
    buf2: Seq<u8>,
    r: Result<usize, PackError>,
) -> bool {
    match s {
        Err(e) => r matches Err(x) && x == e && s2 == s && pos2 == pos && buf2 == buf,
        Ok(bytes) => {
            &&& r == Ok::<usize, PackError>(read_len(bytes, pos, buf.len()) as usize)
            &&& s2 == s
            &&& pos2 == pos + read_len(bytes, pos, buf.len())
            &&& buf2 == read_buf(bytes, pos, buf)
        },
    }
}

/// What a write of `buf` does to such a stream. The error of the stream, a
/// write that would end beyond the largest length of a byte vector (invalid
/// input) and a write for which the owner of the bytes has no room (out of
/// memory) leave everything as it was; otherwise the bytes are written and
/// the cursor moves behind them.
pub open spec fn write_outcome(
    s: Result<Seq<u8>, PackError>,
    pos: u64,
    s2: Result<Seq<u8>, PackError>,
    pos2: u64,
    buf: Seq<u8>,
    room: bool,
    r: Result<usize, PackError>,
) -> bool {
    match s {
        Err(e) => r matches Err(x) && x == e && s2 == s && pos2 == pos,
        Ok(bytes) => if !write_fits(pos, buf.len()) {
            r matches Err(x) && x == PackError::Io(IoErrorKind::InvalidInput) && s2 == s && pos2
                == pos
        } else if !room {
            r matches Err(x) && x == PackError::Io(IoErrorKind::OutOfMemory) && s2 == s && pos2
                == pos
        } else {
            r == Ok::<usize, PackError>(buf.len() as usize) && s2 == Ok::<Seq<u8>, PackError>(
                written(bytes, pos as nat, buf),
            ) && pos2 == pos + buf.len()
        },
    }
}

/// What a seek does to such a stream: the bytes stay; the cursor moves to
/// the target, clamped to zero from below, unless the stream has its error
/// or the target lies beyond the largest position (invalid input).
pub open spec fn seek_outcome(
    s: Result<Seq<u8>, PackError>,
    pos: u64,
    s2: Result<Seq<u8>, PackError>,
    pos2: u64,
    from: SeekFrom,
    r: Result<u64, PackError>,
) -> bool {
    &&& s2 == s
    &&& match s {
        Err(e) => r matches Err(x) && x == e && pos2 == pos,
        Ok(bytes) => if seek_result(bytes.len(), pos, from) > u64::MAX {
            r matches Err(x) && x == PackError::Io(IoErrorKind::InvalidInput) && pos2 == pos
        } else {
            r == Ok::<u64, PackError>(seek_result(bytes.len(), pos, from) as u64) && pos2
                == seek_result(bytes.len(), pos, from)
        },
    }
}

/// What setting the length does to such a stream: the cursor stays; the
/// bytes are cut or zero-extended, unless the stream has its error, no byte
/// vector has that size (invalid input), or the owner of the bytes has no
/// room (out of memory).
pub open spec fn set_len_outcome(
    s: Result<Seq<u8>, PackError>,
    s2: Result<Seq<u8>, PackError>,
    size: u64,
    room: bool,
    r: Result<(), PackError>,
) -> bool {
    match s {
        Err(e) => r matches Err(x) && x == e && s2 == s,
        Ok(bytes) => if size > usize::MAX {
            r matches Err(x) && x == PackError::Io(IoErrorKind::InvalidInput) && s2 == s
        } else if !room {
            r matches Err(x) && x == PackError::Io(IoErrorKind::OutOfMemory) && s2 == s
        } else {
            r is Ok && s2 == Ok::<Seq<u8>, PackError>(resized(bytes, size as nat))
        },
    }
}

} // verus!
