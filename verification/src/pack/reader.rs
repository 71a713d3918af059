use crate::error::IoErrorKind;
use crate::error::PackError;
use crate::pack::buffer::InMemoryBuf;
use crate::pack::buffer::remaining;
use crate::pack::image::key_of;
use crate::pack::layout::on_disk_offset;
use crate::pack::layout::sorted;
use crate::pack::names::Entry;
use crate::pack::names::lemma_put_elements;
use crate::pack::names::NameMap;
use crate::pack::names::put;
use crate::pack::PACK_HEADER_SIZE;
use crate::pack::PACK_MAGIC;
use crate::pack::PACK_VERSION;
use crate::pack::store::Buffers;
use crate::pack::store::SliceKey;
use crate::pack::toc::entries_fit;
use crate::pack::toc::entry_fits;
use crate::pack::toc::magic;
use crate::pack::toc::parse_block_body;
use crate::pack::toc::parse_entries;
use crate::pack::toc::parse_toc_block;
use crate::pack::toc::TOC_CAPACITY;
use crate::pack::toc::TOC_HEADER_SIZE;
use crate::pack::TOC_SIZE;
use vstd::bytes::*;
use vstd::prelude::*;

verus! {

/// What following the chain of blocks from `next` gives: names and block
/// offsets collected so far, with the entries of every further block recorded
/// and its offset appended. A block that does not lie within the bytes is an
/// unexpected end; a fill count below the size of the block header is invalid
/// data; so is a chain of more blocks than `fuel`, which is how a chain that
/// runs in a circle ends.
pub open spec fn walk_chain(
    b: Seq<u8>,
    next: u64,
    fuel: nat,
    names: Seq<Entry>,
    blocks: Seq<u64>,
) -> Result<(Seq<Entry>, Seq<u64>), PackError>
    decreases fuel,
{
    if next == 0 {
        Ok((names, blocks))
    } else if fuel == 0 {
        Err(PackError::Io(IoErrorKind::InvalidData))
    } else if next + TOC_SIZE > b.len() {
        Err(PackError::Io(IoErrorKind::UnexpectedEof))
    } else {
        let filled = spec_u16_from_le_bytes(b.subrange(next as int, next + 2));
        let following = spec_u64_from_le_bytes(b.subrange(next + 2, next + 10));
        if filled < TOC_HEADER_SIZE {
            Err(PackError::Io(IoErrorKind::InvalidData))
        } else {
            match parse_block_body(
                names,
                (filled - TOC_HEADER_SIZE) as u16,
                b.subrange(next + 10, next + TOC_SIZE),
            ) {
                Err(e) => Err(e),
                Ok(more) => walk_chain(b, following, (fuel - 1) as nat, more, blocks.push(next)),
            }
        }
    }
}

/// What reading the headers of a file gives: the names of its table of
/// contents and the offsets of its blocks in the order of the chain. Bytes
/// that do not start with the magic are bad magic; a version other than this
/// build's is incompatible; a header that is cut short is an unexpected end.
pub open spec fn parse_headers_spec(b: Seq<u8>) -> Result<(Seq<Entry>, Seq<u64>), PackError> {
    if b.len() < 8 {
        Err(PackError::Io(IoErrorKind::UnexpectedEof))
    } else if b.subrange(0, 8) != magic() {
        Err(PackError::BadMagic)
    } else if b.len() < 10 {
        Err(PackError::Io(IoErrorKind::UnexpectedEof))
    } else if spec_u16_from_le_bytes(b.subrange(8, 10)) != PACK_VERSION {
        Err(PackError::Incompatible(spec_u16_from_le_bytes(b.subrange(8, 10))))
    } else if b.len() < PACK_HEADER_SIZE {
        Err(PackError::Io(IoErrorKind::UnexpectedEof))
    } else {
        walk_chain(
            b,
            spec_u64_from_le_bytes(b.subrange(18, 26)),
            b.len(),
            Seq::<Entry>::empty(),
            Seq::<u64>::empty(),
        )
    }
}

/// Reads a file whose version is not the current one. No earlier version is
/// known to this build, so every version is refused as incompatible.
pub fn parse_backwards_compatible(version: u16) -> (r: Result<(NameMap, Vec<u64>), PackError>)
    ensures
        r matches Err(e) && e == PackError::Incompatible(version),
{
    Err(PackError::Incompatible(version))
}

/// True when the bytes are the magic.
pub fn is_magic(bytes: &[u8]) -> (b: bool)
    ensures
        b == (bytes@ == magic()),
{
    if bytes.len() != 8 {
        return false;
    }
    let expected = PACK_MAGIC;
    let mut i: usize = 0;
    while i < 8
        invariant
            i <= 8,
            bytes@.len() == 8,
            expected == PACK_MAGIC,
            forall|j: int| 0 <= j < i ==> bytes@[j] == magic()[j],
        decreases 8 - i,
    {
        if bytes[i] != expected[i] {
            assert(bytes@[i as int] != magic()[i as int]);
            return false;
        }
        i = i + 1;
    }
    assert(bytes@ =~= magic());
    true
}

/// Reads the file header at the start of `file`, then follows the chain of
/// blocks of the table of contents and records every entry. Returns the name
/// map and the offsets of the blocks in the order of the chain.
pub fn parse_headers(file: &mut InMemoryBuf) -> (r: Result<(NameMap, Vec<u64>), PackError>)
    requires
        old(file).pos == 0,
    ensures
        final(file).data == old(file).data,
        match parse_headers_spec(old(file).data@) {
            Ok((names, blocks)) => r matches Ok(p) && p.0@ == names && p.0.wf() && p.1@ == blocks,
            Err(e) => r matches Err(x) && x == e,
        },
{
    let ghost b = file.data@;
    let magic_bytes = match file.read_exact(8) {
        Ok(v) => v,
        Err(e) => {
            return Err(PackError::Io(IoErrorKind::UnexpectedEof));
        },
    };
    assert(magic_bytes@ =~= b.subrange(0, 8));
    if !is_magic(magic_bytes.as_slice()) {
        return Err(PackError::BadMagic);
    }
    let version_bytes = match file.read_exact(2) {
        Ok(v) => v,
        Err(e) => {
            return Err(PackError::Io(IoErrorKind::UnexpectedEof));
        },
    };
    assert(version_bytes@ =~= b.subrange(8, 10));
    let version: u16 = u16_from_le_bytes(version_bytes.as_slice());
    if version != PACK_VERSION {
        return parse_backwards_compatible(version);
    }
    let size_bytes = match file.read_exact(8) {
        Ok(v) => v,
        Err(e) => {
            return Err(PackError::Io(IoErrorKind::UnexpectedEof));
        },
    };
    let first_bytes = match file.read_exact(8) {
        Ok(v) => v,
        Err(e) => {
            return Err(PackError::Io(IoErrorKind::UnexpectedEof));
        },
    };
    assert(first_bytes@ =~= b.subrange(18, 26));
    let first: u64 = u64_from_le_bytes(first_bytes.as_slice());
    let mut offsets = NameMap::new();
    let mut toc_blocks: Vec<u64> = Vec::new();
    let mut next: u64 = first;
    let mut fuel: usize = file.data.len();
    while next != 0
        invariant
            file.data@ == b,
            file.data == old(file).data,
            offsets.wf(),
            parse_headers_spec(b) == walk_chain(b, next, fuel as nat, offsets@, toc_blocks@),
        decreases fuel,
    {
        if fuel == 0 {
            return Err(PackError::Io(IoErrorKind::InvalidData));
        }
        toc_blocks.push(next);
        file.set_position(next);
        let filled_bytes = match file.read_exact(2) {
            Ok(v) => v,
            Err(e) => {
                return Err(PackError::Io(IoErrorKind::UnexpectedEof));
            },
        };
        let next_bytes = match file.read_exact(8) {
            Ok(v) => v,
            Err(e) => {
                return Err(PackError::Io(IoErrorKind::UnexpectedEof));
            },
        };
        let body = match file.read_exact(TOC_CAPACITY) {
            Ok(v) => v,
            Err(e) => {
                return Err(PackError::Io(IoErrorKind::UnexpectedEof));
            },
        };
        proof {
            assert(filled_bytes@ =~= b.subrange(next as int, next + 2));
            assert(next_bytes@ =~= b.subrange(next + 2, next + 10));
            assert(body@ =~= b.subrange(next + 10, next + TOC_SIZE));
        }
        let filled: u16 = u16_from_le_bytes(filled_bytes.as_slice());
        let following: u64 = u64_from_le_bytes(next_bytes.as_slice());
        if filled < TOC_HEADER_SIZE as u16 {
            return Err(PackError::Io(IoErrorKind::InvalidData));
        }
        match parse_toc_block(filled - TOC_HEADER_SIZE as u16, body.as_slice(), &mut offsets) {
            Ok(_) => {},
            Err(e) => {
                return Err(e);
            },
        }
        next = following;
        fuel = fuel - 1;
    }
    Ok((offsets, toc_blocks))
}

/// What a file holds, as mathematics: the names with the key of each, the
/// buffer under every key, the keys in the order in which the buffers were
/// read, the number of bytes in all buffers, and the place beyond every key
/// from which further keys are counted.
pub struct Archive {
    pub names: Seq<Entry>,
    pub buffers: Buffers,
    pub keys: Seq<SliceKey>,
    pub total: nat,
    pub next: nat,
}

/// The place behind a key: its offset and its length added up, and one more
/// than its offset where the length is zero.
pub open spec fn behind(key: SliceKey) -> nat {
    if key.1 == 0 {
        (key.0 + 1) as nat
    } else {
        (key.0 + key.1) as nat
    }
}

/// What reading the buffers of the entries from index `i` on gives, on top
/// of the buffers read so far. The bytes of an entry stand at the place in
/// the file that its offset converts to; an entry whose bytes do not lie
/// within the file is an unexpected end. The buffer goes under the key made
/// of the entry's offset and length; of two entries with one key the first
/// gives the buffer. Buffers that together exceed the largest size are out
/// of memory. Along the way the place behind the farthest key is kept.
pub open spec fn install(
    b: Seq<u8>,
    blocks: Seq<u64>,
    names: Seq<Entry>,
    i: int,
    bufs: Buffers,
    keys: Seq<SliceKey>,
    total: nat,
    next: nat,
) -> Result<(Buffers, Seq<SliceKey>, nat, nat), PackError>
    decreases names.len() - i,
{
    if i < 0 || i >= names.len() {
        Ok((bufs, keys, total, next))
    } else {
        let e = names[i];
        let at = on_disk_offset(blocks, e.offset);
        if at > u64::MAX {
            Err(PackError::Io(IoErrorKind::UnexpectedEof))
        } else if e.length > remaining(b, at as u64).len() {
            Err(PackError::Io(IoErrorKind::UnexpectedEof))
        } else if bufs.contains_key(key_of(e)) {
            install(b, blocks, names, i + 1, bufs, keys, total, next)
        } else if total + e.length > usize::MAX {
            Err(PackError::Io(IoErrorKind::OutOfMemory))
        } else {
            install(
                b,
                blocks,
                names,
                i + 1,
                bufs.insert(key_of(e), remaining(b, at as u64).take(e.length as int)),
                keys.push(key_of(e)),
                (total + e.length) as nat,
                if behind(key_of(e)) > next {
                    behind(key_of(e))
                } else {
                    next
                },
            )
        }
    }
}

/// What opening a file gives: the names of its table of contents, and the
/// buffer of each read from the payload, the blocks of the table taken in
/// ascending order to find it.
pub open spec fn read_archive(b: Seq<u8>) -> Result<Archive, PackError> {
    match parse_headers_spec(b) {
        Err(e) => Err(e),
        Ok((names, chain)) => match install(
            b,
            sorted(chain),
            names,
            0,
            Buffers::empty(),
            Seq::<SliceKey>::empty(),
            0,
            0,
        ) {
            Err(e) => Err(e),
            Ok((buffers, keys, total, next)) => Ok(Archive { names, buffers, keys, total, next }),
        },
    }
}

/// Entries parsed from the body of a block have names short enough for a block.
pub proof fn lemma_parse_entries_fit(names: Seq<Entry>, b: Seq<u8>)
    requires
        entries_fit(names),
        b.len() <= TOC_CAPACITY,
    ensures
        parse_entries(names, b) matches Ok(more) ==> entries_fit(more),
    decreases b.len(),
{
    broadcast use vstd::utf8::group_utf8_lib;

    if b.len() >= 2 {
        let n = spec_u16_from_le_bytes(b.subrange(0, 2)) as int;
        if b.len() >= 18 + n && vstd::utf8::valid_utf8(b.subrange(2, 2 + n)) {
            let e = Entry {
                name: vstd::utf8::decode_utf8(b.subrange(2, 2 + n)),
                offset: spec_u64_from_le_bytes(b.subrange(2 + n, 10 + n)),
                length: spec_u64_from_le_bytes(b.subrange(10 + n, 18 + n)),
            };
            assert(vstd::utf8::encode_utf8(e.name) == b.subrange(2, 2 + n));
            assert(entry_fits(e));
            let next = put(names, e);
            assert(entries_fit(next)) by {
                lemma_put_elements(names, e);
                assert forall|i: int| 0 <= i < next.len() implies entry_fits(#[trigger] next[i]) by {
                    if next[i] != e {
                        assert(entry_fits(names[i]));
                    }
                }
            }
            lemma_parse_entries_fit(next, b.skip(18 + n));
        }
    }
}

/// Names read from the headers of a file are short enough for a block.
pub proof fn lemma_walk_chain_fit(
    b: Seq<u8>,
    next: u64,
    fuel: nat,
    names: Seq<Entry>,
    blocks: Seq<u64>,
)
    requires
        entries_fit(names),
    ensures
        walk_chain(b, next, fuel, names, blocks) matches Ok(p) ==> entries_fit(p.0),
    decreases fuel,
{
    if next != 0 && fuel != 0 && next + TOC_SIZE <= b.len() {
        let filled = spec_u16_from_le_bytes(b.subrange(next as int, next + 2));
        let following = spec_u64_from_le_bytes(b.subrange(next + 2, next + 10));
        if filled >= TOC_HEADER_SIZE {
            let body = b.subrange(next + 10, next + TOC_SIZE);
            let count = (filled - TOC_HEADER_SIZE) as u16;
            if count <= body.len() {
                lemma_parse_entries_fit(names, body.take(count as int));
                match parse_block_body(names, count, body) {
                    Ok(more) => {
                        lemma_walk_chain_fit(b, following, (fuel - 1) as nat, more, blocks.push(next));
                    },
                    Err(_) => {},
                }
            }
        }
    }
}

/// Names read from the headers of a file are short enough for a block.
pub proof fn lemma_parse_headers_fit(b: Seq<u8>)
    ensures
        parse_headers_spec(b) matches Ok(p) ==> entries_fit(p.0),
{
    if b.len() >= PACK_HEADER_SIZE {
        lemma_walk_chain_fit(
            b,
            spec_u64_from_le_bytes(b.subrange(18, 26)),
            b.len(),
            Seq::<Entry>::empty(),
            Seq::<u64>::empty(),
        );
    }
}

} // verus!
