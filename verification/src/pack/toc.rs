use crate::error::IoErrorKind;
use crate::error::PackError;
use crate::pack::buffer::InMemoryBuf;
use crate::pack::buffer::written;
use crate::pack::buffer::zeros;
use crate::pack::names::by_offset;
use crate::pack::names::Entry;
use crate::pack::names::in_order;
use crate::pack::names::lemma_by_offset;
use crate::pack::names::NameEntry;
use crate::pack::names::NameMap;
use crate::pack::names::put;
use crate::pack::names::put_all;
use crate::pack::PACK_HEADER_SIZE;
use crate::pack::PACK_MAGIC;
use crate::pack::PACK_VERSION;
use crate::pack::TOC_SIZE;
use vstd::bytes::*;
use vstd::prelude::*;
use vstd::slice::slice_subrange;
use vstd::slice::slice_to_vec;
use vstd::utf8::*;

verus! {

/// Bytes at the start of a block: the fill count and the offset of the next block.
pub const TOC_HEADER_SIZE: usize = 10;

/// Bytes of a block that can hold entries.
pub const TOC_CAPACITY: usize = 4086;

/// Bytes of an entry beside its name: name length, offset and length.
pub const ENTRY_FIXED_SIZE: usize = 18;

/// The longest name, in bytes of UTF-8, whose entry fits in one block.
pub const MAX_NAME_LEN: usize = 4068;

/// The error of std for bytes that are not UTF-8.
#[verifier::external_type_specification]
#[verifier::external_body]
pub struct ExFromUtf8Error(std::string::FromUtf8Error);

/// `String::from_utf8`: succeeds exactly on valid UTF-8, and the string it
/// gives is made of the bytes it was given.
#[verifier::external_body]
pub(crate) fn string_from_utf8(bytes: Vec<u8>) -> (r: Result<String, std::string::FromUtf8Error>)
    ensures
        r is Ok <==> valid_utf8(bytes@),
        r matches Ok(s) ==> encode_utf8(s@) == bytes@,
{
    String::from_utf8(bytes)
}

/// The bytes of a name in a table of contents: its UTF-8 encoding.
pub open spec fn name_bytes(name: Seq<char>) -> Seq<u8> {
    encode_utf8(name)
}

/// True when the entry's name is short enough for the entry to fit in a block.
pub open spec fn entry_fits(e: Entry) -> bool {
    name_bytes(e.name).len() <= MAX_NAME_LEN
}

/// True when every entry fits in a block.
pub open spec fn entries_fit(es: Seq<Entry>) -> bool {
    forall|i: int| 0 <= i < es.len() ==> entry_fits(#[trigger] es[i])
}

/// The size of an entry in a table of contents.
pub open spec fn entry_size(e: Entry) -> nat {
    ENTRY_FIXED_SIZE as nat + name_bytes(e.name).len()
}

/// An entry as it stands in a table of contents: the length of the name as a
/// little-endian u16, the name, then offset and length as little-endian u64.
pub open spec fn entry_bytes(e: Entry) -> Seq<u8> {
    spec_u16_to_le_bytes(name_bytes(e.name).len() as u16) + name_bytes(e.name)
        + spec_u64_to_le_bytes(e.offset) + spec_u64_to_le_bytes(e.length)
}

/// Entries one after another, without padding.
pub open spec fn entries_bytes(es: Seq<Entry>) -> Seq<u8>
    decreases es.len(),
{
    if es.len() == 0 {
        Seq::<u8>::empty()
    } else {
        entry_bytes(es[0]) + entries_bytes(es.drop_first())
    }
}

/// The size of entries one after another.
pub open spec fn entries_size(es: Seq<Entry>) -> nat
    decreases es.len(),
{
    if es.len() == 0 {
        0
    } else {
        entry_size(es[0]) + entries_size(es.drop_first())
    }
}

/// What parsing the bytes of a block as entries gives: the names recorded so
/// far with each parsed entry recorded in turn; an unexpected end when an
/// entry is cut short; a UTF-8 error when a name is not UTF-8.
pub open spec fn parse_entries(names: Seq<Entry>, b: Seq<u8>) -> Result<Seq<Entry>, PackError>
    decreases b.len(),
{
    if b.len() == 0 {
        Ok(names)
    } else if b.len() < 2 {
        Err(PackError::Io(IoErrorKind::UnexpectedEof))
    } else {
        let n = spec_u16_from_le_bytes(b.subrange(0, 2)) as int;
        if b.len() < ENTRY_FIXED_SIZE + n {
            Err(PackError::Io(IoErrorKind::UnexpectedEof))
        } else if !valid_utf8(b.subrange(2, 2 + n)) {
            Err(PackError::Utf8Error)
        } else {
            let e = Entry {
                name: decode_utf8(b.subrange(2, 2 + n)),
                offset: spec_u64_from_le_bytes(b.subrange(2 + n, 10 + n)),
                length: spec_u64_from_le_bytes(b.subrange(10 + n, 18 + n)),
            };
            parse_entries(put(names, e), b.skip(18 + n))
        }
    }
}

/// An entry takes as many bytes as its size says.
pub proof fn lemma_entry_bytes_len(e: Entry)
    ensures
        entry_bytes(e).len() == entry_size(e),
{
    lemma_auto_spec_u16_to_from_le_bytes();
    lemma_auto_spec_u64_to_from_le_bytes();
}

/// Entries take as many bytes as their sizes add up to.
pub proof fn lemma_entries_bytes_len(es: Seq<Entry>)
    ensures
        entries_bytes(es).len() == entries_size(es),
    decreases es.len(),
{
    if es.len() > 0 {
        lemma_entry_bytes_len(es[0]);
        lemma_entries_bytes_len(es.drop_first());
    }
}

/// Appending an entry appends its bytes and adds its size.
pub proof fn lemma_entries_push(es: Seq<Entry>, e: Entry)
    ensures
        entries_bytes(es.push(e)) == entries_bytes(es) + entry_bytes(e),
        entries_size(es.push(e)) == entries_size(es) + entry_size(e),
    decreases es.len(),
{
    if es.len() == 0 {
        assert(es.push(e).drop_first() =~= es);
        assert(entries_bytes(es.push(e)) =~= entries_bytes(es) + entry_bytes(e));
    } else {
        assert(es.push(e).drop_first() =~= es.drop_first().push(e));
        lemma_entries_push(es.drop_first(), e);
        assert(entries_bytes(es.push(e)) =~= entries_bytes(es) + entry_bytes(e));
    }
}

/// A single entry has its own bytes and size.
pub proof fn lemma_entries_one(e: Entry)
    ensures
        entries_bytes(seq![e]) == entry_bytes(e),
        entries_size(seq![e]) == entry_size(e),
{
    let none = Seq::<Entry>::empty();
    assert(none.push(e) =~= seq![e]);
    lemma_entries_push(none, e);
    assert(entries_bytes(none) + entry_bytes(e) =~= entry_bytes(e));
}

/// Parsing the bytes of an entry followed by more bytes records that entry
/// and goes on with the rest.
pub proof fn lemma_parse_one(names: Seq<Entry>, e: Entry, rest: Seq<u8>)
    requires
        entry_fits(e),
    ensures
        parse_entries(names, entry_bytes(e) + rest) == parse_entries(put(names, e), rest),
{
    broadcast use group_utf8_lib;

    lemma_auto_spec_u16_to_from_le_bytes();
    lemma_auto_spec_u64_to_from_le_bytes();
    let nb = name_bytes(e.name);
    let n = nb.len() as int;
    let b = entry_bytes(e) + rest;
    assert(b.subrange(0, 2) =~= spec_u16_to_le_bytes(n as u16));
    assert(spec_u16_from_le_bytes(b.subrange(0, 2)) == n as u16);
    assert(b.subrange(2, 2 + n) =~= nb);
    assert(b.subrange(2 + n, 10 + n) =~= spec_u64_to_le_bytes(e.offset));
    assert(b.subrange(10 + n, 18 + n) =~= spec_u64_to_le_bytes(e.length));
    assert(b.skip(18 + n) =~= rest);
    assert(decode_utf8(nb) == e.name);
    let parsed = Entry {
        name: decode_utf8(b.subrange(2, 2 + n)),
        offset: spec_u64_from_le_bytes(b.subrange(2 + n, 10 + n)),
        length: spec_u64_from_le_bytes(b.subrange(10 + n, 18 + n)),
    };
    assert(parsed == e);
}

/// Parsing what was written gives back what was written: the bytes of
/// entries that fit parse to those entries, recorded in order.
pub proof fn lemma_parse_entries_bytes(names: Seq<Entry>, es: Seq<Entry>)
    requires
        entries_fit(es),
    ensures
        parse_entries(names, entries_bytes(es)) == Ok::<Seq<Entry>, PackError>(put_all(names, es)),
    decreases es.len(),
{
    if es.len() > 0 {
        let rest = es.drop_first();
        assert(entry_fits(es[0]));
        assert forall|i: int| 0 <= i < rest.len() implies entry_fits(#[trigger] rest[i]) by {
            assert(rest[i] == es[i + 1]);
        }
        lemma_parse_one(names, es[0], entries_bytes(rest));
        lemma_parse_entries_bytes(put(names, es[0]), rest);
    }
}

/// Appends the entry, as it stands in a table of contents, to `out`.
pub fn write_entry(out: &mut Vec<u8>, e: &NameEntry)
    requires
        entry_fits(e@),
    ensures
        final(out)@ == old(out)@ + entry_bytes(e@),
{
    let name = e.name.as_str().as_bytes();
    let len_bytes = u16_to_le_bytes(name.len() as u16);
    let offset_bytes = u64_to_le_bytes(e.offset);
    let length_bytes = u64_to_le_bytes(e.length);
    out.extend_from_slice(len_bytes.as_slice());
    out.extend_from_slice(name);
    out.extend_from_slice(offset_bytes.as_slice());
    out.extend_from_slice(length_bytes.as_slice());
    assert(out@ =~= old(out)@ + entry_bytes(e@));
}

/// What `parse_toc_block` makes of a block body of which the first `filled`
/// bytes are meaningful.
pub open spec fn parse_block_body(names: Seq<Entry>, filled: u16, block: Seq<u8>) -> Result<
    Seq<Entry>,
    PackError,
> {
    if filled > block.len() {
        Err(PackError::Io(IoErrorKind::UnexpectedEof))
    } else {
        parse_entries(names, block.take(filled as int))
    }
}

/// Parses the first `filled` bytes of a block body as entries and records
/// each in `offsets`, a later entry replacing an earlier one of the same
/// name. Parsing is strict: an entry that is cut short is an unexpected end,
/// a name that is not UTF-8 a UTF-8 error. After an error `offsets` holds the
/// entries parsed before it.
pub fn parse_toc_block(filled: u16, block: &[u8], offsets: &mut NameMap) -> (r: Result<
    (),
    PackError,
>)
    requires
        old(offsets).wf(),
    ensures
        final(offsets).wf(),
        match parse_block_body(old(offsets)@, filled, block@) {
            Ok(names) => r is Ok && final(offsets)@ == names,
            Err(e) => r == Err::<(), PackError>(e),
        },
{
    let end: usize = filled as usize;
    if end > block.len() {
        return Err(PackError::Io(IoErrorKind::UnexpectedEof));
    }
    let ghost bytes = block@.take(end as int);
    let mut curr: usize = 0;
    assert(bytes.skip(0) =~= bytes);
    while curr < end
        invariant
            curr <= end <= block@.len(),
            end == filled,
            bytes == block@.take(end as int),
            offsets.wf(),
            parse_entries(old(offsets)@, bytes) == parse_entries(offsets@, bytes.skip(curr as int)),
        decreases end - curr,
    {
        let ghost rest = bytes.skip(curr as int);
        assert(rest.len() == end - curr);
        if end - curr < 2 {
            return Err(PackError::Io(IoErrorKind::UnexpectedEof));
        }
        let strlen: u16 = u16_from_le_bytes(slice_subrange(block, curr, curr + 2));
        assert(rest.subrange(0, 2) =~= block@.subrange(curr as int, curr + 2));
        let n: usize = strlen as usize;
        if end - curr < ENTRY_FIXED_SIZE + n {
            return Err(PackError::Io(IoErrorKind::UnexpectedEof));
        }
        let name_vec: Vec<u8> = slice_to_vec(slice_subrange(block, curr + 2, curr + 2 + n));
        let ghost nb = name_vec@;
        assert(rest.subrange(2, 2 + n) =~= nb);
        let offset: u64 = u64_from_le_bytes(slice_subrange(block, curr + 2 + n, curr + 10 + n));
        assert(rest.subrange(2 + n, 10 + n) =~= block@.subrange(curr + 2 + n, curr + 10 + n));
        let length: u64 = u64_from_le_bytes(slice_subrange(block, curr + 10 + n, curr + 18 + n));
        assert(rest.subrange(10 + n, 18 + n) =~= block@.subrange(curr + 10 + n, curr + 18 + n));
        let name: String = match string_from_utf8(name_vec) {
            Ok(s) => s,
            Err(_) => {
                return Err(PackError::Utf8Error);
            },
        };
        proof {
            broadcast use group_utf8_lib;

            assert(decode_utf8(encode_utf8(name@)) == name@);
            assert(rest.skip(18 + n) =~= bytes.skip(curr + 18 + n));
        }
        offsets.insert(name, offset, length);
        curr = curr + ENTRY_FIXED_SIZE + n;
    }
    proof {
        assert(bytes.skip(curr as int) =~= Seq::<u8>::empty());
    }
    Ok(())
}

/// The largest number of blocks whose end still has an offset: with more,
/// `PACK_HEADER_SIZE + TOC_SIZE * blocks` exceeds a u64.
pub const MAX_BLOCKS: u64 = 4503599627370495;

/// How entries are spread over blocks, given the entries of the block being
/// filled and those still to place: an entry goes into the block being filled
/// unless it would overflow it, and then opens the next block.
pub open spec fn groups_from(cur: Seq<Entry>, rest: Seq<Entry>) -> Seq<Seq<Entry>>
    decreases rest.len(),
{
    if rest.len() == 0 {
        seq![cur]
    } else if TOC_HEADER_SIZE + entries_size(cur) + entry_size(rest[0]) > TOC_SIZE {
        seq![cur] + groups_from(seq![rest[0]], rest.drop_first())
    } else {
        groups_from(cur.push(rest[0]), rest.drop_first())
    }
}

/// The entries of each block of the table of contents, block by block. No
/// entries need no block.
pub open spec fn toc_groups(es: Seq<Entry>) -> Seq<Seq<Entry>> {
    if es.len() == 0 {
        Seq::<Seq<Entry>>::empty()
    } else {
        groups_from(Seq::<Entry>::empty(), es)
    }
}

/// Where block number `i` of a table of contents stands in the file.
pub open spec fn block_offset(i: int) -> int {
    PACK_HEADER_SIZE + TOC_SIZE * i
}

/// A block: the count of meaningful bytes, the offset of the next block (zero
/// in the last), the entries, and zeros up to the size of a block.
pub open spec fn block_bytes(group: Seq<Entry>, next: u64) -> Seq<u8> {
    spec_u16_to_le_bytes((TOC_HEADER_SIZE + entries_size(group)) as u16) + spec_u64_to_le_bytes(
        next,
    ) + entries_bytes(group) + zeros((TOC_CAPACITY - entries_size(group)) as nat)
}

/// The offset that block `i` of `count` blocks names as its successor.
pub open spec fn next_of(i: int, count: int) -> u64 {
    if i + 1 < count {
        block_offset(i + 1) as u64
    } else {
        0
    }
}

/// The blocks of the table of contents for groups of entries, written one
/// after another behind the file header.
pub open spec fn toc_blocks(groups: Seq<Seq<Entry>>) -> Seq<Seq<u8>> {
    Seq::new(groups.len(), |i: int| block_bytes(groups[i], next_of(i, groups.len() as int)))
}

/// The byte sequences that a vector of byte vectors holds.
pub open spec fn blocks_view(blocks: Seq<Vec<u8>>) -> Seq<Seq<u8>> {
    Seq::new(blocks.len(), |i: int| blocks[i]@)
}

/// Every group of a spread is a group of entries that fit together in a block.
pub open spec fn group_fits(group: Seq<Entry>) -> bool {
    entries_size(group) <= TOC_CAPACITY
}

/// What a spread is made of: at least one group; every group fits in a
/// block; the groups in a row are the entries in their order; and no group
/// but the first can be empty.
pub proof fn lemma_groups_from(cur: Seq<Entry>, rest: Seq<Entry>)
    requires
        group_fits(cur),
        entries_fit(rest),
    ensures
        groups_from(cur, rest).len() >= 1,
        groups_from(cur, rest).len() <= rest.len() + 1,
        forall|i: int|
            0 <= i < groups_from(cur, rest).len() ==> group_fits(
                #[trigger] groups_from(cur, rest)[i],
            ),
        groups_from(cur, rest).flatten() == cur + rest,
        forall|i: int|
            0 < i < groups_from(cur, rest).len() ==> (#[trigger] groups_from(cur, rest)[i]).len()
                > 0,
        rest.len() > 0 ==> groups_from(cur, rest).last().len() > 0,
    decreases rest.len(),
{
    let g = groups_from(cur, rest);
    if rest.len() == 0 {
        assert(g =~= seq![cur]);
        assert(seq![cur].flatten() =~= cur + rest) by {
            lemma_flatten_one(cur);
            assert(cur + rest =~= cur);
        }
    } else {
        let e = rest[0];
        let tail = rest.drop_first();
        assert(entry_fits(e));
        assert forall|i: int| 0 <= i < tail.len() implies entry_fits(#[trigger] tail[i]) by {
            assert(tail[i] == rest[i + 1]);
        }
        if TOC_HEADER_SIZE + entries_size(cur) + entry_size(e) > TOC_SIZE {
            let one = seq![e];
            lemma_entries_one(e);
            lemma_groups_from(one, tail);
            let sub = groups_from(one, tail);
            assert(g == seq![cur] + sub);
            assert forall|i: int| 0 <= i < g.len() implies group_fits(#[trigger] g[i]) by {
                if i > 0 {
                    assert(g[i] == sub[i - 1]);
                }
            }
            assert forall|i: int| 0 < i < g.len() implies (#[trigger] g[i]).len() > 0 by {
                assert(g[i] == sub[i - 1]);
                if i - 1 == 0 {
                    assert(sub[0].len() > 0) by {
                        lemma_groups_first(one, tail);
                    }
                }
            }
            assert(g.last() == sub.last());
            if tail.len() == 0 {
                assert(sub =~= seq![one]);
            }
            assert(g.flatten() =~= cur + rest) by {
                lemma_flatten_cons(cur, sub);
                assert(one + tail =~= rest);
            }
        } else {
            lemma_entries_push(cur, e);
            lemma_groups_from(cur.push(e), tail);
            assert(cur.push(e) + tail =~= cur + rest);
            if tail.len() == 0 {
                assert(g =~= seq![cur.push(e)]);
            }
        }
    }
}

/// The first group of a spread starts with the entries of the block being
/// filled.
pub proof fn lemma_groups_first(cur: Seq<Entry>, rest: Seq<Entry>)
    ensures
        groups_from(cur, rest).len() >= 1,
        groups_from(cur, rest)[0].len() >= cur.len(),
    decreases rest.len(),
{
    if rest.len() > 0 {
        if TOC_HEADER_SIZE + entries_size(cur) + entry_size(rest[0]) > TOC_SIZE {
        } else {
            lemma_groups_first(cur.push(rest[0]), rest.drop_first());
        }
    }
}

/// One group in a row is that group.
pub proof fn lemma_flatten_one(a: Seq<Entry>)
    ensures
        seq![a].flatten() == a,
{
    let s = seq![a];
    assert(s.drop_first() =~= Seq::<Seq<Entry>>::empty());
    assert(s.drop_first().flatten() =~= Seq::<Entry>::empty());
    assert(s.flatten() =~= a + s.drop_first().flatten());
}

/// Groups in a row start with the first group.
pub proof fn lemma_flatten_cons(a: Seq<Entry>, rest: Seq<Seq<Entry>>)
    ensures
        (seq![a] + rest).flatten() == a + rest.flatten(),
{
    let s = seq![a] + rest;
    assert(s.drop_first() =~= rest);
    assert(s.first() == a);
}

/// Builds a block from the bytes of its entries and the offset of the block
/// that follows.
pub fn finish_block(body: Vec<u8>, next: u64) -> (block: Vec<u8>)
    requires
        body@.len() <= TOC_CAPACITY,
    ensures
        block@ == spec_u16_to_le_bytes((TOC_HEADER_SIZE + body@.len()) as u16)
            + spec_u64_to_le_bytes(next) + body@ + zeros((TOC_CAPACITY - body@.len()) as nat),
        block@.len() == TOC_SIZE,
{
    let filled: u16 = (TOC_HEADER_SIZE + body.len()) as u16;
    let mut block: Vec<u8> = u16_to_le_bytes(filled);
    let next_bytes = u64_to_le_bytes(next);
    block.extend_from_slice(next_bytes.as_slice());
    block.extend_from_slice(body.as_slice());
    let ghost head = block@;
    while block.len() < TOC_SIZE as usize
        invariant
            head.len() == TOC_HEADER_SIZE + body@.len(),
            head.len() <= block@.len() <= TOC_SIZE,
            block@ == head + zeros((block@.len() - head.len()) as nat),
        decreases TOC_SIZE - block@.len(),
    {
        block.push(0);
        assert(block@ =~= head + zeros((block@.len() - head.len()) as nat));
    }
    block
}

/// Builds the blocks of the table of contents for the entries of `offsets`,
/// in ascending order of offset; entries of one offset keep the order of the
/// name map. Each block starts with the count of its meaningful bytes
/// and the offset of the block after it, holds as many entries as fit, and is
/// padded with zeros to the size of a block. The blocks are meant to stand
/// one after another behind the file header; that is refused as invalid
/// input when the end of the last block would have no offset.
pub fn create_toc(offsets: &NameMap) -> (r: Result<Vec<Vec<u8>>, PackError>)
    requires
        entries_fit(offsets@),
    ensures
        toc_groups(by_offset(offsets@)).len() <= MAX_BLOCKS ==> (r matches Ok(blocks)
            && blocks_view(blocks@) == toc_blocks(toc_groups(by_offset(offsets@)))),
        toc_groups(by_offset(offsets@)).len() > MAX_BLOCKS ==> r == Err::<Vec<Vec<u8>>, PackError>(
            PackError::Io(IoErrorKind::InvalidInput),
        ),
{
    let n: usize = offsets.len();
    let order = offsets.offset_order();
    let ghost sorted = by_offset(offsets@);
    proof {
        lemma_by_offset(offsets@);
        assert forall|j: int| 0 <= j < sorted.len() implies entry_fits(#[trigger] sorted[j]) by {
            assert(offsets@.contains(sorted[j]));
            let m = choose|m: int| 0 <= m < offsets@.len() && offsets@[m] == sorted[j];
            assert(entry_fits(offsets@[m]));
        }
    }
    let mut res: Vec<Vec<u8>> = Vec::new();
    if n == 0 {
        assert(blocks_view(res@) =~= toc_blocks(toc_groups(sorted)));
        return Ok(res);
    }
    let mut body: Vec<u8> = Vec::new();
    let ghost mut done: Seq<Seq<Entry>> = Seq::empty();
    let ghost mut cur: Seq<Entry> = Seq::empty();
    let mut i: usize = 0;
    proof {
        assert(sorted.skip(0) =~= sorted);
        assert(done + groups_from(cur, sorted) =~= groups_from(cur, sorted));
    }
    while i < n
        invariant
            i <= n,
            n == sorted.len(),
            n == order@.len(),
            n == offsets@.len(),
            n > 0,
            entries_fit(sorted),
            sorted == in_order(offsets@, order@),
            sorted == by_offset(offsets@),
            forall|j: int| 0 <= j < order@.len() ==> (#[trigger] order@[j]) < offsets@.len(),
            toc_groups(sorted) == done + groups_from(cur, sorted.skip(i as int)),
            group_fits(cur),
            body@ == entries_bytes(cur),
            res@.len() == done.len(),
            forall|j: int|
                0 <= j < done.len() ==> (#[trigger] res@[j])@ == block_bytes(
                    done[j],
                    block_offset(j + 1) as u64,
                ),
            done.len() + 1 <= MAX_BLOCKS || done.len() == 0,
        decreases n - i,
    {
        let e = offsets.entry(order[i]);
        assert(e@ == sorted[i as int]);
        let ghost rest = sorted.skip(i as int);
        proof {
            assert(rest[0] == sorted[i as int]);
            assert(rest.drop_first() =~= sorted.skip(i + 1));
            assert(entry_fits(sorted[i as int]));
            lemma_entries_bytes_len(cur);
            assert forall|j: int| 0 <= j < rest.len() implies entry_fits(#[trigger] rest[j]) by {
                assert(rest[j] == sorted[i + j]);
            }
            lemma_groups_from(cur, rest);
        }
        let size: usize = ENTRY_FIXED_SIZE + e.name.as_str().as_bytes().len();
        if TOC_HEADER_SIZE + body.len() + size > TOC_SIZE as usize {
            let k: u64 = res.len() as u64;
            proof {
                lemma_entries_one(e@);
                assert forall|j: int| 0 <= j < rest.drop_first().len() implies entry_fits(
                    #[trigger] rest.drop_first()[j],
                ) by {
                    assert(rest.drop_first()[j] == rest[j + 1]);
                }
                lemma_groups_from(seq![e@], rest.drop_first());
            }
            if k + 1 >= MAX_BLOCKS {
                return Err(PackError::Io(IoErrorKind::InvalidInput));
            }
            let next: u64 = PACK_HEADER_SIZE + (TOC_SIZE as u64) * (k + 1);
            let block = finish_block(body, next);
            res.push(block);
            body = Vec::new();
            proof {
                assert(done + (seq![cur] + groups_from(seq![e@], rest.drop_first())) =~= done.push(
                    cur,
                ) + groups_from(seq![e@], rest.drop_first()));
                done = done.push(cur);
                cur = Seq::empty();
            }
        }
        write_entry(&mut body, e);
        proof {
            lemma_entries_push(cur, e@);
            assert(Seq::<Entry>::empty().push(e@) =~= seq![e@]);
            cur = cur.push(e@);
            lemma_entries_bytes_len(cur);
        }
        i = i + 1;
    }
    let k: u64 = res.len() as u64;
    proof {
        assert(sorted.skip(n as int) =~= Seq::<Entry>::empty());
        assert(done + seq![cur] =~= done.push(cur));
        lemma_entries_bytes_len(cur);
    }
    if k >= MAX_BLOCKS {
        return Err(PackError::Io(IoErrorKind::InvalidInput));
    }
    let block = finish_block(body, 0);
    res.push(block);
    proof {
        let groups = toc_groups(sorted);
        assert(groups == done.push(cur));
        assert forall|j: int| 0 <= j < groups.len() implies blocks_view(res@)[j] == toc_blocks(
            groups,
        )[j] by {
            if j < done.len() {
                assert(groups[j] == done[j]);
            }
        }
        assert(blocks_view(res@) =~= toc_blocks(groups));
    }
    Ok(res)
}

/// The magic as a sequence of bytes: ASCII "BACKPACK".
pub open spec fn magic() -> Seq<u8> {
    seq![66u8, 65u8, 67u8, 75u8, 80u8, 65u8, 67u8, 75u8]
}

/// The offset of the first block that the file header names: zero where the
/// table of contents is empty, else the size of the file header.
pub open spec fn first_toc(es: Seq<Entry>) -> u64 {
    if es.len() == 0 {
        0
    } else {
        PACK_HEADER_SIZE
    }
}

/// The file header: magic, version, payload size and the offset of the first
/// block, the integers little-endian.
pub open spec fn header_bytes(size: u64, first: u64) -> Seq<u8> {
    magic() + spec_u16_to_le_bytes(PACK_VERSION) + spec_u64_to_le_bytes(size)
        + spec_u64_to_le_bytes(first)
}

/// The table of contents for the entries, block after block.
pub open spec fn toc_bytes(es: Seq<Entry>) -> Seq<u8> {
    toc_blocks(toc_groups(es)).flatten()
}

/// Everything that stands before the payload: file header and table of contents.
pub open spec fn headers_bytes(size: u64, es: Seq<Entry>) -> Seq<u8> {
    header_bytes(size, first_toc(es)) + toc_bytes(es)
}

/// The file header has the size that the format gives it.
pub proof fn lemma_header_len(size: u64, first: u64)
    ensures
        header_bytes(size, first).len() == PACK_HEADER_SIZE,
{
    lemma_auto_spec_u16_to_from_le_bytes();
    lemma_auto_spec_u64_to_from_le_bytes();
}

/// A block has the size of a block.
pub proof fn lemma_block_len(group: Seq<Entry>, next: u64)
    requires
        group_fits(group),
    ensures
        block_bytes(group, next).len() == TOC_SIZE,
{
    lemma_auto_spec_u16_to_from_le_bytes();
    lemma_auto_spec_u64_to_from_le_bytes();
    lemma_entries_bytes_len(group);
}

/// Blocks of one size flatten to a sequence in which block `i` starts at
/// `i` times that size.
pub proof fn lemma_flatten_uniform(blocks: Seq<Seq<u8>>, size: nat)
    requires
        forall|i: int| 0 <= i < blocks.len() ==> (#[trigger] blocks[i]).len() == size,
    ensures
        blocks.flatten().len() == blocks.len() * size,
        forall|i: int|
            0 <= i < blocks.len() ==> #[trigger] blocks.flatten().subrange(
                i * size,
                i * size + size,
            ) == blocks[i],
    decreases blocks.len(),
{
    if blocks.len() == 0 {
    } else {
        let head = blocks.drop_last();
        let last = blocks.last();
        lemma_flatten_uniform(head, size);
        assert(head.push(last) =~= blocks);
        head.lemma_flatten_push(last);
        let flat = blocks.flatten();
        assert(flat =~= head.flatten() + last);
        assert(blocks.len() * size == head.len() * size + size) by (nonlinear_arith)
            requires
                blocks.len() == head.len() + 1,
        ;
        assert forall|i: int| 0 <= i < blocks.len() implies #[trigger] flat.subrange(
            i * size,
            i * size + size,
        ) == blocks[i] by {
            if i < head.len() {
                assert(i * size + size <= head.len() * size) by (nonlinear_arith)
                    requires
                        0 <= i < head.len(),
                ;
                assert(0 <= i * size) by (nonlinear_arith)
                    requires
                        0 <= i,
                ;
                assert(flat.subrange(i * size, i * size + size) =~= head.flatten().subrange(
                    i * size,
                    i * size + size,
                ));
                assert(head[i] == blocks[i]);
            } else {
                assert(flat.subrange(i * size, i * size + size) =~= last);
            }
        }
    }
}

/// The table of contents takes one block size for each group of entries.
pub proof fn lemma_toc_len(es: Seq<Entry>)
    requires
        entries_fit(es),
    ensures
        toc_bytes(es).len() == toc_groups(es).len() * TOC_SIZE,
        toc_groups(es).len() <= es.len(),
        es.len() > 0 ==> toc_groups(es).len() >= 1,
{
    let groups = toc_groups(es);
    let blocks = toc_blocks(groups);
    if es.len() > 0 {
        lemma_groups_from(Seq::<Entry>::empty(), es);
        lemma_groups_first(Seq::<Entry>::empty(), es);
        lemma_groups_count(Seq::<Entry>::empty(), es);
    }
    assert forall|i: int| 0 <= i < blocks.len() implies (#[trigger] blocks[i]).len()
        == TOC_SIZE as nat by {
        lemma_block_len(groups[i], next_of(i, groups.len() as int));
    }
    lemma_flatten_uniform(blocks, TOC_SIZE as nat);
}

/// A spread opens no more blocks than it has entries to place, beside the
/// block being filled; and no more than it has entries where that block is
/// still empty.
pub proof fn lemma_groups_count(cur: Seq<Entry>, rest: Seq<Entry>)
    requires
        entries_fit(rest),
    ensures
        groups_from(cur, rest).len() <= rest.len() + 1,
        cur.len() == 0 && rest.len() > 0 ==> groups_from(cur, rest).len() <= rest.len(),
    decreases rest.len(),
{
    if rest.len() > 0 {
        let e = rest[0];
        let tail = rest.drop_first();
        assert(entry_fits(e));
        assert forall|i: int| 0 <= i < tail.len() implies entry_fits(#[trigger] tail[i]) by {
            assert(tail[i] == rest[i + 1]);
        }
        if TOC_HEADER_SIZE + entries_size(cur) + entry_size(e) > TOC_SIZE {
            lemma_groups_count(seq![e], tail);
        } else {
            lemma_groups_count(cur.push(e), tail);
        }
    }
}

/// Writes the file header and the table of contents for `offsets`, its
/// entries in ascending order of offset, at the cursor of `f`. The header names `size` as the payload size and, as the
/// first block, zero where there are no entries and the size of the file
/// header otherwise. Nothing is written when the table cannot be laid out or
/// would end beyond the largest length of a byte vector.
pub fn write_headers(f: &mut InMemoryBuf, size: u64, offsets: &NameMap) -> (r: Result<
    (),
    PackError,
>)
    requires
        entries_fit(offsets@),
    ensures
        headers_fit(old(f).pos, by_offset(offsets@)) ==> (r is Ok && final(f).data@ == written(
            old(f).data@,
            old(f).pos as nat,
            headers_bytes(size, by_offset(offsets@)),
        ) && final(f).pos == old(f).pos + headers_bytes(size, by_offset(offsets@)).len()),
        !headers_fit(old(f).pos, by_offset(offsets@)) ==> (r == Err::<(), PackError>(
            PackError::Io(IoErrorKind::InvalidInput),
        ) && *final(f) == *old(f)),
{
    let ghost sorted = by_offset(offsets@);
    proof {
        lemma_by_offset(offsets@);
        assert forall|j: int| 0 <= j < sorted.len() implies entry_fits(#[trigger] sorted[j]) by {
            assert(offsets@.contains(sorted[j]));
            let m = choose|m: int| 0 <= m < offsets@.len() && offsets@[m] == sorted[j];
            assert(entry_fits(offsets@[m]));
        }
        lemma_toc_len(sorted);
        lemma_header_len(size, first_toc(sorted));
    }
    let toc_blocks_built = match create_toc(offsets) {
        Ok(blocks) => blocks,
        Err(e) => {
            return Err(PackError::Io(IoErrorKind::InvalidInput));
        },
    };
    let first: u64 = if toc_blocks_built.len() == 0 {
        0
    } else {
        PACK_HEADER_SIZE
    };
    let mut out: Vec<u8> = Vec::new();
    let magic_bytes = PACK_MAGIC;
    let mut m: usize = 0;
    while m < 8
        invariant
            m <= 8,
            magic_bytes == PACK_MAGIC,
            out@ == magic().take(m as int),
        decreases 8 - m,
    {
        out.push(magic_bytes[m]);
        assert(out@ =~= magic().take(m + 1));
        m = m + 1;
    }
    assert(magic().take(8) =~= magic());
    let version_bytes = u16_to_le_bytes(PACK_VERSION);
    let size_bytes = u64_to_le_bytes(size);
    let first_bytes = u64_to_le_bytes(first);
    out.extend_from_slice(version_bytes.as_slice());
    out.extend_from_slice(size_bytes.as_slice());
    out.extend_from_slice(first_bytes.as_slice());
    assert(out@ =~= header_bytes(size, first_toc(sorted)));
    let ghost blocks = toc_blocks(toc_groups(sorted));
    let mut j: usize = 0;
    proof {
        assert(blocks.take(0) =~= Seq::<Seq<u8>>::empty());
        assert(out@ =~= header_bytes(size, first_toc(sorted)) + blocks.take(0).flatten());
    }
    while j < toc_blocks_built.len()
        invariant
            j <= toc_blocks_built@.len(),
            blocks_view(toc_blocks_built@) == blocks,
            out@ == header_bytes(size, first_toc(sorted)) + blocks.take(j as int).flatten(),
        decreases toc_blocks_built@.len() - j,
    {
        out.extend_from_slice(toc_blocks_built[j].as_slice());
        proof {
            assert(blocks.take(j + 1) =~= blocks.take(j as int).push(blocks[j as int]));
            blocks.take(j as int).lemma_flatten_push(blocks[j as int]);
            assert(blocks[j as int] == toc_blocks_built@[j as int]@);
            assert(out@ =~= header_bytes(size, first_toc(sorted)) + blocks.take(
                j + 1,
            ).flatten());
        }
        j = j + 1;
    }
    assert(blocks.take(j as int) =~= blocks);
    match f.write(out.as_slice()) {
        Ok(_) => Ok(()),
        Err(e) => Err(PackError::Io(IoErrorKind::InvalidInput)),
    }
}

/// True when file header and table of contents can be written at `pos`: the
/// table can be laid out and ends within the largest length of a byte vector.
pub open spec fn headers_fit(pos: u64, es: Seq<Entry>) -> bool {
    toc_groups(es).len() <= MAX_BLOCKS && pos + PACK_HEADER_SIZE + toc_groups(es).len() * TOC_SIZE
        <= usize::MAX
}

} // verus!
