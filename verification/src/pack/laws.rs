use crate::error::PackError;
use crate::pack::buffer::remaining;
use crate::pack::image::archive_fits;
use crate::pack::image::archive_image;
use crate::pack::image::key_of;
use crate::pack::image::lemma_payload_part;
use crate::pack::image::lemma_relocated;
use crate::pack::image::payload;
use crate::pack::image::relocated;
use crate::pack::layout::ascending;
use crate::pack::layout::contiguous_blocks;
use crate::pack::layout::lemma_on_disk_offset_contiguous;
use crate::pack::layout::lemma_shifted_grows;
use crate::pack::layout::lemma_sorted_of_ascending;
use crate::pack::layout::on_disk_offset;
use crate::pack::layout::sorted;
use crate::pack::names::by_offset;
use crate::pack::names::distinct_names;
use crate::pack::names::Entry;
use crate::pack::names::lemma_by_offset;
use crate::pack::names::lemma_position;
use crate::pack::names::lemma_position_unique;
use crate::pack::names::lemma_put_all_fresh;
use crate::pack::names::lookup;
use crate::pack::names::position;
use crate::pack::names::put;
use crate::pack::names::put_all;
use crate::pack::PACK_HEADER_SIZE;
use crate::pack::PACK_VERSION;
use crate::pack::reader::install;
use crate::pack::reader::parse_headers_spec;
use crate::pack::reader::read_archive;
use crate::pack::reader::walk_chain;
use crate::pack::store::Buffers;
use crate::pack::store::SliceKey;
use crate::pack::toc::block_bytes;
use crate::pack::toc::block_offset;
use crate::pack::toc::entries_bytes;
use crate::pack::toc::entries_fit;
use crate::pack::toc::entries_size;
use crate::pack::toc::entry_fits;
use crate::pack::toc::first_toc;
use crate::pack::toc::group_fits;
use crate::pack::toc::header_bytes;
use crate::pack::toc::headers_bytes;
use crate::pack::toc::lemma_block_len;
use crate::pack::toc::lemma_entries_bytes_len;
use crate::pack::toc::lemma_flatten_uniform;
use crate::pack::toc::lemma_groups_from;
use crate::pack::toc::lemma_header_len;
use crate::pack::toc::lemma_parse_entries_bytes;
use crate::pack::toc::magic;
use crate::pack::toc::MAX_BLOCKS;
use crate::pack::toc::next_of;
use crate::pack::toc::parse_block_body;
use crate::pack::toc::toc_blocks;
use crate::pack::toc::toc_bytes;
use crate::pack::toc::toc_groups;
use crate::pack::toc::TOC_HEADER_SIZE;
use crate::pack::TOC_SIZE;
use vstd::bytes::*;
use vstd::prelude::*;

verus! {

/// True when the stream starts with the file `image`.
pub open spec fn starts_with(b: Seq<u8>, image: Seq<u8>) -> bool {
    image.len() <= b.len() && b.subrange(0, image.len() as int) == image
}

/// A stream written from its start starts with what was written.
pub proof fn lemma_written_starts(b: Seq<u8>, image: Seq<u8>)
    ensures
        starts_with(crate::pack::buffer::written(b, 0, image), image),
{
    let w = crate::pack::buffer::written(b, 0, image);
    assert(w.subrange(0, image.len() as int) =~= image);
}

/// The header of a file names zero as its first block exactly when the
/// table of contents has no entries, and the size of the file header
/// otherwise.
pub proof fn lemma_first_block(size: u64, es: Seq<Entry>)
    ensures
        headers_bytes(size, es).len() >= PACK_HEADER_SIZE,
        spec_u64_from_le_bytes(headers_bytes(size, es).subrange(18, 26)) == first_toc(es),
        first_toc(es) == (if es.len() == 0 {
            0u64
        } else {
            PACK_HEADER_SIZE
        }),
{
    lemma_auto_spec_u16_to_from_le_bytes();
    lemma_auto_spec_u64_to_from_le_bytes();
    let h = header_bytes(size, first_toc(es));
    assert(headers_bytes(size, es).subrange(18, 26) =~= spec_u64_to_le_bytes(first_toc(es)));
}

/// Where the parts of a table of contents stand: block `i` takes the bytes
/// from `i` block sizes on.
pub proof fn lemma_toc_layout(es: Seq<Entry>)
    requires
        entries_fit(es),
    ensures
        toc_bytes(es).len() == toc_groups(es).len() * TOC_SIZE,
        forall|i: int|
            0 <= i < toc_groups(es).len() ==> #[trigger] toc_bytes(es).subrange(
                i * TOC_SIZE,
                i * TOC_SIZE + TOC_SIZE,
            ) == block_bytes(toc_groups(es)[i], next_of(i, toc_groups(es).len() as int)),
        forall|i: int| 0 <= i < toc_groups(es).len() ==> group_fits(#[trigger] toc_groups(es)[i]),
        es.len() > 0 ==> toc_groups(es).flatten() == es,
        es.len() > 0 ==> toc_groups(es).len() >= 1,
        es.len() == 0 ==> toc_groups(es).len() == 0,
{
    let groups = toc_groups(es);
    let blocks = toc_blocks(groups);
    if es.len() > 0 {
        lemma_groups_from(Seq::<Entry>::empty(), es);
        assert(Seq::<Entry>::empty() + es =~= es);
    }
    assert forall|i: int| 0 <= i < blocks.len() implies (#[trigger] blocks[i]).len()
        == TOC_SIZE as nat by {
        lemma_block_len(groups[i], next_of(i, groups.len() as int));
    }
    lemma_flatten_uniform(blocks, TOC_SIZE as nat);
    assert forall|i: int| 0 <= i < groups.len() implies #[trigger] toc_bytes(es).subrange(
        i * TOC_SIZE,
        i * TOC_SIZE + TOC_SIZE,
    ) == block_bytes(groups[i], next_of(i, groups.len() as int)) by {
        assert(blocks.flatten().subrange(i * (TOC_SIZE as nat), i * (TOC_SIZE as nat) + (TOC_SIZE as nat))
            == blocks[i]);
    }
}

/// Recording one run of entries and then another is recording both in a row.
pub proof fn lemma_put_all_concat(names: Seq<Entry>, a: Seq<Entry>, b: Seq<Entry>)
    ensures
        put_all(put_all(names, a), b) == put_all(names, a + b),
    decreases a.len(),
{
    if a.len() == 0 {
        assert(a + b =~= b);
    } else {
        assert((a + b).drop_first() =~= a.drop_first() + b);
        assert((a + b)[0] == a[0]);
        lemma_put_all_concat(put(names, a[0]), a.drop_first(), b);
    }
}

/// The entries of the groups from group `j` on, in a row.
pub open spec fn entries_from(groups: Seq<Seq<Entry>>, j: int) -> Seq<Entry> {
    groups.skip(j).flatten()
}

/// The offsets of the blocks from block `j` up to block `count`.
pub open spec fn offsets_from(j: int, count: int) -> Seq<u64> {
    Seq::new((count - j) as nat, |i: int| block_offset(j + i) as u64)
}

/// True when the stream holds, behind the file header, the blocks of the
/// table of contents for the groups.
pub open spec fn holds_toc(b: Seq<u8>, groups: Seq<Seq<Entry>>) -> bool {
    &&& groups.len() <= MAX_BLOCKS
    &&& block_offset(groups.len() as int) <= b.len()
    &&& forall|i: int| 0 <= i < groups.len() ==> group_fits(#[trigger] groups[i])
    &&& forall|i: int| 0 <= i < groups.len() ==> entries_fit(#[trigger] groups[i])
    &&& forall|i: int|
        0 <= i < groups.len() ==> #[trigger] b.subrange(
            block_offset(i),
            block_offset(i) + TOC_SIZE,
        ) == block_bytes(groups[i], next_of(i, groups.len() as int))
}

/// Reading one block that was written gives its entries and the offset of
/// the block after it.
pub proof fn lemma_read_block(b: Seq<u8>, groups: Seq<Seq<Entry>>, j: int, names: Seq<Entry>)
    requires
        holds_toc(b, groups),
        0 <= j < groups.len(),
    ensures
        block_offset(j) + TOC_SIZE <= b.len(),
        spec_u16_from_le_bytes(b.subrange(block_offset(j), block_offset(j) + 2))
            == TOC_HEADER_SIZE + entries_size(groups[j]),
        spec_u64_from_le_bytes(b.subrange(block_offset(j) + 2, block_offset(j) + 10)) == next_of(
            j,
            groups.len() as int,
        ),
        parse_block_body(
            names,
            entries_size(groups[j]) as u16,
            b.subrange(block_offset(j) + 10, block_offset(j) + TOC_SIZE),
        ) == Ok::<Seq<Entry>, PackError>(put_all(names, groups[j])),
{
    lemma_auto_spec_u16_to_from_le_bytes();
    lemma_auto_spec_u64_to_from_le_bytes();
    let at = block_offset(j);
    let g = groups[j];
    let next = next_of(j, groups.len() as int);
    let block = b.subrange(at, at + TOC_SIZE);
    assert(group_fits(g));
    assert(entries_fit(g));
    assert(block == block_bytes(g, next));
    lemma_entries_bytes_len(g);
    lemma_block_len(g, next);
    assert(b.subrange(at, at + 2) =~= block.subrange(0, 2));
    assert(block.subrange(0, 2) =~= spec_u16_to_le_bytes((TOC_HEADER_SIZE + entries_size(g)) as u16));
    assert(b.subrange(at + 2, at + 10) =~= block.subrange(2, 10));
    assert(block.subrange(2, 10) =~= spec_u64_to_le_bytes(next));
    let body = b.subrange(at + 10, at + TOC_SIZE);
    assert(body =~= block.subrange(10, TOC_SIZE as int));
    assert(body.take(entries_size(g) as int) =~= entries_bytes(g));
    lemma_parse_entries_bytes(names, g);
}

/// Following the chain of blocks that were written, from block `j` on,
/// records the entries of those blocks in order and collects their offsets.
pub proof fn lemma_walk_written(
    b: Seq<u8>,
    groups: Seq<Seq<Entry>>,
    j: int,
    fuel: nat,
    names: Seq<Entry>,
    blocks: Seq<u64>,
)
    requires
        holds_toc(b, groups),
        0 <= j <= groups.len(),
        fuel >= groups.len() - j,
    ensures
        walk_chain(
            b,
            if j < groups.len() {
                block_offset(j) as u64
            } else {
                0
            },
            fuel,
            names,
            blocks,
        ) == Ok::<(Seq<Entry>, Seq<u64>), PackError>(
            (put_all(names, entries_from(groups, j)), blocks + offsets_from(j, groups.len() as int)),
        ),
    decreases groups.len() - j,
{
    let count = groups.len() as int;
    if j == count {
        assert(groups.skip(j) =~= Seq::<Seq<Entry>>::empty());
        assert(blocks + offsets_from(j, count) =~= blocks);
    } else {
        let at = block_offset(j) as u64;
        lemma_read_block(b, groups, j, names);
        let more = put_all(names, groups[j]);
        lemma_walk_written(b, groups, j + 1, (fuel - 1) as nat, more, blocks.push(at));
        assert(next_of(j, count) == (if j + 1 < count {
            block_offset(j + 1) as u64
        } else {
            0u64
        }));
        assert(groups.skip(j).first() == groups[j]);
        assert(groups.skip(j).drop_first() =~= groups.skip(j + 1));
        assert(entries_from(groups, j) == groups[j] + entries_from(groups, j + 1));
        lemma_put_all_concat(names, groups[j], entries_from(groups, j + 1));
        assert(blocks.push(at) + offsets_from(j + 1, count) =~= blocks + offsets_from(j, count));
        let filled = spec_u16_from_le_bytes(b.subrange(at as int, at + 2));
        assert(filled == TOC_HEADER_SIZE + entries_size(groups[j]));
        assert((filled - TOC_HEADER_SIZE) as u16 == entries_size(groups[j]) as u16);
    }
}

/// The parts of a written file, where they stand in a stream that starts
/// with it: the file header, the blocks of the table of contents one after
/// another, then the payload.
pub proof fn lemma_image_layout(es: Seq<Entry>, size: u64, payload_bytes: Seq<u8>, b: Seq<u8>)
    requires
        entries_fit(es),
        toc_groups(es).len() <= MAX_BLOCKS,
        starts_with(b, headers_bytes(size, es) + payload_bytes),
    ensures
        b.len() >= block_offset(toc_groups(es).len() as int) + payload_bytes.len(),
        starts_with(b, headers_bytes(size, es)),
        b.subrange(0, PACK_HEADER_SIZE as int) == header_bytes(size, first_toc(es)),
        holds_toc(b, toc_groups(es)),
        b.subrange(
            block_offset(toc_groups(es).len() as int),
            block_offset(toc_groups(es).len() as int) + payload_bytes.len(),
        ) == payload_bytes,
{
    let groups = toc_groups(es);
    let count = groups.len() as int;
    let head = header_bytes(size, first_toc(es));
    let toc = toc_bytes(es);
    let image = headers_bytes(size, es) + payload_bytes;
    lemma_header_len(size, first_toc(es));
    lemma_toc_layout(es);
    assert(image.len() == PACK_HEADER_SIZE + count * TOC_SIZE + payload_bytes.len());
    assert(b.subrange(0, headers_bytes(size, es).len() as int) =~= headers_bytes(size, es)) by {
        assert(b.subrange(0, headers_bytes(size, es).len() as int) =~= b.subrange(
            0,
            image.len() as int,
        ).subrange(0, headers_bytes(size, es).len() as int));
    }
    assert(b.subrange(0, PACK_HEADER_SIZE as int) =~= head) by {
        assert(b.subrange(0, PACK_HEADER_SIZE as int) =~= b.subrange(0, image.len() as int).subrange(
            0,
            PACK_HEADER_SIZE as int,
        ));
    }
    assert(b.subrange(block_offset(count), block_offset(count) + payload_bytes.len())
        =~= payload_bytes) by {
        assert(b.subrange(block_offset(count), block_offset(count) + payload_bytes.len())
            =~= b.subrange(0, image.len() as int).subrange(
            block_offset(count),
            block_offset(count) + payload_bytes.len(),
        ));
    }
    assert forall|i: int| 0 <= i < count implies #[trigger] b.subrange(
        block_offset(i),
        block_offset(i) + TOC_SIZE,
    ) == block_bytes(groups[i], next_of(i, count)) by {
        assert(i * TOC_SIZE + TOC_SIZE <= count * TOC_SIZE) by (nonlinear_arith)
            requires
                0 <= i < count,
        ;
        assert(b.subrange(block_offset(i), block_offset(i) + TOC_SIZE) =~= toc.subrange(
            i * TOC_SIZE,
            i * TOC_SIZE + TOC_SIZE,
        )) by {
            assert(b.subrange(block_offset(i), block_offset(i) + TOC_SIZE) =~= b.subrange(
                0,
                image.len() as int,
            ).subrange(block_offset(i), block_offset(i) + TOC_SIZE));
        }
    }
    assert forall|i: int| 0 <= i < count implies entries_fit(#[trigger] groups[i]) by {
        lemma_group_entries_fit(es, i);
    }
}

/// Every entry of a group of a spread is an entry that was to place.
pub proof fn lemma_group_entries_fit(es: Seq<Entry>, i: int)
    requires
        entries_fit(es),
        0 <= i < toc_groups(es).len(),
    ensures
        entries_fit(toc_groups(es)[i]),
{
    let groups = toc_groups(es);
    lemma_groups_from(Seq::<Entry>::empty(), es);
    assert(Seq::<Entry>::empty() + es =~= es);
    lemma_flatten_member(groups, i);
    assert forall|k: int| 0 <= k < groups[i].len() implies entry_fits(#[trigger] groups[i][k]) by {
        assert(groups.flatten().contains(groups[i][k]));
        let m = choose|m: int| 0 <= m < groups.flatten().len() && groups.flatten()[m] == groups[i][k];
        assert(entry_fits(es[m]));
    }
}

/// Every element of a group is an element of the groups in a row.
pub proof fn lemma_flatten_member(groups: Seq<Seq<Entry>>, i: int)
    requires
        0 <= i < groups.len(),
    ensures
        forall|k: int|
            0 <= k < groups[i].len() ==> groups.flatten().contains(#[trigger] groups[i][k]),
    decreases groups.len(),
{
    let flat = groups.flatten();
    let rest = groups.drop_first();
    assert(flat == groups.first() + rest.flatten());
    if i == 0 {
        assert forall|k: int| 0 <= k < groups[i].len() implies flat.contains(
            #[trigger] groups[i][k],
        ) by {
            assert(flat[k] == groups[0][k]);
        }
    } else {
        lemma_flatten_member(rest, i - 1);
        assert(rest[i - 1] == groups[i]);
        assert forall|k: int| 0 <= k < groups[i].len() implies flat.contains(
            #[trigger] groups[i][k],
        ) by {
            assert(rest.flatten().contains(rest[i - 1][k]));
            let m = choose|m: int|
                0 <= m < rest.flatten().len() && rest.flatten()[m] == rest[i - 1][k];
            assert(flat[groups.first().len() + m] == groups[i][k]);
        }
    }
}

/// The headers of a written file read back as the entries that were written,
/// in their order, and the offsets of the blocks one after another, whatever
/// the file header names as the size of the payload and whatever follows.
pub proof fn lemma_headers_round_trip(es: Seq<Entry>, size: u64, b: Seq<u8>)
    requires
        entries_fit(es),
        distinct_names(es),
        toc_groups(es).len() <= MAX_BLOCKS,
        starts_with(b, headers_bytes(size, es)),
    ensures
        parse_headers_spec(b) == Ok::<(Seq<Entry>, Seq<u64>), PackError>(
            (es, contiguous_blocks(toc_groups(es).len())),
        ),
{
    lemma_auto_spec_u16_to_from_le_bytes();
    lemma_auto_spec_u64_to_from_le_bytes();
    let groups = toc_groups(es);
    let count = groups.len() as int;
    let head = header_bytes(size, first_toc(es));
    assert(headers_bytes(size, es) + Seq::<u8>::empty() =~= headers_bytes(size, es));
    lemma_image_layout(es, size, Seq::<u8>::empty(), b);
    lemma_toc_layout(es);
    lemma_header_len(size, first_toc(es));
    let front = b.subrange(0, PACK_HEADER_SIZE as int);
    assert(b.subrange(0, 8) =~= front.subrange(0, 8));
    assert(front.subrange(0, 8) =~= magic());
    assert(b.subrange(8, 10) =~= front.subrange(8, 10));
    assert(front.subrange(8, 10) =~= spec_u16_to_le_bytes(PACK_VERSION));
    assert(b.subrange(18, 26) =~= front.subrange(18, 26));
    assert(front.subrange(18, 26) =~= spec_u64_to_le_bytes(first_toc(es)));
    let none = Seq::<Entry>::empty();
    let no_blocks = Seq::<u64>::empty();
    assert(count * TOC_SIZE >= count) by (nonlinear_arith)
        requires
            count >= 0,
    ;
    lemma_walk_written(b, groups, 0, b.len(), none, no_blocks);
    assert(groups.skip(0) =~= groups);
    assert(no_blocks + offsets_from(0, count) =~= contiguous_blocks(count as nat));
    if es.len() == 0 {
        assert(groups.flatten() =~= es);
    } else {
        assert(first_toc(es) == block_offset(0));
    }
    assert(none + es =~= es);
    lemma_put_all_fresh(none, es);
}

/// The table of contents of any name map reads back as that map. A stream
/// that starts with the file header and the table of contents written for
/// entries with distinct names gives, when its headers are read, the entries
/// in ascending order of offset, with the offset and length of every name as
/// they were, and the offsets of the blocks one after another; whatever the
/// file header names as the size of the payload.
pub proof fn lemma_table_round_trip(es: Seq<Entry>, size: u64, b: Seq<u8>)
    requires
        entries_fit(es),
        distinct_names(es),
        toc_groups(by_offset(es)).len() <= MAX_BLOCKS,
        starts_with(b, headers_bytes(size, by_offset(es))),
    ensures
        parse_headers_spec(b) == Ok::<(Seq<Entry>, Seq<u64>), PackError>(
            (by_offset(es), contiguous_blocks(toc_groups(by_offset(es)).len())),
        ),
        by_offset(es).len() == es.len(),
        forall|name: Seq<char>| lookup(by_offset(es), name) == lookup(es, name),
{
    let sorted = by_offset(es);
    lemma_by_offset(es);
    assert forall|j: int| 0 <= j < sorted.len() implies entry_fits(#[trigger] sorted[j]) by {
        assert(es.contains(sorted[j]));
        let m = choose|m: int| 0 <= m < es.len() && es[m] == sorted[j];
        assert(entry_fits(es[m]));
    }
    lemma_headers_round_trip(sorted, size, b);
    assert forall|name: Seq<char>| lookup(sorted, name) == lookup(es, name) by {
        lemma_position(es, name);
        lemma_position(sorted, name);
        let p = position(es, name);
        let q = position(sorted, name);
        if p < es.len() {
            assert(sorted.contains(es[p]));
            let k = choose|k: int| 0 <= k < sorted.len() && sorted[k] == es[p];
            lemma_position_unique(sorted, k);
        } else if q < sorted.len() {
            assert(es.contains(sorted[q]));
            let k = choose|k: int| 0 <= k < es.len() && es[k] == sorted[q];
            lemma_position_unique(es, k);
        }
    }
}

/// What reads the bytes of an entry: the place in the stream that its
/// offset converts to, and from there as many bytes as its length says.
pub open spec fn body_of(b: Seq<u8>, blocks: Seq<u64>, key: SliceKey) -> Seq<u8> {
    remaining(b, on_disk_offset(blocks, key.0) as u64).take(key.1 as int)
}

/// Reading the buffers of entries whose bytes lie within the stream
/// succeeds; afterwards every entry has its buffer, and every buffer holds
/// the bytes that its key points at.
pub proof fn lemma_install(
    b: Seq<u8>,
    blocks: Seq<u64>,
    names: Seq<Entry>,
    i: int,
    bufs: Buffers,
    keys: Seq<SliceKey>,
    total: nat,
    next: nat,
    room: nat,
)
    requires
        0 <= i <= names.len(),
        forall|j: int|
            0 <= j < names.len() ==> on_disk_offset(blocks, (#[trigger] names[j]).offset)
                + names[j].length <= b.len() && on_disk_offset(blocks, names[j].offset)
                <= u64::MAX,
        forall|k: SliceKey| bufs.contains_key(k) ==> bufs[k] == body_of(b, blocks, k),
        forall|j: int| 0 <= j < i ==> bufs.contains_key(key_of(#[trigger] names[j])),
        total + room <= usize::MAX,
        lengths_from(names, i) <= room,
    ensures
        install(b, blocks, names, i, bufs, keys, total, next) matches Ok(t) && (forall|j: int|
            0 <= j < names.len() ==> t.0.contains_key(key_of(#[trigger] names[j])) && t.0[key_of(
                names[j],
            )] == body_of(b, blocks, key_of(names[j]))),
    decreases names.len() - i,
{
    if i < names.len() {
        let e = names[i];
        let at = on_disk_offset(blocks, e.offset);
        lemma_shifted_grows(blocks, e.offset + PACK_HEADER_SIZE, 0);
        assert(at + e.length <= b.len());
        assert(e.length <= remaining(b, at as u64).len());
        if bufs.contains_key(key_of(e)) {
            lemma_install(b, blocks, names, i + 1, bufs, keys, total, next, room);
        } else {
            let more = bufs.insert(key_of(e), body_of(b, blocks, key_of(e)));
            lemma_install(
                b,
                blocks,
                names,
                i + 1,
                more,
                keys.push(key_of(e)),
                (total + e.length) as nat,
                if crate::pack::reader::behind(key_of(e)) > next {
                    crate::pack::reader::behind(key_of(e))
                } else {
                    next
                },
                (room - e.length) as nat,
            );
        }
    }
}

/// What reading the buffers counts. Where two entries have one key only if
/// the later one is empty, the byte count after reading is the byte count
/// before and the lengths of the entries read, added up.
pub proof fn lemma_install_total(
    b: Seq<u8>,
    blocks: Seq<u64>,
    names: Seq<Entry>,
    i: int,
    bufs: Buffers,
    keys: Seq<SliceKey>,
    total: nat,
    next: nat,
)
    requires
        0 <= i <= names.len(),
        install(b, blocks, names, i, bufs, keys, total, next) is Ok,
        forall|k: SliceKey|
            bufs.contains_key(k) ==> exists|j: int| 0 <= j < i && key_of(#[trigger] names[j]) == k,
        forall|x: int, y: int|
            0 <= x < y < names.len() && key_of(#[trigger] names[x]) == key_of(#[trigger] names[y])
                ==> names[y].length == 0,
    ensures
        install(b, blocks, names, i, bufs, keys, total, next)->Ok_0.2 == total + lengths_from(
            names,
            i,
        ),
    decreases names.len() - i,
{
    if i < names.len() {
        let e = names[i];
        let at = on_disk_offset(blocks, e.offset);
        if bufs.contains_key(key_of(e)) {
            let j = choose|j: int| 0 <= j < i && key_of(#[trigger] names[j]) == key_of(e);
            assert(key_of(names[j]) == key_of(names[i]));
            assert(e.length == 0);
            assert forall|k: SliceKey| bufs.contains_key(k) implies exists|j: int|
                0 <= j < i + 1 && key_of(#[trigger] names[j]) == k by {
                let j = choose|j: int| 0 <= j < i && key_of(#[trigger] names[j]) == k;
                assert(0 <= j < i + 1 && key_of(names[j]) == k);
            }
            lemma_install_total(b, blocks, names, i + 1, bufs, keys, total, next);
        } else {
            let more = bufs.insert(key_of(e), remaining(b, at as u64).take(e.length as int));
            let further = if crate::pack::reader::behind(key_of(e)) > next {
                crate::pack::reader::behind(key_of(e))
            } else {
                next
            };
            assert forall|k: SliceKey| more.contains_key(k) implies exists|j: int|
                0 <= j < i + 1 && key_of(#[trigger] names[j]) == k by {
                if k == key_of(e) {
                    assert(0 <= i < i + 1 && key_of(names[i]) == k);
                } else {
                    let j = choose|j: int| 0 <= j < i && key_of(#[trigger] names[j]) == k;
                    assert(0 <= j < i + 1 && key_of(names[j]) == k);
                }
            }
            lemma_install_total(
                b,
                blocks,
                names,
                i + 1,
                more,
                keys.push(key_of(e)),
                (total + e.length) as nat,
                further,
            );
        }
    }
}

/// In a table of contents as a flush builds it, two entries have one key
/// only if both are empty.
pub proof fn lemma_relocated_keys(es: Seq<Entry>, bufs: Buffers, x: int, y: int)
    requires
        0 <= x < y < es.len(),
        payload(es, bufs).len() <= u64::MAX,
        key_of(relocated(es, bufs)[x]) == key_of(relocated(es, bufs)[y]),
    ensures
        relocated(es, bufs)[y].length == 0,
{
    lemma_relocated(es, bufs);
    crate::pack::image::lemma_payload_grows(es, bufs, x + 1, y);
    crate::pack::image::lemma_payload_grows(es, bufs, y, es.len() as int);
    assert(es.take(es.len() as int) =~= es);
    assert(es.take(x + 1).drop_last() =~= es.take(x));
    assert(es.take(x + 1).last() == es[x]);
}

/// The lengths of the entries from index `i` on, added up.
pub open spec fn lengths_from(names: Seq<Entry>, i: int) -> nat
    decreases names.len() - i,
{
    if i < 0 || i >= names.len() {
        0
    } else {
        names[i].length as nat + lengths_from(names, i + 1)
    }
}

/// The lengths that a table of contents records from entry `i` on make up
/// the payload behind the place where entry `i` starts.
pub proof fn lemma_lengths(es: Seq<Entry>, bufs: Buffers, i: int)
    requires
        0 <= i <= es.len(),
        payload(es, bufs).len() <= u64::MAX,
    ensures
        lengths_from(relocated(es, bufs), i) + payload(es.take(i), bufs).len() == payload(
            es,
            bufs,
        ).len(),
    decreases es.len() - i,
{
    lemma_relocated(es, bufs);
    if i == es.len() {
        assert(es.take(i) =~= es);
    } else {
        lemma_lengths(es, bufs, i + 1);
        lemma_payload_part(es, bufs, i);
        assert(es.take(i + 1).drop_last() =~= es.take(i));
        assert(es.take(i + 1).last() == es[i]);
    }
}

/// The offsets of blocks that stand one after another are ascending.
pub proof fn lemma_contiguous_ascending(count: nat)
    requires
        count <= MAX_BLOCKS,
    ensures
        ascending(contiguous_blocks(count)),
        sorted(contiguous_blocks(count)) == contiguous_blocks(count),
{
    let blocks = contiguous_blocks(count);
    assert forall|i: int, j: int| 0 <= i <= j < blocks.len() implies blocks[i] <= blocks[j] by {
        assert(block_offset(i) <= block_offset(j));
        assert(block_offset(j) <= u64::MAX);
    }
    lemma_sorted_of_ascending(blocks);
}

/// Where the bytes of an entry stand after a flush. In a stream that starts
/// with the file written for entries and their buffers, the offset that the
/// table of contents records for entry `i` converts, over the offsets of the
/// blocks that were written, to the place where the bytes of the entry begin:
/// right behind the last block, as far into the payload as the entries before
/// it are long.
pub proof fn lemma_entry_position(es: Seq<Entry>, bufs: Buffers, b: Seq<u8>, i: int)
    requires
        entries_fit(es),
        archive_fits(es, bufs),
        starts_with(b, archive_image(es, bufs)),
        0 <= i < es.len(),
    ensures
        ({
            let table = relocated(es, bufs);
            let blocks = contiguous_blocks(toc_groups(table).len());
            let at = on_disk_offset(blocks, table[i].offset);
            &&& table.len() == es.len()
            &&& at == block_offset(toc_groups(table).len() as int) + payload(es.take(i), bufs).len()
            &&& at + table[i].length <= b.len()
            &&& at <= u64::MAX
            &&& table[i].length == bufs[key_of(es[i])].len()
            &&& b.subrange(at, at + table[i].length) == bufs[key_of(es[i])]
            &&& body_of(b, blocks, key_of(table[i])) == bufs[key_of(es[i])]
        }),
{
    let r = relocated(es, bufs);
    let data = payload(es, bufs);
    let count = toc_groups(r).len();
    let blocks = contiguous_blocks(count);
    lemma_relocated(es, bufs);
    lemma_image_layout(r, data.len() as u64, data, b);
    let start = block_offset(count as int);
    lemma_payload_part(es, bufs, i);
    lemma_on_disk_offset_contiguous(count, r[i].offset);
    let off = payload(es.take(i), bufs).len() as int;
    let len = bufs[key_of(es[i])].len() as int;
    assert(r[i].offset == off);
    assert(r[i].length == len);
    let at = start + off;
    assert(remaining(b, at as u64).take(len) =~= b.subrange(at, at + len));
    assert(b.subrange(at, at + len) =~= b.subrange(start, start + data.len()).subrange(
        off,
        off + len,
    ));
}

/// The round trip: a stream that starts with the file written for entries
/// and their buffers opens to the same names in the same order, each with
/// the bytes that its buffer held when the file was written; and the byte
/// count is the number of those bytes, added up over the names.
pub proof fn lemma_round_trip(es: Seq<Entry>, bufs: Buffers, b: Seq<u8>)
    requires
        distinct_names(es),
        entries_fit(es),
        forall|i: int| 0 <= i < es.len() ==> bufs.contains_key(key_of(#[trigger] es[i])),
        archive_fits(es, bufs),
        starts_with(b, archive_image(es, bufs)),
    ensures
        read_archive(b) matches Ok(a) && a.names.len() == es.len() && (forall|i: int|
            0 <= i < es.len() ==> (#[trigger] a.names[i]).name == es[i].name
                && a.buffers.contains_key(key_of(a.names[i])) && a.buffers[key_of(a.names[i])]
                == bufs[key_of(es[i])]) && a.total == payload(es, bufs).len(),
{
    let r = relocated(es, bufs);
    let data = payload(es, bufs);
    let count = toc_groups(r).len();
    let blocks = contiguous_blocks(count);
    lemma_relocated(es, bufs);
    lemma_image_layout(r, data.len() as u64, data, b);
    lemma_headers_round_trip(r, data.len() as u64, b);
    lemma_contiguous_ascending(count);
    assert forall|j: int| 0 <= j < r.len() implies on_disk_offset(blocks, (#[trigger] r[j]).offset)
        + r[j].length <= b.len() && on_disk_offset(blocks, r[j].offset) <= u64::MAX
        && body_of(b, blocks, key_of(r[j])) == bufs[key_of(es[j])] by {
        lemma_entry_position(es, bufs, b, j);
    }
    lemma_lengths(es, bufs, 0);
    assert(es.take(0) =~= Seq::<Entry>::empty());
    lemma_install(
        b,
        blocks,
        r,
        0,
        Buffers::empty(),
        Seq::<SliceKey>::empty(),
        0,
        0,
        data.len(),
    );
    assert forall|x: int, y: int|
        0 <= x < y < r.len() && key_of(#[trigger] r[x]) == key_of(#[trigger] r[y]) implies r[y].length
        == 0 by {
        lemma_relocated_keys(es, bufs, x, y);
    }
    lemma_install_total(b, blocks, r, 0, Buffers::empty(), Seq::<SliceKey>::empty(), 0, 0);
}

} // verus!
