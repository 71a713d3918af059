use crate::error::IoErrorKind;
use crate::error::PackError;
use crate::pack::buffer::InMemoryBuf;
use crate::pack::buffer::written;
use crate::pack::names::ascending_offsets;
use crate::pack::names::by_offset;
use crate::pack::names::distinct_names;
use crate::pack::names::Entry;
use crate::pack::names::has_name;
use crate::pack::names::lemma_by_offset;
use crate::pack::names::lemma_by_offset_of_ascending;
use crate::pack::names::lemma_position;
use crate::pack::names::NameMap;
use crate::pack::PACK_HEADER_SIZE;
use crate::pack::store::Buffers;
use crate::pack::store::SliceKey;
use crate::pack::toc::entries_fit;
use crate::pack::toc::entry_fits;
use crate::pack::toc::first_toc;
use crate::pack::toc::headers_bytes;
use crate::pack::toc::headers_fit;
use crate::pack::toc::lemma_header_len;
use crate::pack::toc::lemma_toc_len;
use crate::pack::toc::toc_groups;
use crate::pack::toc::write_headers;
use crate::pack::TOC_SIZE;
use vstd::prelude::*;

verus! {

/// The key of the buffer that an entry names.
pub open spec fn key_of(e: Entry) -> SliceKey {
    (e.offset, e.length)
}

/// The entries whose names are not scheduled for removal, in their order.
pub open spec fn survivors(names: Seq<Entry>, removed: Set<Seq<char>>) -> Seq<Entry>
    decreases names.len(),
{
    if names.len() == 0 {
        names
    } else {
        let rest = survivors(names.drop_last(), removed);
        if removed.contains(names.last().name) {
            rest
        } else {
            rest.push(names.last())
        }
    }
}

/// The payload of a file: the buffers of the entries one after another.
pub open spec fn payload(es: Seq<Entry>, bufs: Buffers) -> Seq<u8>
    decreases es.len(),
{
    if es.len() == 0 {
        Seq::<u8>::empty()
    } else {
        payload(es.drop_last(), bufs) + bufs[key_of(es.last())]
    }
}

/// The entries as a table of contents records them: each name with the
/// place of its bytes in the payload and the number of bytes that the buffer
/// holds now.
pub open spec fn relocated(es: Seq<Entry>, bufs: Buffers) -> Seq<Entry>
    decreases es.len(),
{
    if es.len() == 0 {
        Seq::<Entry>::empty()
    } else {
        relocated(es.drop_last(), bufs).push(
            Entry {
                name: es.last().name,
                offset: payload(es.drop_last(), bufs).len() as u64,
                length: bufs[key_of(es.last())].len() as u64,
            },
        )
    }
}

/// The file that holds the entries with their buffers: file header, table
/// of contents, payload.
pub open spec fn archive_image(es: Seq<Entry>, bufs: Buffers) -> Seq<u8> {
    headers_bytes(payload(es, bufs).len() as u64, relocated(es, bufs)) + payload(es, bufs)
}

/// True when the file for the entries can be written from the start of a
/// stream: the table of contents can be laid out, and the file is no longer
/// than a byte vector can be.
pub open spec fn archive_fits(es: Seq<Entry>, bufs: Buffers) -> bool {
    image_fits(relocated(es, bufs), payload(es, bufs).len())
}

/// A name is among the entries exactly when some entry carries it.
pub proof fn lemma_has_name(s: Seq<Entry>, name: Seq<char>)
    ensures
        has_name(s, name) <==> exists|i: int| 0 <= i < s.len() && (#[trigger] s[i]).name == name,
{
    lemma_position(s, name);
    if has_name(s, name) {
        assert(s[crate::pack::names::position(s, name)].name == name);
    }
}

/// The survivors are the entries that are not scheduled for removal: the
/// same names but those, with what stood beside them.
pub proof fn lemma_survivors(names: Seq<Entry>, removed: Set<Seq<char>>)
    ensures
        survivors(names, removed).len() <= names.len(),
        forall|j: int|
            0 <= j < survivors(names, removed).len() ==> !removed.contains(
                (#[trigger] survivors(names, removed)[j]).name,
            ) && exists|i: int| 0 <= i < names.len() && names[i] == survivors(names, removed)[j],
        forall|i: int|
            0 <= i < names.len() && !removed.contains((#[trigger] names[i]).name) ==> exists|j: int|
                0 <= j < survivors(names, removed).len() && survivors(names, removed)[j]
                    == names[i],
        distinct_names(names) ==> distinct_names(survivors(names, removed)),
        entries_fit(names) ==> entries_fit(survivors(names, removed)),
    decreases names.len(),
{
    let s = survivors(names, removed);
    if names.len() > 0 {
        let head = names.drop_last();
        let rest = survivors(head, removed);
        lemma_survivors(head, removed);
        assert forall|j: int| 0 <= j < s.len() implies !removed.contains((#[trigger] s[j]).name)
            && exists|i: int| 0 <= i < names.len() && names[i] == s[j] by {
            if j < rest.len() {
                assert(s[j] == rest[j]);
                let i = choose|i: int| 0 <= i < head.len() && head[i] == rest[j];
                assert(names[i] == s[j]);
            } else {
                assert(names[names.len() - 1] == s[j]);
            }
        }
        assert forall|i: int|
            0 <= i < names.len() && !removed.contains((#[trigger] names[i]).name) implies exists|
            j: int,
        | 0 <= j < s.len() && s[j] == names[i] by {
            if i < head.len() {
                assert(head[i] == names[i]);
                let j = choose|j: int| 0 <= j < rest.len() && rest[j] == head[i];
                assert(s[j] == names[i]);
            } else {
                assert(s[s.len() - 1] == names[i]);
            }
        }
        if distinct_names(names) {
            assert(distinct_names(head)) by {
                assert forall|i: int, j: int| 0 <= i < j < head.len() implies (#[trigger] head[i]).name
                    != (#[trigger] head[j]).name by {
                    assert(head[i] == names[i] && head[j] == names[j]);
                }
            }
            assert forall|a: int, b: int| 0 <= a < b < s.len() implies (#[trigger] s[a]).name != (
            #[trigger] s[b]).name by {
                if b < rest.len() {
                    assert(s[a] == rest[a] && s[b] == rest[b]);
                } else {
                    assert(s[a] == rest[a]);
                    let i = choose|i: int| 0 <= i < head.len() && head[i] == rest[a];
                    assert(names[i] == head[i]);
                    assert(names[i].name != names[names.len() - 1].name);
                }
            }
        }
        if entries_fit(names) {
            assert forall|j: int| 0 <= j < s.len() implies entry_fits(#[trigger] s[j]) by {
                let i = choose|i: int| 0 <= i < names.len() && names[i] == s[j];
                assert(entry_fits(names[i]));
            }
        }
    }
}

/// With nothing scheduled for removal every entry survives.
pub proof fn lemma_survivors_all(names: Seq<Entry>)
    ensures
        survivors(names, Set::<Seq<char>>::empty()) == names,
    decreases names.len(),
{
    if names.len() > 0 {
        lemma_survivors_all(names.drop_last());
        assert(names.drop_last().push(names.last()) =~= names);
    }
}

/// The table of contents records every entry under its own name, in the
/// same order, at the place where its bytes start in the payload.
pub proof fn lemma_relocated(es: Seq<Entry>, bufs: Buffers)
    ensures
        relocated(es, bufs).len() == es.len(),
        forall|i: int|
            0 <= i < es.len() ==> (#[trigger] relocated(es, bufs)[i]).name == es[i].name
                && relocated(es, bufs)[i].offset == payload(es.take(i), bufs).len() as u64
                && relocated(es, bufs)[i].length == bufs[key_of(es[i])].len() as u64,
        distinct_names(es) ==> distinct_names(relocated(es, bufs)),
        entries_fit(es) ==> entries_fit(relocated(es, bufs)),
    decreases es.len(),
{
    let r = relocated(es, bufs);
    if es.len() > 0 {
        let head = es.drop_last();
        lemma_relocated(head, bufs);
        assert forall|i: int| 0 <= i < es.len() implies (#[trigger] r[i]).name == es[i].name
            && r[i].offset == payload(es.take(i), bufs).len() as u64 && r[i].length
            == bufs[key_of(es[i])].len() as u64 by {
            if i < head.len() {
                assert(r[i] == relocated(head, bufs)[i]);
                assert(head[i] == es[i]);
                assert(head.take(i) =~= es.take(i));
            } else {
                assert(es.take(i) =~= head);
            }
        }
        if distinct_names(es) {
            assert forall|a: int, b: int| 0 <= a < b < r.len() implies (#[trigger] r[a]).name != (
            #[trigger] r[b]).name by {
                assert(es[a].name != es[b].name);
            }
        }
        if entries_fit(es) {
            assert forall|i: int| 0 <= i < r.len() implies entry_fits(#[trigger] r[i]) by {
                assert(entry_fits(es[i]));
            }
        }
    }
}

/// The payload of the first entries is the front of the payload of all.
pub proof fn lemma_payload_grows(es: Seq<Entry>, bufs: Buffers, i: int, j: int)
    requires
        0 <= i <= j <= es.len(),
    ensures
        payload(es.take(i), bufs).len() <= payload(es.take(j), bufs).len(),
    decreases j - i,
{
    if i < j {
        lemma_payload_grows(es, bufs, i, j - 1);
        assert(es.take(j).drop_last() =~= es.take(j - 1));
    }
}

/// A table of contents lists its entries in ascending order of offset.
pub proof fn lemma_relocated_ascending(es: Seq<Entry>, bufs: Buffers, i: int, j: int)
    requires
        0 <= i <= j < es.len(),
        payload(es, bufs).len() <= u64::MAX,
    ensures
        relocated(es, bufs)[i].offset <= relocated(es, bufs)[j].offset,
{
    lemma_relocated(es, bufs);
    lemma_payload_grows(es, bufs, i, j);
    lemma_payload_grows(es, bufs, j, es.len() as int);
    assert(es.take(es.len() as int) =~= es);
}

/// A table of contents as a flush builds it is in ascending order of offset
/// already: ordering it by offset changes nothing.
pub proof fn lemma_relocated_in_order(es: Seq<Entry>, bufs: Buffers)
    requires
        payload(es, bufs).len() <= u64::MAX,
    ensures
        ascending_offsets(relocated(es, bufs)),
        by_offset(relocated(es, bufs)) == relocated(es, bufs),
{
    let r = relocated(es, bufs);
    lemma_relocated(es, bufs);
    assert forall|i: int, j: int| 0 <= i <= j < r.len() implies (#[trigger] r[i]).offset <= (
    #[trigger] r[j]).offset by {
        lemma_relocated_ascending(es, bufs, i, j);
    }
    lemma_by_offset_of_ascending(r);
}

/// The payload grows with the entries: the bytes of entry `i` stand in it
/// from the end of the payload of the entries before.
pub proof fn lemma_payload_part(es: Seq<Entry>, bufs: Buffers, i: int)
    requires
        0 <= i < es.len(),
    ensures
        payload(es.take(i), bufs).len() + bufs[key_of(es[i])].len() <= payload(es, bufs).len(),
        payload(es, bufs).subrange(
            payload(es.take(i), bufs).len() as int,
            (payload(es.take(i), bufs).len() + bufs[key_of(es[i])].len()) as int,
        ) == bufs[key_of(es[i])],
    decreases es.len(),
{
    let head = es.drop_last();
    if i == es.len() - 1 {
        assert(es.take(i) =~= head);
        assert(payload(es, bufs).subrange(
            payload(head, bufs).len() as int,
            (payload(head, bufs).len() + bufs[key_of(es[i])].len()) as int,
        ) =~= bufs[key_of(es[i])]);
    } else {
        lemma_payload_part(head, bufs, i);
        assert(head.take(i) =~= es.take(i));
        assert(head[i] == es[i]);
        let a = payload(es.take(i), bufs).len() as int;
        let n = bufs[key_of(es[i])].len();
        assert(payload(es, bufs).subrange(a, a + n) =~= payload(head, bufs).subrange(a, a + n));
    }
}

/// Writing first one piece and then another behind it is writing both at once.
pub proof fn lemma_written_twice(bytes: Seq<u8>, pos: nat, a: Seq<u8>, b: Seq<u8>)
    ensures
        written(written(bytes, pos, a), (pos + a.len()) as nat, b) == written(bytes, pos, a + b),
{
    assert(written(written(bytes, pos, a), (pos + a.len()) as nat, b) =~= written(bytes, pos, a + b));
}

/// True when file header, table of contents for `es` and a payload of
/// `size` bytes can be written from the start of a stream.
pub open spec fn image_fits(es: Seq<Entry>, size: nat) -> bool {
    headers_fit(0, es) && PACK_HEADER_SIZE + toc_groups(es).len() * TOC_SIZE + size <= usize::MAX
}

/// Writes a whole file from the start of the stream: the file header, the
/// table of contents for `offsets` in ascending order of offset, then `data`
/// as the payload. A file that
/// is too large to be written is refused as invalid input, and the stream is
/// then in no particular state.
pub fn write_archive(c: &mut InMemoryBuf, offsets: &NameMap, data: &Vec<u8>) -> (r: Result<
    (),
    PackError,
>)
    requires
        entries_fit(offsets@),
    ensures
        image_fits(by_offset(offsets@), data@.len()) ==> (r is Ok && final(c).data@ == written(
            old(c).data@,
            0,
            headers_bytes(data@.len() as u64, by_offset(offsets@)) + data@,
        ) && final(c).pos == (headers_bytes(data@.len() as u64, by_offset(offsets@))
            + data@).len()),
        !image_fits(by_offset(offsets@), data@.len()) ==> (r matches Err(e) && e == PackError::Io(
            IoErrorKind::InvalidInput,
        )),
{
    let size: u64 = data.len() as u64;
    let ghost before = c.data@;
    let ghost sorted = by_offset(offsets@);
    let ghost head = headers_bytes(size, sorted);
    proof {
        lemma_by_offset(offsets@);
        assert forall|j: int| 0 <= j < sorted.len() implies entry_fits(#[trigger] sorted[j]) by {
            assert(offsets@.contains(sorted[j]));
            let m = choose|m: int| 0 <= m < offsets@.len() && offsets@[m] == sorted[j];
            assert(entry_fits(offsets@[m]));
        }
        lemma_toc_len(sorted);
        lemma_header_len(size, first_toc(sorted));
    }
    c.set_position(0);
    match write_headers(c, size, offsets) {
        Ok(_) => {},
        Err(_) => {
            return Err(PackError::Io(IoErrorKind::InvalidInput));
        },
    }
    match c.write(data.as_slice()) {
        Ok(_) => {},
        Err(_) => {
            return Err(PackError::Io(IoErrorKind::InvalidInput));
        },
    }
    proof {
        lemma_written_twice(before, 0, head, data@);
    }
    Ok(())
}

} // verus!
