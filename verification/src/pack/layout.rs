use crate::pack::PACK_HEADER_SIZE;
use crate::pack::toc::block_offset;
use crate::pack::TOC_SIZE;
use vstd::prelude::*;

verus! {

/// Walks the blocks in order with a running offset: each block that stands
/// at or before the running offset pushes it back by the size of a block.
pub open spec fn shifted(blocks: Seq<u64>, offset: int) -> int
    decreases blocks.len(),
{
    if blocks.len() == 0 {
        offset
    } else {
        let o = shifted(blocks.drop_last(), offset);
        if blocks.last() <= o {
            o + TOC_SIZE
        } else {
            o
        }
    }
}

/// The offset in the file of the byte at `offset` of the payload: the size
/// of the file header is added, and then the size of a block for each block
/// of the table of contents that stands at or before the offset reached so
/// far, the blocks taken in ascending order.
pub open spec fn on_disk_offset(blocks: Seq<u64>, offset: u64) -> int {
    shifted(blocks, offset + PACK_HEADER_SIZE)
}

/// The offsets of `count` blocks that stand one after another behind the
/// file header.
pub open spec fn contiguous_blocks(count: nat) -> Seq<u64> {
    Seq::new(count, |i: int| block_offset(i) as u64)
}

/// The running offset never moves forward.
pub proof fn lemma_shifted_grows(blocks: Seq<u64>, offset: int, n: int)
    requires
        0 <= n <= blocks.len(),
    ensures
        offset <= shifted(blocks.take(n), offset) <= shifted(blocks, offset),
        shifted(blocks, offset) <= offset + blocks.len() * TOC_SIZE,
    decreases blocks.len(),
{
    if blocks.len() == 0 {
        assert(blocks.take(n) =~= blocks);
    } else if n == blocks.len() {
        assert(blocks.take(n) =~= blocks);
        lemma_shifted_grows(blocks.drop_last(), offset, n - 1);
    } else {
        assert(blocks.drop_last().take(n) =~= blocks.take(n));
        lemma_shifted_grows(blocks.drop_last(), offset, n);
    }
}

/// A later place in the payload does not come earlier in the file.
pub proof fn lemma_shifted_monotonic(blocks: Seq<u64>, a: int, b: int)
    requires
        a <= b,
    ensures
        shifted(blocks, a) <= shifted(blocks, b),
    decreases blocks.len(),
{
    if blocks.len() > 0 {
        lemma_shifted_monotonic(blocks.drop_last(), a, b);
    }
}

/// `on_disk_offset` is monotonic in the payload offset, whatever the blocks.
pub proof fn lemma_on_disk_offset_monotonic(blocks: Seq<u64>, a: u64, b: u64)
    requires
        a <= b,
    ensures
        on_disk_offset(blocks, a) <= on_disk_offset(blocks, b),
{
    lemma_shifted_monotonic(blocks, a + PACK_HEADER_SIZE, b + PACK_HEADER_SIZE);
}

/// Behind a table of contents whose blocks stand one after another behind
/// the file header, the payload starts right after the last block:
/// `on_disk_offset` gives the place where the byte really is.
pub proof fn lemma_on_disk_offset_contiguous(count: nat, offset: u64)
    requires
        block_offset(count as int) <= u64::MAX,
    ensures
        on_disk_offset(contiguous_blocks(count), offset) == block_offset(count as int) + offset,
    decreases count,
{
    let blocks = contiguous_blocks(count);
    if count > 0 {
        let fewer = contiguous_blocks((count - 1) as nat);
        assert(blocks.drop_last() =~= fewer);
        lemma_on_disk_offset_contiguous((count - 1) as nat, offset);
        assert(blocks.last() == block_offset(count - 1) as u64);
    }
}

/// Converts an offset in the payload to the offset in the file, given the
/// offsets of the blocks of the table of contents in ascending order. `None`
/// when the offset in the file would exceed a u64.
pub fn convert_offset(sorted_toc_block_locations: &Vec<u64>, offset: u64) -> (r: Option<u64>)
    ensures
        on_disk_offset(sorted_toc_block_locations@, offset) <= u64::MAX ==> r == Some(
            on_disk_offset(sorted_toc_block_locations@, offset) as u64,
        ),
        on_disk_offset(sorted_toc_block_locations@, offset) > u64::MAX ==> r is None,
{
    let ghost blocks = sorted_toc_block_locations@;
    let ghost start = offset + PACK_HEADER_SIZE;
    if offset > u64::MAX - PACK_HEADER_SIZE {
        proof {
            lemma_shifted_grows(blocks, start, 0);
        }
        return None;
    }
    let mut o: u64 = offset + PACK_HEADER_SIZE;
    let mut i: usize = 0;
    assert(blocks.take(0) =~= Seq::<u64>::empty());
    while i < sorted_toc_block_locations.len()
        invariant
            i <= blocks.len(),
            blocks == sorted_toc_block_locations@,
            start == offset + PACK_HEADER_SIZE,
            o == shifted(blocks.take(i as int), start),
        decreases blocks.len() - i,
    {
        proof {
            assert(blocks.take(i + 1).drop_last() =~= blocks.take(i as int));
            assert(blocks.take(i + 1).last() == blocks[i as int]);
        }
        if sorted_toc_block_locations[i] <= o {
            if o > u64::MAX - TOC_SIZE as u64 {
                proof {
                    lemma_shifted_grows(blocks, start, i + 1);
                }
                return None;
            }
            o = o + TOC_SIZE as u64;
        }
        i = i + 1;
    }
    assert(blocks.take(i as int) =~= blocks);
    Some(o)
}

/// The sequence with `x` put in behind the last element that is not greater.
pub open spec fn insert_sorted(s: Seq<u64>, x: u64) -> Seq<u64>
    decreases s.len(),
{
    if s.len() == 0 {
        seq![x]
    } else if s.last() <= x {
        s.push(x)
    } else {
        insert_sorted(s.drop_last(), x).push(s.last())
    }
}

/// The elements in ascending order.
pub open spec fn sorted(s: Seq<u64>) -> Seq<u64>
    decreases s.len(),
{
    if s.len() == 0 {
        s
    } else {
        insert_sorted(sorted(s.drop_last()), s.last())
    }
}

/// No element is greater than a later one.
pub open spec fn ascending(s: Seq<u64>) -> bool {
    forall|i: int, j: int| 0 <= i <= j < s.len() ==> s[i] <= s[j]
}

/// Where `x` goes: everything from `p` on is greater, and what stands before
/// `p` ends with an element that is not.
pub proof fn lemma_insert_sorted_at(s: Seq<u64>, x: u64, p: int)
    requires
        0 <= p <= s.len(),
        forall|i: int| p <= i < s.len() ==> s[i] > x,
        p > 0 ==> s[p - 1] <= x,
    ensures
        insert_sorted(s, x) == s.insert(p, x),
    decreases s.len() - p,
{
    if s.len() == 0 {
        assert(s.insert(0, x) =~= seq![x]);
    } else if p == s.len() {
        assert(s.insert(p, x) =~= s.push(x));
    } else {
        lemma_insert_sorted_at(s.drop_last(), x, p);
        assert(s.drop_last().insert(p, x).push(s.last()) =~= s.insert(p, x));
    }
}

/// Putting an element into an ascending sequence keeps it ascending and
/// adds exactly that element.
pub proof fn lemma_insert_sorted(s: Seq<u64>, x: u64)
    requires
        ascending(s),
    ensures
        ascending(insert_sorted(s, x)),
        insert_sorted(s, x).to_multiset() == s.to_multiset().insert(x),
        insert_sorted(s, x).len() == s.len() + 1,
    decreases s.len(),
{
    broadcast use vstd::seq_lib::to_multiset_build;

    if s.len() == 0 {
        assert(seq![x] =~= s.push(x));
    } else if s.last() <= x {
        let t = s.push(x);
        assert forall|i: int, j: int| 0 <= i <= j < t.len() implies t[i] <= t[j] by {
            if j == s.len() && i < s.len() {
                assert(s[i] <= s[s.len() - 1]);
            }
        }
    } else {
        let head = s.drop_last();
        assert forall|i: int, j: int| 0 <= i <= j < head.len() implies head[i] <= head[j] by {
            assert(s[i] <= s[j]);
        }
        lemma_insert_sorted(head, x);
        let u = insert_sorted(head, x);
        let t = u.push(s.last());
        assert(head.push(s.last()) =~= s);
        assert(s.to_multiset() =~= head.to_multiset().insert(s.last()));
        assert(t.to_multiset() =~= s.to_multiset().insert(x));
        assert forall|i: int, j: int| 0 <= i <= j < t.len() implies t[i] <= t[j] by {
            if j == u.len() && i < u.len() {
                assert(u.to_multiset().count(u[i]) > 0) by {
                    broadcast use vstd::seq_lib::to_multiset_contains;

                    assert(u.contains(u[i]));
                }
                if u[i] != x {
                    assert(head.to_multiset().count(u[i]) > 0);
                    assert(head.contains(u[i])) by {
                        broadcast use vstd::seq_lib::to_multiset_contains;

                    }
                    let k = choose|k: int| 0 <= k < head.len() && head[k] == u[i];
                    assert(s[k] <= s[s.len() - 1]);
                }
            } else if j < u.len() {
                assert(u[i] <= u[j]);
            }
        }
    }
}

/// Sorting gives an ascending sequence of the same elements.
pub proof fn lemma_sorted(s: Seq<u64>)
    ensures
        ascending(sorted(s)),
        sorted(s).to_multiset() == s.to_multiset(),
        sorted(s).len() == s.len(),
    decreases s.len(),
{
    broadcast use vstd::seq_lib::to_multiset_build;

    if s.len() > 0 {
        lemma_sorted(s.drop_last());
        lemma_insert_sorted(sorted(s.drop_last()), s.last());
        assert(s.drop_last().push(s.last()) =~= s);
    }
}

/// Sorting leaves an ascending sequence as it is.
pub proof fn lemma_sorted_of_ascending(s: Seq<u64>)
    requires
        ascending(s),
    ensures
        sorted(s) == s,
    decreases s.len(),
{
    if s.len() > 0 {
        let head = s.drop_last();
        assert forall|i: int, j: int| 0 <= i <= j < head.len() implies head[i] <= head[j] by {
            assert(s[i] <= s[j]);
        }
        lemma_sorted_of_ascending(head);
        if head.len() > 0 {
            assert(head.last() == s[s.len() - 2]);
            assert(s[s.len() - 2] <= s[s.len() - 1]);
        }
        assert(head.push(s.last()) =~= s);
    }
}

/// Sorts the offsets into ascending order.
pub fn sort_offsets(v: Vec<u64>) -> (out: Vec<u64>)
    ensures
        out@ == sorted(v@),
{
    let mut out: Vec<u64> = Vec::new();
    let mut i: usize = 0;
    assert(v@.take(0) =~= Seq::<u64>::empty());
    while i < v.len()
        invariant
            i <= v@.len(),
            out@ == sorted(v@.take(i as int)),
        decreases v@.len() - i,
    {
        let x: u64 = v[i];
        let mut p: usize = out.len();
        while p > 0 && out[p - 1] > x
            invariant
                p <= out@.len(),
                forall|k: int| p <= k < out@.len() ==> out@[k] > x,
            decreases p,
        {
            p = p - 1;
        }
        proof {
            lemma_insert_sorted_at(out@, x, p as int);
            assert(v@.take(i + 1).drop_last() =~= v@.take(i as int));
            assert(v@.take(i + 1).last() == x);
        }
        out.insert(p, x);
        i = i + 1;
    }
    assert(v@.take(i as int) =~= v@);
    out
}

} // verus!
