pub mod backpack;
pub mod buffer;
pub mod file;
pub mod image;
pub mod in_memory;
pub mod laws;
pub mod layout;
pub mod names;
pub mod reader;
pub mod sequence;
pub mod slice;
pub mod store;
pub mod toc;

use vstd::prelude::*;

verus! {

/// The eight bytes every backpack starts with: ASCII "BACKPACK".
pub const PACK_MAGIC: [u8; 8] = [66, 65, 67, 75, 80, 65, 67, 75];

/// The format version this build reads and writes.
pub const PACK_VERSION: u16 = 1;

/// Size in bytes of one block of the table of contents.
pub const TOC_SIZE: u16 = 4096;

/// Size in bytes of the file header: magic, version, payload size, first block.
pub const PACK_HEADER_SIZE: u64 = 26;

/// The number that a string of decimal digits denotes.
pub open spec fn decimal_value(s: Seq<u8>) -> nat
    decreases s.len(),
{
    if s.len() == 0 {
        0
    } else {
        decimal_value(s.drop_last()) * 10 + (s.last() - 48) as nat
    }
}

/// True when every byte is an ASCII digit.
pub open spec fn all_digits(s: Seq<u8>) -> bool {
    forall|i: int| 0 <= i < s.len() ==> 48 <= #[trigger] s[i] <= 57
}

/// A prefix of a digit string denotes no more than the whole string.
pub proof fn lemma_decimal_prefix(s: Seq<u8>, n: int)
    requires
        all_digits(s),
        0 <= n <= s.len(),
    ensures
        decimal_value(s.take(n)) <= decimal_value(s),
    decreases s.len() - n,
{
    if n < s.len() {
        let t = s.take(n + 1);
        assert(t.drop_last() =~= s.take(n));
        assert(t.last() == s[n]);
        lemma_decimal_prefix(s, n + 1);
    } else {
        assert(s.take(n) =~= s);
    }
}

/// Reads an unsigned decimal number. The empty string denotes zero.
pub fn parse_int(s: &[u8]) -> (r: u16)
    requires
        all_digits(s@),
        decimal_value(s@) <= u16::MAX,
    ensures
        r == decimal_value(s@),
{
    let mut acc: u16 = 0;
    let mut i: usize = 0;
    while i < s.len()
        invariant
            i <= s.len(),
            all_digits(s@),
            decimal_value(s@) <= u16::MAX,
            acc == decimal_value(s@.take(i as int)),
        decreases s.len() - i,
    {
        let d: u8 = s[i] - 48;
        proof {
            let t = s@.take(i + 1);
            assert(t.drop_last() =~= s@.take(i as int));
            assert(t.last() == s@[i as int]);
            lemma_decimal_prefix(s@, i + 1);
        }
        acc = acc * 10 + d as u16;
        i = i + 1;
    }
    proof {
        assert(s@.take(i as int) =~= s@);
    }
    acc
}

} // verus!
