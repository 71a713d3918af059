use backpack::pack::buffer::InMemoryBuf;
use backpack::pack::layout::convert_offset;
use backpack::pack::layout::sort_offsets;
use backpack::pack::names::NameMap;
use backpack::pack::reader::is_magic;
use backpack::pack::reader::parse_backwards_compatible;
use backpack::pack::reader::parse_headers;
use backpack::pack::toc::create_toc;
use backpack::pack::toc::finish_block;
use backpack::pack::toc::parse_toc_block;
use backpack::pack::toc::write_entry;
use backpack::pack::toc::write_headers;
use backpack::pack::toc::MAX_NAME_LEN;
use backpack::pack::PACK_HEADER_SIZE;
use backpack::pack::PACK_MAGIC;
use backpack::pack::TOC_SIZE;
use backpack::BackPack;
use backpack::IoErrorKind;
use backpack::PackError;
use backpack::RawFile;

fn entry(name: &[u8], offset: u64, length: u64) -> Vec<u8> {
    let mut out = (name.len() as u16).to_le_bytes().to_vec();
    out.extend_from_slice(name);
    out.extend_from_slice(&offset.to_le_bytes());
    out.extend_from_slice(&length.to_le_bytes());
    out
}

fn block(entries: &[u8], filled: u16, next: u64) -> Vec<u8> {
    let mut out = filled.to_le_bytes().to_vec();
    out.extend_from_slice(&next.to_le_bytes());
    out.extend_from_slice(entries);
    out.resize(4096, 0);
    out
}

fn header(size: u64, first: u64) -> Vec<u8> {
    let mut out = b"BACKPACK".to_vec();
    out.extend_from_slice(&1u16.to_le_bytes());
    out.extend_from_slice(&size.to_le_bytes());
    out.extend_from_slice(&first.to_le_bytes());
    out
}

fn listed(map: &NameMap) -> Vec<(String, u64, u64)> {
    (0..map.len()).map(|i| {
        let e = map.entry(i);
        (e.name.clone(), e.offset, e.length)
    }).collect()
}

#[test]
fn constants_of_the_format() {
    assert_eq!(&PACK_MAGIC, b"BACKPACK");
    assert_eq!(PACK_HEADER_SIZE, 26);
    assert_eq!(TOC_SIZE, 4096);
    assert_eq!(MAX_NAME_LEN, 4096 - 10 - 18);
    assert!(is_magic(b"BACKPACK"));
    assert!(!is_magic(b"BACKPACk"));
    assert!(!is_magic(b"BACKPAC"));
}

#[test]
fn convert_offset_counts_blocks_at_or_before() {
    assert_eq!(convert_offset(&vec![], 0), Some(26));
    assert_eq!(convert_offset(&vec![], 100), Some(126));
    assert_eq!(convert_offset(&vec![26], 0), Some(26 + 4096));
    assert_eq!(convert_offset(&vec![26, 26 + 4096], 0), Some(26 + 2 * 4096));
    assert_eq!(convert_offset(&vec![26, 26 + 4096], 5), Some(26 + 2 * 4096 + 5));
    assert_eq!(convert_offset(&vec![27], 0), Some(26));
    assert_eq!(convert_offset(&vec![27], 1), Some(27 + 4096));
    assert_eq!(convert_offset(&vec![26, 5000], 0), Some(26 + 4096));
    assert_eq!(convert_offset(&vec![26, 4122, 9000], 1000), Some(26 + 1000 + 3 * 4096));
}

#[test]
fn convert_offset_is_monotonic() {
    let blocks = vec![26, 300, 4122, 5000, 20000];
    let mut last = 0;
    for offset in 0..30000u64 {
        let at = convert_offset(&blocks, offset).unwrap();
        assert!(at >= last);
        last = at;
    }
}

#[test]
fn convert_offset_overflow_is_none() {
    assert_eq!(convert_offset(&vec![], u64::MAX), None);
    assert_eq!(convert_offset(&vec![], u64::MAX - 26), Some(u64::MAX));
    assert_eq!(convert_offset(&vec![26], u64::MAX - 26), None);
    assert_eq!(convert_offset(&vec![26], u64::MAX - 26 - 4096), Some(u64::MAX));
}

#[test]
fn sort_offsets_sorts() {
    assert_eq!(sort_offsets(vec![]), Vec::<u64>::new());
    assert_eq!(sort_offsets(vec![3, 1, 2]), vec![1, 2, 3]);
    assert_eq!(sort_offsets(vec![5, 5, 1, 9, 0, 5]), vec![0, 1, 5, 5, 5, 9]);
    assert_eq!(sort_offsets(vec![1, 2, 3]), vec![1, 2, 3]);
}

#[test]
fn write_entry_layout() {
    let mut map = NameMap::new();
    map.insert("añb".to_string(), 0x0102030405060708, 9);
    let mut out = vec![0xEE];
    write_entry(&mut out, map.entry(0));
    let mut expected = vec![0xEE, 4, 0];
    expected.extend_from_slice("añb".as_bytes());
    expected.extend_from_slice(&[8, 7, 6, 5, 4, 3, 2, 1]);
    expected.extend_from_slice(&[9, 0, 0, 0, 0, 0, 0, 0]);
    assert_eq!(out, expected);
}

#[test]
fn finish_block_layout() {
    let b = finish_block(vec![1, 2, 3], 4122);
    assert_eq!(b.len(), 4096);
    assert_eq!(&b[0..2], &13u16.to_le_bytes());
    assert_eq!(&b[2..10], &4122u64.to_le_bytes());
    assert_eq!(&b[10..13], &[1, 2, 3]);
    assert!(b[13..].iter().all(|x| *x == 0));
}

#[test]
fn create_toc_of_nothing_is_no_block() {
    let map = NameMap::new();
    assert_eq!(create_toc(&map).unwrap(), Vec::<Vec<u8>>::new());
}

#[test]
fn create_toc_fills_blocks_in_order() {
    let mut map = NameMap::new();
    map.insert("a".repeat(2000), 0, 1);
    map.insert("b".repeat(2000), 1, 2);
    map.insert("c".repeat(30), 3, 3);
    map.insert("d".to_string(), 6, 4);
    map.insert("e".repeat(4060), 10, 5);
    let blocks = create_toc(&map).unwrap();
    assert_eq!(blocks.len(), 3);
    let mut first = entry("a".repeat(2000).as_bytes(), 0, 1);
    first.extend_from_slice(&entry("b".repeat(2000).as_bytes(), 1, 2));
    first.extend_from_slice(&entry("c".repeat(30).as_bytes(), 3, 3));
    assert!(blocks[0] == block(&first, 10 + 2 * 2018 + 48, 26 + 4096));
    assert!(blocks[1] == block(&entry(b"d", 6, 4), 10 + 19, 26 + 2 * 4096));
    assert!(blocks[2] == block(&entry("e".repeat(4060).as_bytes(), 10, 5), 10 + 4078, 0));
}

#[test]
fn create_toc_orders_entries_by_offset() {
    let mut map = NameMap::new();
    map.insert("late".to_string(), 9, 1);
    map.insert("first".to_string(), 0, 4);
    map.insert("twin".to_string(), 4, 0);
    map.insert("middle".to_string(), 4, 5);
    map.insert("early".to_string(), 0, 0);
    assert_eq!(map.offset_order(), vec![1, 4, 2, 3, 0]);
    let blocks = create_toc(&map).unwrap();
    let mut entries = entry(b"first", 0, 4);
    entries.extend_from_slice(&entry(b"early", 0, 0));
    entries.extend_from_slice(&entry(b"twin", 4, 0));
    entries.extend_from_slice(&entry(b"middle", 4, 5));
    entries.extend_from_slice(&entry(b"late", 9, 1));
    let filled = 10 + entries.len() as u16;
    assert_eq!(blocks.len(), 1);
    assert!(blocks[0] == block(&entries, filled, 0));
    let mut f = InMemoryBuf::new(vec![]);
    write_headers(&mut f, 10, &map).unwrap();
    let mut expected = header(10, 26);
    expected.extend_from_slice(&block(&entries, filled, 0));
    assert!(f.data == expected);
}

#[test]
fn create_toc_block_filled_to_the_last_byte() {
    let mut map = NameMap::new();
    map.insert("a".repeat(4068), 0, 0);
    map.insert("b".to_string(), 0, 0);
    let blocks = create_toc(&map).unwrap();
    assert_eq!(blocks.len(), 2);
    assert_eq!(&blocks[0][0..2], &4096u16.to_le_bytes());
    assert_eq!(&blocks[1][0..2], &29u16.to_le_bytes());
}

#[test]
fn write_headers_names_no_first_block_when_empty() {
    let mut f = InMemoryBuf::new(vec![]);
    write_headers(&mut f, 0, &NameMap::new()).unwrap();
    assert_eq!(f.data, header(0, 0));
    assert_eq!(f.position(), 26);
}

#[test]
fn write_headers_names_the_header_size_as_first_block() {
    let mut map = NameMap::new();
    map.insert("n".to_string(), 0, 7);
    let mut f = InMemoryBuf::new(vec![0xAA; 3]);
    f.set_position(3);
    write_headers(&mut f, 7, &map).unwrap();
    let mut expected = vec![0xAA; 3];
    expected.extend_from_slice(&header(7, 26));
    expected.extend_from_slice(&block(&entry(b"n", 0, 7), 29, 0));
    assert_eq!(f.data, expected);
    assert_eq!(f.position(), 3 + 26 + 4096);
}

#[test]
fn parse_toc_block_reads_entries_and_replaces_names() {
    let mut body = entry(b"a", 1, 2);
    body.extend_from_slice(&entry(b"bb", 3, 4));
    body.extend_from_slice(&entry(b"a", 5, 6));
    let filled = body.len() as u16;
    body.resize(4086, 0);
    let mut map = NameMap::new();
    map.insert("z".to_string(), 9, 9);
    parse_toc_block(filled, &body, &mut map).unwrap();
    assert_eq!(
        listed(&map),
        vec![("z".to_string(), 9, 9), ("a".to_string(), 5, 6), ("bb".to_string(), 3, 4)]
    );
    assert_eq!(map.get("a"), Some((5, 6)));
    assert_eq!(map.get("nope"), None);
    assert_eq!(map.find("bb"), Some(2));
}

#[test]
fn parse_toc_block_is_strict() {
    let body = entry(b"abc", 1, 2);
    for cut in 1..body.len() as u16 {
        let mut map = NameMap::new();
        let r = parse_toc_block(cut, &body, &mut map);
        assert_eq!(r, Err(PackError::Io(IoErrorKind::UnexpectedEof)), "cut {}", cut);
    }
    let mut map = NameMap::new();
    assert_eq!(parse_toc_block(0, &body, &mut map), Ok(()));
    assert!(map.is_empty());
    assert_eq!(
        parse_toc_block(body.len() as u16 + 1, &body, &mut map),
        Err(PackError::Io(IoErrorKind::UnexpectedEof))
    );
    let bad = entry(&[0xFF, 0xFE], 1, 2);
    assert_eq!(parse_toc_block(bad.len() as u16, &bad, &mut map), Err(PackError::Utf8Error));
    let mut mixed = entry(b"ok", 1, 2);
    mixed.extend_from_slice(&entry(&[0xC0], 1, 2));
    assert_eq!(parse_toc_block(mixed.len() as u16, &mixed, &mut map), Err(PackError::Utf8Error));
    assert_eq!(map.get("ok"), Some((1, 2)));
}

#[test]
fn parse_backwards_compatible_knows_no_version() {
    assert!(matches!(parse_backwards_compatible(0), Err(PackError::Incompatible(0))));
    assert!(matches!(parse_backwards_compatible(2), Err(PackError::Incompatible(2))));
}

#[test]
fn parse_headers_follows_a_chain_out_of_order() {
    let mut image = header(0, 26 + 4096);
    image.extend_from_slice(&block(&entry(b"second", 1, 1), 10 + 24, 0));
    image.extend_from_slice(&block(&entry(b"first", 0, 1), 10 + 23, 26));
    let mut f = InMemoryBuf::new(image);
    let (names, chain) = parse_headers(&mut f).unwrap();
    assert_eq!(chain, vec![26 + 4096, 26]);
    assert_eq!(listed(&names), vec![("first".to_string(), 0, 1), ("second".to_string(), 1, 1)]);
}

#[test]
fn a_chain_in_a_circle_is_invalid_data() {
    let mut image = header(0, 26);
    image.extend_from_slice(&block(&entry(b"a", 0, 0), 29, 26));
    let r = BackPack::open(RawFile::from(image));
    assert!(matches!(r, Err(PackError::Io(IoErrorKind::InvalidData))));
}

#[test]
fn a_fill_count_below_the_block_header_is_invalid_data() {
    let mut image = header(0, 26);
    image.extend_from_slice(&block(&[], 9, 0));
    let r = BackPack::open(RawFile::from(image));
    assert!(matches!(r, Err(PackError::Io(IoErrorKind::InvalidData))));
}

#[test]
fn a_truncated_block_is_an_unexpected_end() {
    let mut image = header(0, 26);
    image.extend_from_slice(&block(&entry(b"a", 0, 0), 29, 0));
    image.truncate(26 + 4095);
    let r = BackPack::open(RawFile::from(image));
    assert!(matches!(r, Err(PackError::Io(IoErrorKind::UnexpectedEof))));
    let r = BackPack::open(RawFile::from(header(0, 1 << 40)));
    assert!(matches!(r, Err(PackError::Io(IoErrorKind::UnexpectedEof))));
}

#[test]
fn a_name_that_is_not_utf8_is_a_utf8_error() {
    let mut image = header(0, 26);
    image.extend_from_slice(&block(&entry(&[0x80], 0, 0), 29, 0));
    let r = BackPack::open(RawFile::from(image));
    assert!(matches!(r, Err(PackError::Utf8Error)));
}

#[test]
fn an_entry_beyond_the_file_is_an_unexpected_end() {
    let mut image = header(3, 26);
    image.extend_from_slice(&block(&entry(b"a", 0, 4), 29, 0));
    image.extend_from_slice(b"abc");
    let r = BackPack::open(RawFile::from(image.clone()));
    assert!(matches!(r, Err(PackError::Io(IoErrorKind::UnexpectedEof))));
    let mut image = header(3, 26);
    image.extend_from_slice(&block(&entry(b"a", u64::MAX - 10, 1), 29, 0));
    let r = BackPack::open(RawFile::from(image));
    assert!(matches!(r, Err(PackError::Io(IoErrorKind::UnexpectedEof))));
}

#[test]
fn blocks_between_the_payload_are_stepped_over() {
    let mut image = header(6, 26);
    image.extend_from_slice(&block(&entry(b"a", 0, 3), 29, 26 + 4096 + 3));
    image.extend_from_slice(b"abc");
    image.extend_from_slice(&block(&entry(b"b", 3, 3), 29, 0));
    image.extend_from_slice(b"xyz");
    let bp = BackPack::open(RawFile::from(image)).unwrap();
    let a = bp.get_file("a").unwrap();
    let b = bp.get_file("b").unwrap();
    assert_eq!(a.get_bytes(Some(&bp)).unwrap(), b"abc");
    assert_eq!(b.get_bytes(Some(&bp)).unwrap(), b"xyz");
    assert_eq!(bp.memory_bytes(), 6);
}

#[test]
fn entries_with_one_key_share_the_first_buffer() {
    let mut entries = entry(b"a", 0, 3);
    entries.extend_from_slice(&entry(b"b", 0, 3));
    let filled = 10 + entries.len() as u16;
    let mut image = header(3, 26);
    image.extend_from_slice(&block(&entries, filled, 0));
    image.extend_from_slice(b"abc");
    let bp = BackPack::open(RawFile::from(image)).unwrap();
    assert_eq!(bp.memory_bytes(), 3);
    assert_eq!(bp.get_file("b").unwrap().get_bytes(Some(&bp)).unwrap(), b"abc");
}

#[test]
fn an_empty_entry_may_stand_beyond_the_end() {
    let mut image = header(0, 26);
    image.extend_from_slice(&block(&entry(b"a", 500, 0), 29, 0));
    let bp = BackPack::open(RawFile::from(image)).unwrap();
    assert_eq!(bp.get_file("a").unwrap().get_bytes(Some(&bp)).unwrap(), b"");
}

#[test]
fn a_table_of_any_map_reads_back_as_that_map() {
    let mut map = NameMap::new();
    let lengths = [4066usize, 0, 1, 2000, 2034, 17, 4000, 3, 255];
    for (i, len) in lengths.iter().enumerate() {
        let name = format!("{}", (b'a' + i as u8) as char).repeat(*len);
        map.insert(name, 1000 - 100 * i as u64, i as u64);
    }
    let mut f = InMemoryBuf::new(vec![]);
    write_headers(&mut f, 0xDEAD_BEEF, &map).unwrap();
    let blocks = (f.data.len() - 26) / 4096;
    assert_eq!(f.data.len(), 26 + 4096 * blocks);
    assert!(blocks >= 2);
    f.set_position(0);
    let (names, chain) = parse_headers(&mut f).unwrap();
    assert_eq!(chain, (0..blocks as u64).map(|i| 26 + 4096 * i).collect::<Vec<u64>>());
    assert_eq!(names.len(), map.len());
    for i in 0..map.len() {
        let e = map.entry(i);
        assert_eq!(names.get(&e.name), Some((e.offset, e.length)));
    }
    let listed = listed(&names);
    for pair in listed.windows(2) {
        assert!(pair[0].1 <= pair[1].1);
    }
}
