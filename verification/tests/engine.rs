use backpack::pack::parse_int as parse_decimal;
use backpack::pack::slice::PackSlice;
use backpack::pack::PACK_VERSION;
use backpack::BackPack;
use backpack::InMemoryFile;
use backpack::IoErrorKind;
use backpack::PackError;
use backpack::RawFile;

fn named(name: &str, body: &[u8]) -> RawFile {
    RawFile::InMemory(InMemoryFile::from_bytes(body.to_vec()).with_name(name))
}

fn bytes_of(file: &RawFile) -> Vec<u8> {
    match file {
        RawFile::InMemory(f) => f.get_bytes(None).unwrap(),
        RawFile::Disk { file, .. } => file.data.clone(),
    }
}

fn content(bp: &BackPack, name: &str) -> Result<Vec<u8>, PackError> {
    let f = bp.get_file(name)?;
    f.get_bytes(Some(bp))
}

#[test]
fn test_version() {
    assert_eq!(PACK_VERSION, "1".parse().unwrap(), "CARGO_PKG_VERSION_MAJOR");
}

#[test]
fn parse_int() {
    assert_eq!(parse_decimal(b"10"), 10);
    assert_eq!(parse_decimal(b"15"), 15);
    assert_eq!(parse_decimal(b"150"), 150);
}

#[test]
fn parse_int_edges() {
    assert_eq!(parse_decimal(b""), 0);
    assert_eq!(parse_decimal(b"0"), 0);
    assert_eq!(parse_decimal(b"007"), 7);
    assert_eq!(parse_decimal(b"65535"), 65535);
}

#[test]
fn test_reopen() {
    let file = RawFile::in_memory("test.bp");
    let bp = BackPack::create(file).unwrap();
    let file = bp.close().unwrap();
    let bp = BackPack::open(file).unwrap();
    bp.close().unwrap();
}

#[test]
fn test_add_file() {
    let file = RawFile::in_memory("test.bp");
    let mut bp = BackPack::create(file).unwrap();
    let f: InMemoryFile = InMemoryFile::from_text("test");
    bp.add_file(f.with_name("test.txt").into()).unwrap();
    let file = bp.close().unwrap();
    let bp = BackPack::open(file).unwrap();
    let f = bp.get_file("test.txt").unwrap();
    assert_eq!(f.get_bytes(Some(&bp)).unwrap(), b"test");
    bp.close().unwrap();
}

#[test]
fn empty_round_trip_writes_the_bare_header() {
    let bp = BackPack::create(RawFile::in_memory("test.bp")).unwrap();
    let file = bp.close().unwrap();
    let mut expected = b"BACKPACK".to_vec();
    expected.extend_from_slice(&[1, 0]);
    expected.extend_from_slice(&[0; 8]);
    expected.extend_from_slice(&[0; 8]);
    assert_eq!(expected.len(), 26);
    assert_eq!(bytes_of(&file), expected);
    assert_eq!(file.name().map(|s| s.as_str()), Some("test.bp"));
    let bp = BackPack::open(file).unwrap();
    assert_eq!(bp.memory_bytes(), 0);
    let file = bp.close().unwrap();
    assert_eq!(bytes_of(&file), expected);
}

#[test]
fn single_small_file() {
    let mut bp = BackPack::create(RawFile::in_memory("test.bp")).unwrap();
    let handle = bp.add_file(named("test.txt", b"test")).unwrap();
    assert_eq!(handle.name().map(|s| s.as_str()), Some("test.txt"));
    assert_eq!(bp.memory_bytes(), 4);
    let file = bp.close().unwrap();
    let bp = BackPack::open(file).unwrap();
    assert_eq!(content(&bp, "test.txt").unwrap(), b"test");
    assert_eq!(bp.memory_bytes(), 4);
}

#[test]
fn single_small_file_image_is_exact() {
    let mut bp = BackPack::create(RawFile::in_memory("test.bp")).unwrap();
    bp.add_file(named("test.txt", b"test")).unwrap();
    let file = bp.close().unwrap();
    let image = bytes_of(&file);
    assert_eq!(image.len(), 26 + 4096 + 4);
    assert_eq!(&image[0..8], b"BACKPACK");
    assert_eq!(&image[8..10], &[1, 0]);
    assert_eq!(&image[10..18], &4u64.to_le_bytes());
    assert_eq!(&image[18..26], &26u64.to_le_bytes());
    assert_eq!(&image[26..28], &(10u16 + 2 + 8 + 8 + 8).to_le_bytes());
    assert_eq!(&image[28..36], &0u64.to_le_bytes());
    assert_eq!(&image[36..38], &8u16.to_le_bytes());
    assert_eq!(&image[38..46], b"test.txt");
    assert_eq!(&image[46..54], &0u64.to_le_bytes());
    assert_eq!(&image[54..62], &4u64.to_le_bytes());
    assert!(image[62..26 + 4096].iter().all(|b| *b == 0));
    assert_eq!(&image[26 + 4096..], b"test");
}

#[test]
fn add_remove_flush() {
    let mut bp = BackPack::create(RawFile::in_memory("pack.bp")).unwrap();
    bp.add_file(named("a", b"AA")).unwrap();
    bp.add_file(named("b", b"BBB")).unwrap();
    let removed = bp.remove_file("a").unwrap();
    assert_eq!(removed.get_bytes(None).unwrap(), b"AA");
    assert!(removed.name().is_none());
    assert!(matches!(bp.get_file("a"), Err(PackError::FileNotFound(n)) if n == "a"));
    bp.flush().unwrap();
    assert!(matches!(bp.get_file("a"), Err(PackError::FileNotFound(_))));
    let file = bp.close().unwrap();
    let bp = BackPack::open(file).unwrap();
    assert_eq!(content(&bp, "b").unwrap(), b"BBB");
    assert!(matches!(bp.get_file("a"), Err(PackError::FileNotFound(n)) if n == "a"));
}

#[test]
fn version_mismatch() {
    let mut image = b"BACKPACK".to_vec();
    image.extend_from_slice(&0xFFFEu16.to_le_bytes());
    image.extend_from_slice(&[0; 16]);
    let r = BackPack::open(RawFile::from(image));
    assert!(matches!(r, Err(PackError::Incompatible(65534))));
}

#[test]
fn bad_magic() {
    let mut image = b"NOTPACK\0".to_vec();
    image.extend_from_slice(&[1, 0]);
    image.extend_from_slice(&[0; 16]);
    let r = BackPack::open(RawFile::from(image));
    assert!(matches!(r, Err(PackError::BadMagic)));
}

#[test]
fn short_header_is_an_unexpected_end() {
    for cut in [0usize, 7, 8, 9, 10, 17, 18, 25] {
        let mut image = b"BACKPACK".to_vec();
        image.extend_from_slice(&[1, 0]);
        image.extend_from_slice(&[0; 16]);
        image.truncate(cut);
        let r = BackPack::open(RawFile::from(image));
        assert!(matches!(r, Err(PackError::Io(IoErrorKind::UnexpectedEof))), "cut at {}", cut);
    }
}

#[test]
fn removal_is_seen_at_once_and_second_removal_is_not_found() {
    let mut bp = BackPack::create(RawFile::in_memory("pack.bp")).unwrap();
    bp.add_file(named("a", b"AA")).unwrap();
    assert!(bp.remove_file("a").is_ok());
    assert!(matches!(bp.remove_file("a"), Err(PackError::FileNotFound(_))));
    assert!(matches!(bp.remove_file("zzz"), Err(PackError::FileNotFound(n)) if n == "zzz"));
    assert_eq!(bp.memory_bytes(), 2);
}

#[test]
fn add_without_name_is_refused() {
    let mut bp = BackPack::create(RawFile::in_memory("pack.bp")).unwrap();
    let r = bp.add_file(RawFile::from(b"data".to_vec()));
    assert!(matches!(r, Err(PackError::NoName)));
    assert_eq!(bp.memory_bytes(), 0);
    let r = bp.add_file_named(RawFile::from(b"data".to_vec()), "named");
    assert!(r.is_ok());
    assert_eq!(content(&bp, "named").unwrap(), b"data");
}

#[test]
fn name_too_long_is_invalid_input() {
    let mut bp = BackPack::create(RawFile::in_memory("pack.bp")).unwrap();
    let long = "x".repeat(4069);
    let r = bp.add_file(named(&long, b"data"));
    assert!(matches!(r, Err(PackError::Io(IoErrorKind::InvalidInput))));
    assert_eq!(bp.memory_bytes(), 0);
    let fits = "x".repeat(4068);
    assert!(bp.add_file(named(&fits, b"data")).is_ok());
    let file = bp.close().unwrap();
    let bp = BackPack::open(file).unwrap();
    assert_eq!(content(&bp, &fits).unwrap(), b"data");
}

#[test]
fn keys_are_counter_and_length() {
    let mut bp = BackPack::create(RawFile::in_memory("pack.bp")).unwrap();
    let a = bp.add_file(named("a", b"AA")).unwrap();
    let b = bp.add_file(named("b", b"BBB")).unwrap();
    match (a, b) {
        (InMemoryFile::Packed { data: a, .. }, InMemoryFile::Packed { data: b, .. }) => {
            assert_eq!(a.identifier(), (0, 2));
            assert_eq!(b.identifier(), (2, 3));
            assert_eq!(a.position(), 0);
        }
        _ => panic!("handles were expected"),
    }
    assert_eq!(bp.memory_bytes(), 5);
}

#[test]
fn add_reads_from_the_cursor_on() {
    let mut bp = BackPack::create(RawFile::in_memory("pack.bp")).unwrap();
    let mut f = InMemoryFile::from_bytes(b"0123456789".to_vec()).with_name("tail");
    f.seek(None, backpack::pack::buffer::SeekFrom::Start(7)).unwrap();
    bp.add_file(RawFile::InMemory(f)).unwrap();
    assert_eq!(content(&bp, "tail").unwrap(), b"789");
    assert_eq!(bp.memory_bytes(), 3);
}

#[test]
fn adding_a_name_again_replaces_the_entry() {
    let mut bp = BackPack::create(RawFile::in_memory("pack.bp")).unwrap();
    bp.add_file(named("a", b"old")).unwrap();
    bp.add_file(named("a", b"newer")).unwrap();
    assert_eq!(content(&bp, "a").unwrap(), b"newer");
    assert_eq!(bp.memory_bytes(), 8);
    let file = bp.close().unwrap();
    let bp = BackPack::open(file).unwrap();
    assert_eq!(content(&bp, "a").unwrap(), b"newer");
    assert_eq!(bp.memory_bytes(), 5);
}

#[test]
fn empty_files_have_buffers_of_their_own() {
    let mut bp = BackPack::create(RawFile::in_memory("p")).unwrap();
    let mut a = bp.add_empty_file("a").unwrap();
    let b = bp.add_empty_file("b").unwrap();
    match (&a, &b) {
        (InMemoryFile::Packed { data: a, .. }, InMemoryFile::Packed { data: b, .. }) => {
            assert_eq!(a.identifier(), (0, 0));
            assert_eq!(b.identifier(), (1, 0));
        }
        _ => panic!("handles were expected"),
    }
    assert_eq!(a.set_len(Some(&mut bp), 3), Ok(()));
    assert_eq!(a.get_bytes(Some(&bp)).unwrap(), vec![0, 0, 0]);
    assert_eq!(b.get_bytes(Some(&bp)).unwrap(), Vec::<u8>::new());
    assert_eq!(a.write(Some(&mut bp), b"hi").unwrap(), 2);
    assert_eq!(content(&bp, "a").unwrap(), b"hi\0");
    assert_eq!(content(&bp, "b").unwrap(), b"");
    assert_eq!(bp.memory_bytes(), 3);
}

#[test]
fn bytes_added_after_a_cut_are_kept() {
    let mut bp = BackPack::create(RawFile::in_memory("p")).unwrap();
    let mut a = bp.add_file(named("a", b"AA")).unwrap();
    assert_eq!(a.set_len(Some(&mut bp), 0), Ok(()));
    assert_eq!(bp.memory_bytes(), 0);
    let b = bp.add_file(named("b", b"BB")).unwrap();
    assert_eq!(bp.memory_bytes(), 2);
    assert_eq!(b.get_bytes(Some(&bp)).unwrap(), b"BB");
    assert_eq!(content(&bp, "b").unwrap(), b"BB");
    assert_eq!(content(&bp, "a").unwrap(), b"");
    match (&a, &b) {
        (InMemoryFile::Packed { data: a, .. }, InMemoryFile::Packed { data: b, .. }) => {
            assert_eq!(a.identifier(), (0, 2));
            assert_eq!(b.identifier(), (2, 2));
        }
        _ => panic!("handles were expected"),
    }
}

#[test]
fn keys_go_on_behind_the_keys_of_a_reopened_backpack() {
    let mut bp = BackPack::create(RawFile::in_memory("p")).unwrap();
    bp.add_file(named("a", b"AA")).unwrap();
    bp.add_empty_file("e").unwrap();
    let file = bp.close().unwrap();
    let mut bp = BackPack::open(file).unwrap();
    match (bp.get_file("a").unwrap(), bp.get_file("e").unwrap()) {
        (InMemoryFile::Packed { data: a, .. }, InMemoryFile::Packed { data: e, .. }) => {
            assert_eq!(a.identifier(), (0, 2));
            assert_eq!(e.identifier(), (2, 0));
        }
        _ => panic!("handles were expected"),
    }
    let b = bp.add_file(named("b", b"B")).unwrap();
    match &b {
        InMemoryFile::Packed { data, .. } => assert_eq!(data.identifier(), (3, 1)),
        _ => panic!("a handle was expected"),
    }
    let f = bp.add_empty_file("f").unwrap();
    match &f {
        InMemoryFile::Packed { data, .. } => assert_eq!(data.identifier(), (4, 0)),
        _ => panic!("a handle was expected"),
    }
    assert_eq!(content(&bp, "a").unwrap(), b"AA");
    assert_eq!(content(&bp, "e").unwrap(), b"");
    assert_eq!(content(&bp, "b").unwrap(), b"B");
    assert_eq!(bp.memory_bytes(), 3);
}

#[test]
fn a_handle_from_elsewhere_is_an_invalid_entry() {
    let mut bp = BackPack::create(RawFile::in_memory("pack.bp")).unwrap();
    let stray = PackSlice::new(40, 2);
    assert!(!bp.holds(&stray));
    assert!(matches!(stray.get_bytes(&bp), Err(PackError::InvalidEntry)));
    let f = InMemoryFile::Packed { name: "stray".to_string(), data: stray };
    assert!(matches!(bp.add_file(RawFile::InMemory(f)), Err(PackError::InvalidEntry)));
}

#[test]
fn a_handle_can_be_added_under_another_name() {
    let mut bp = BackPack::create(RawFile::in_memory("pack.bp")).unwrap();
    let a = bp.add_file(named("a", b"AAAA")).unwrap();
    let copy = bp.add_file_named(RawFile::InMemory(a), "copy").unwrap();
    assert_eq!(copy.get_bytes(Some(&bp)).unwrap(), b"AAAA");
    assert_eq!(bp.memory_bytes(), 8);
}

#[test]
fn a_handle_cannot_back_a_backpack() {
    let f = InMemoryFile::Packed { name: "x".to_string(), data: PackSlice::new(0, 0) };
    let r = BackPack::create(RawFile::InMemory(f));
    assert!(matches!(r, Err(PackError::Io(IoErrorKind::Unsupported))));
    let f = InMemoryFile::Packed { name: "x".to_string(), data: PackSlice::new(0, 0) };
    let r = BackPack::open(RawFile::InMemory(f));
    assert!(matches!(r, Err(PackError::Io(IoErrorKind::Unsupported))));
}

#[test]
fn close_without_flush_loses_the_changes() {
    let mut bp = BackPack::create(RawFile::in_memory("pack.bp")).unwrap();
    bp.add_file(named("a", b"AA")).unwrap();
    bp.flush().unwrap();
    bp.add_file(named("b", b"BBB")).unwrap();
    let file = bp.close_drop_unwritten_changes().unwrap();
    let bp = BackPack::open(file).unwrap();
    assert_eq!(content(&bp, "a").unwrap(), b"AA");
    assert!(matches!(bp.get_file("b"), Err(PackError::FileNotFound(_))));
}

#[test]
fn second_flush_writes_the_same_bytes() {
    let mut bp = BackPack::create(RawFile::in_memory("pack.bp")).unwrap();
    bp.add_file(named("a", b"AA")).unwrap();
    bp.add_file(named("b", b"BBB")).unwrap();
    bp.remove_file("a").unwrap();
    bp.flush().unwrap();
    let mut twin = BackPack::create(RawFile::in_memory("pack.bp")).unwrap();
    twin.add_file(named("a", b"AA")).unwrap();
    twin.add_file(named("b", b"BBB")).unwrap();
    twin.remove_file("a").unwrap();
    twin.flush().unwrap();
    twin.flush().unwrap();
    let once = bp.close_drop_unwritten_changes().unwrap();
    let twice = twin.close().unwrap();
    assert_eq!(bytes_of(&once), bytes_of(&twice));
}

#[test]
fn flush_writes_what_the_buffers_hold_now() {
    let mut bp = BackPack::create(RawFile::in_memory("pack.bp")).unwrap();
    let mut a = bp.add_file(named("a", b"AA")).unwrap();
    bp.add_file(named("b", b"BBB")).unwrap();
    a.seek(Some(&bp), backpack::pack::buffer::SeekFrom::End(0)).unwrap();
    a.write(Some(&mut bp), b"++++").unwrap();
    assert_eq!(bp.memory_bytes(), 9);
    let file = bp.close().unwrap();
    let bp = BackPack::open(file).unwrap();
    assert_eq!(content(&bp, "a").unwrap(), b"AA++++");
    assert_eq!(content(&bp, "b").unwrap(), b"BBB");
    match bp.get_file("b").unwrap() {
        InMemoryFile::Packed { data, .. } => assert_eq!(data.identifier(), (6, 3)),
        _ => panic!("a handle was expected"),
    }
}

#[test]
fn reopened_image_may_have_stale_bytes_behind_it() {
    let mut bp = BackPack::create(RawFile::in_memory("pack.bp")).unwrap();
    bp.add_file(named("long", &[7u8; 5000])).unwrap();
    bp.flush().unwrap();
    bp.remove_file("long").unwrap();
    bp.add_file(named("s", b"s")).unwrap();
    let file = bp.close().unwrap();
    assert!(bytes_of(&file).len() > 26 + 4096 + 1);
    let bp = BackPack::open(file).unwrap();
    assert_eq!(content(&bp, "s").unwrap(), b"s");
    assert!(matches!(bp.get_file("long"), Err(PackError::FileNotFound(_))));
    assert_eq!(bp.memory_bytes(), 1);
}

#[test]
fn disk_image_round_trip() {
    let mut bp = BackPack::create(RawFile::disk(Some("on.disk".to_string()), vec![9; 3])).unwrap();
    bp.add_file(named("a", b"AA")).unwrap();
    let file = bp.close().unwrap();
    assert!(matches!(&file, RawFile::Disk { name: Some(n), .. } if n == "on.disk"));
    assert_eq!(file.metadata().unwrap().len, 26 + 4096 + 2);
    let bp = BackPack::open(file).unwrap();
    assert_eq!(content(&bp, "a").unwrap(), b"AA");
}

struct Lcg(u64);

impl Lcg {
    fn next(&mut self, bound: u64) -> u64 {
        self.0 = self.0.wrapping_mul(6364136223846793005).wrapping_add(1442695040888963407);
        (self.0 >> 33) % bound
    }
}

#[test]
fn random_sequences_keep_the_surviving_files() {
    for seed in 0..20u64 {
        let mut rng = Lcg(seed);
        let mut model: Vec<(String, Vec<u8>)> = Vec::new();
        let mut pending: Vec<String> = Vec::new();
        let mut bp = BackPack::create(RawFile::in_memory("pack.bp")).unwrap();
        for _ in 0..60 {
            match rng.next(10) {
                0..=4 => {
                    let name = format!("file{}", rng.next(12));
                    let len = rng.next(40) as usize + 1;
                    let body: Vec<u8> = (0..len).map(|_| rng.next(256) as u8).collect();
                    bp.add_file(named(&name, &body)).unwrap();
                    if !pending.contains(&name) {
                        model.retain(|(n, _)| n != &name);
                        model.push((name, body));
                    }
                }
                5..=6 => {
                    let name = format!("file{}", rng.next(12));
                    let known = model.iter().any(|(n, _)| n == &name);
                    let r = bp.remove_file(&name);
                    assert_eq!(r.is_ok(), known, "seed {}", seed);
                    if known {
                        pending.push(name.clone());
                    }
                    model.retain(|(n, _)| n != &name);
                }
                7 => {
                    bp.flush().unwrap();
                    pending.clear();
                }
                _ => {
                    let file = bp.close().unwrap();
                    bp = BackPack::open(file).unwrap();
                    pending.clear();
                }
            }
            for (name, body) in &model {
                assert_eq!(&content(&bp, name).unwrap(), body, "seed {}", seed);
            }
            for i in 0..12 {
                let name = format!("file{}", i);
                assert_eq!(
                    bp.get_file(&name).is_ok(),
                    model.iter().any(|(n, _)| n == &name),
                    "seed {}",
                    seed
                );
            }
        }
        let file = bp.close().unwrap();
        let bp = BackPack::open(file).unwrap();
        for (name, body) in &model {
            assert_eq!(&content(&bp, name).unwrap(), body, "seed {}", seed);
        }
        let total: usize = model.iter().map(|(_, b)| b.len()).sum();
        assert_eq!(bp.memory_bytes(), total);
    }
}

#[test]
fn names_of_every_length_round_trip_over_many_blocks() {
    let mut bp = BackPack::create(RawFile::in_memory("pack.bp")).unwrap();
    let lengths = [0usize, 1, 2, 17, 255, 256, 1000, 2033, 2034, 4000, 4065, 4066, 3, 4066, 1];
    let mut names: Vec<String> = Vec::new();
    for (i, len) in lengths.iter().enumerate() {
        let mut name = format!("{}", (b'a' + i as u8) as char).repeat(*len);
        if names.contains(&name) {
            name = format!("{}", (b'A' + i as u8) as char).repeat(*len);
        }
        let body = vec![i as u8; i + 1];
        bp.add_file(named(&name, &body)).unwrap();
        names.push(name);
    }
    let file = bp.close().unwrap();
    let image = bytes_of(&file);
    assert_eq!(image.len(), 26 + 8 * 4096 + 120);
    assert_eq!(&image[26..28], &(10u16 + 3708).to_le_bytes());
    assert_eq!(&image[28..36], &(26u64 + 4096).to_le_bytes());
    assert_eq!(&image[26 + 4096..28 + 4096], &(10u16 + 2052).to_le_bytes());
    assert_eq!(&image[28 + 7 * 4096..36 + 7 * 4096], &0u64.to_le_bytes());
    let bp = BackPack::open(file).unwrap();
    for (i, name) in names.iter().enumerate() {
        assert_eq!(content(&bp, name).unwrap(), vec![i as u8; i + 1], "name {}", i);
    }
}

#[test]
fn a_name_removed_and_flushed_can_come_back() {
    let mut bp = BackPack::create(RawFile::in_memory("pack.bp")).unwrap();
    bp.add_file(named("a", b"one")).unwrap();
    bp.remove_file("a").unwrap();
    bp.add_file(named("a", b"shadowed")).unwrap();
    assert!(matches!(bp.get_file("a"), Err(PackError::FileNotFound(_))));
    bp.flush().unwrap();
    assert!(matches!(bp.get_file("a"), Err(PackError::FileNotFound(_))));
    bp.add_file(named("a", b"two")).unwrap();
    assert_eq!(content(&bp, "a").unwrap(), b"two");
    let file = bp.close().unwrap();
    let bp = BackPack::open(file).unwrap();
    assert_eq!(content(&bp, "a").unwrap(), b"two");
    assert_eq!(bp.memory_bytes(), 3);
}

#[test]
fn names_in_utf8_round_trip() {
    let mut bp = BackPack::create(RawFile::in_memory("pack.bp")).unwrap();
    let names = ["añb", "日本語.txt", "🎒", "plain", ""];
    for (i, name) in names.iter().enumerate() {
        bp.add_file(named(name, &vec![i as u8; i + 1])).unwrap();
    }
    let file = bp.close().unwrap();
    let bp = BackPack::open(file).unwrap();
    for (i, name) in names.iter().enumerate() {
        assert_eq!(content(&bp, name).unwrap(), vec![i as u8; i + 1]);
    }
    assert!(matches!(bp.get_file("anb"), Err(PackError::FileNotFound(_))));
}

#[test]
fn memory_bytes_is_the_sum_of_the_buffers() {
    let mut bp = BackPack::create(RawFile::in_memory("pack.bp")).unwrap();
    let mut handles = Vec::new();
    for i in 0..10usize {
        let name = format!("f{}", i);
        handles.push(bp.add_file(named(&name, &vec![1u8; i * 3 + 1])).unwrap());
    }
    handles[2].set_len(Some(&mut bp), 100).unwrap();
    handles[5].set_len(Some(&mut bp), 0).unwrap();
    handles[7].seek(Some(&bp), backpack::pack::buffer::SeekFrom::Start(50)).unwrap();
    handles[7].write(Some(&mut bp), b"far").unwrap();
    bp.remove_file("f1").unwrap();
    let sum: usize = handles.iter().map(|h| h.get_bytes(Some(&bp)).unwrap().len()).sum();
    assert_eq!(sum, 1 + 4 + 100 + 10 + 13 + 0 + 19 + 53 + 25 + 28);
    assert_eq!(bp.memory_bytes(), sum);
    bp.flush().unwrap();
    assert_eq!(bp.memory_bytes(), sum);
    let file = bp.close().unwrap();
    let bp = BackPack::open(file).unwrap();
    assert_eq!(bp.memory_bytes(), sum - 4);
}

#[test]
fn create_cuts_the_stream_to_nothing() {
    let bp = BackPack::create(RawFile::from(vec![7u8; 100])).unwrap();
    let file = bp.close_drop_unwritten_changes().unwrap();
    assert_eq!(bytes_of(&file), Vec::<u8>::new());
    let bp = BackPack::create(RawFile::from(vec![7u8; 100])).unwrap();
    let file = bp.close().unwrap();
    assert_eq!(bytes_of(&file).len(), 26);
}
